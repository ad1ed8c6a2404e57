//! The world seed a page address asks for, as `?seed=` in its query.

use vstd::prelude::*;

use crate::text::{chars_of, find_char, index_of, same_chars, split_chars, split_on, views};

verus! {

/// `s` without its leading `?` characters.
pub open spec fn trim_question_marks(s: Seq<char>) -> Seq<char>
    decreases s.len(),
{
    if s.len() > 0 && s[0] == '?' {
        trim_question_marks(s.drop_first())
    } else {
        s
    }
}

pub open spec fn is_digit_char(c: char) -> bool {
    '0' <= c <= '9'
}

/// The value of a run of decimal digits.
pub open spec fn digits_value(d: Seq<char>) -> nat
    decreases d.len(),
{
    if d.len() == 0 {
        0
    } else {
        digits_value(d.drop_last()) * 10 + (d.last() as nat - 48) as nat
    }
}

/// `t` without one leading `+`.
pub open spec fn unsigned_digits(t: Seq<char>) -> Seq<char> {
    if t.len() > 0 && t[0] == '+' {
        t.skip(1)
    } else {
        t
    }
}

pub open spec fn all_digit_chars(d: Seq<char>) -> bool {
    forall|k: int| 0 <= k < d.len() ==> is_digit_char(#[trigger] d[k])
}

/// What `str::parse::<u32>` makes of `t`: an optional `+`, then one or more
/// digits whose value fits in a `u32`.
pub open spec fn parse_u32(t: Seq<char>) -> Option<u32> {
    let d = unsigned_digits(t);
    if d.len() > 0 && all_digit_chars(d) && digits_value(d) <= u32::MAX {
        Some(digits_value(d) as u32)
    } else {
        None
    }
}

/// The seed named by the first of `pairs`, from `i` on, that has an `=`
/// and the name `seed` before it.
pub open spec fn first_seed(pairs: Seq<Seq<char>>, i: int) -> Option<u32>
    decreases pairs.len() - i,
{
    if i < 0 || i >= pairs.len() {
        None
    } else {
        match index_of(pairs[i], '=') {
            Some(k) => if pairs[i].take(k) == "seed"@ {
                parse_u32(pairs[i].skip(k + 1))
            } else {
                first_seed(pairs, i + 1)
            },
            None => first_seed(pairs, i + 1),
        }
    }
}

/// The seed a query string asks for: its leading `?`s dropped, split at
/// `&`, the first `name=value` pair named `seed`, its value read as a `u32`.
pub open spec fn query_seed(search: Seq<char>) -> Option<u32> {
    first_seed(split_on(trim_question_marks(search), '&'), 0)
}

proof fn lemma_digits_value_grows(d: Seq<char>, c: char)
    requires
        is_digit_char(c),
    ensures
        digits_value(d.push(c)) >= digits_value(d),
{
    assert(d.push(c).drop_last() =~= d);
}

/// The value of `t` from `from` on, as [`parse_u32`] reads it.
fn parse_u32_from(t: &Vec<char>, from: usize) -> (r: Option<u32>)
    requires
        from <= t@.len(),
    ensures
        r == parse_u32(t@.skip(from as int)),
{
    let ghost text = t@.skip(from as int);
    let mut start = from;
    if start < t.len() && t[start] == '+' {
        start = start + 1;
    }
    let ghost d = t@.skip(start as int);
    assert(d == unsigned_digits(text)) by {
        if start > from {
            assert(text.skip(1) =~= d);
        } else {
            assert(text =~= d);
        }
    }
    if start == t.len() {
        return None;
    }
    let mut value: u64 = 0;
    let mut i = start;
    while i < t.len()
        invariant
            start <= i <= t@.len(),
            start < t@.len(),
            text == t@.skip(from as int),
            d == t@.skip(start as int),
            d == unsigned_digits(text),
            forall|k: int| start <= k < i ==> is_digit_char(#[trigger] t@[k]),
            value == digits_value(t@.subrange(start as int, i as int)),
            value <= u32::MAX,
        decreases t.len() - i,
    {
        let c = t[i];
        if !('0' <= c && c <= '9') {
            assert(!is_digit_char(d[i - start]));
            assert(!all_digit_chars(d));
            return None;
        }
        let ghost before = t@.subrange(start as int, i as int);
        assert(t@.subrange(start as int, i + 1) =~= before.push(c));
        assert(before.push(c).drop_last() =~= before);
        proof {
            lemma_digits_value_grows(before, c);
        }
        let digit = (c as u64) - 48;
        value = value * 10 + digit;
        i = i + 1;
        if value > 0xFFFF_FFFF {
            proof {
                assert(t@.subrange(start as int, t@.len() as int) =~= d);
                if forall|j: int| i <= j < t@.len() ==> is_digit_char(#[trigger] t@[j]) {
                    lemma_value_prefix(t@, start as int, i as int, t@.len() as int);
                } else {
                    let j = choose|j: int| i <= j < t@.len() && !is_digit_char(#[trigger] t@[j]);
                    assert(d[j - start] == t@[j]);
                    assert(!all_digit_chars(d));
                }
            }
            return None;
        }
    }
    assert(t@.subrange(start as int, t@.len() as int) =~= d);
    Some(value as u32)
}

/// Appending digits never lowers a value.
proof fn lemma_value_prefix(t: Seq<char>, start: int, i: int, k: int)
    requires
        0 <= start <= i <= k <= t.len(),
    ensures
        (forall|j: int| i <= j < k ==> is_digit_char(#[trigger] t[j])) ==> digits_value(
            t.subrange(start, k),
        ) >= digits_value(t.subrange(start, i)),
    decreases k - i,
{
    if k > i {
        lemma_value_prefix(t, start, i, k - 1);
        if forall|j: int| i <= j < k ==> is_digit_char(#[trigger] t[j]) {
            assert(t.subrange(start, k) =~= t.subrange(start, k - 1).push(t[k - 1]));
            lemma_digits_value_grows(t.subrange(start, k - 1), t[k - 1]);
        }
    }
}

/// The seed the query string `search` asks for, if any.
pub fn seed_from_query(search: &str) -> (r: Option<u32>)
    ensures
        r == query_seed(search@),
{
    let chars = chars_of(search);
    let mut start: usize = 0;
    assert(chars@.skip(0) =~= chars@);
    while start < chars.len() && chars[start] == '?'
        invariant
            start <= chars@.len(),
            trim_question_marks(chars@) == trim_question_marks(chars@.skip(start as int)),
        decreases chars.len() - start,
    {
        assert(chars@.skip(start as int).drop_first() =~= chars@.skip(start + 1));
        start = start + 1;
    }
    let mut rest: Vec<char> = Vec::new();
    let mut j = start;
    while j < chars.len()
        invariant
            start <= j <= chars@.len(),
            rest@ == chars@.subrange(start as int, j as int),
        decreases chars.len() - j,
    {
        rest.push(chars[j]);
        j = j + 1;
        assert(rest@ =~= chars@.subrange(start as int, j as int));
    }
    proof {
        let tail = chars@.skip(start as int);
        assert(rest@ =~= tail);
        if start < chars@.len() {
            assert(tail[0] != '?');
        }
        assert(trim_question_marks(tail) == tail);
    }
    let pairs = split_chars(&rest, '&');
    let key = chars_of("seed");
    let ghost all = views(pairs@);
    let mut i: usize = 0;
    while i < pairs.len()
        invariant
            i <= pairs@.len(),
            all == views(pairs@),
            all == split_on(trim_question_marks(search@), '&'),
            key@ == "seed"@,
            first_seed(all, 0) == first_seed(all, i as int),
        decreases pairs.len() - i,
    {
        let pair = &pairs[i];
        assert(all[i as int] == pair@);
        match find_char(pair, '=') {
            Some(k) => {
                let mut name: Vec<char> = Vec::new();
                let mut m: usize = 0;
                while m < k
                    invariant
                        m <= k < pair@.len(),
                        name@ == pair@.take(m as int),
                    decreases k - m,
                {
                    name.push(pair[m]);
                    m = m + 1;
                    assert(name@ =~= pair@.take(m as int));
                }
                if same_chars(&name, &key) {
                    return parse_u32_from(pair, k + 1);
                }
            },
            None => {},
        }
        i = i + 1;
    }
    None
}

} // verus!
