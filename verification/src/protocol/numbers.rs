//! What a message's numbers mean as ids, coordinates and block numbers.
//!
//! Every number the game and the server write is a whole number, and a whole
//! number is read here exactly: an id must lie in the range of `u32`, a
//! coordinate saturates at the range of `i32`, a block number must lie
//! within `0..=255`. A number written with a fraction or an exponent is only
//! read through floating point, which this library does not model; such a
//! text comes back as `Reading::NotWhole`.

use vstd::prelude::*;

use crate::protocol::messages::{EditText, EditView};
use crate::protocol::{all_digits, is_digit, Edit, PlayerId};
use crate::text::chars_of;

verus! {

/// What a number's text means, when it is written as a whole number.
pub enum Reading<T> {
    /// A whole number: what it names, or `None` when it is out of range.
    Whole(Option<T>),
    /// Written with a fraction or an exponent, or not a number at all.
    NotWhole,
}

/// The value of a decimal digit.
pub open spec fn digit_value(c: char) -> int {
    c as int - 48
}

/// The value of a run of decimal digits, most significant first.
pub open spec fn digits_value(d: Seq<char>) -> int
    decreases d.len(),
{
    if d.len() == 0 {
        0
    } else {
        digits_value(d.drop_last()) * 10 + digit_value(d.last())
    }
}

/// The digits of `t`, after its minus sign if it has one.
pub open spec fn magnitude_digits(t: Seq<char>) -> Seq<char> {
    if t.len() > 0 && t[0] == '-' {
        t.skip(1)
    } else {
        t
    }
}

/// Whether `t` is written as a whole number: an optional minus sign, then
/// one or more decimal digits.
pub open spec fn is_whole(t: Seq<char>) -> bool {
    magnitude_digits(t).len() > 0 && all_digits(magnitude_digits(t))
}

/// The value of a whole number's text.
pub open spec fn whole_value(t: Seq<char>) -> int {
    if t.len() > 0 && t[0] == '-' {
        -digits_value(t.skip(1))
    } else {
        digits_value(t)
    }
}

/// `v` saturated at the range of `i32`, as a cast from a float does.
pub open spec fn saturate_i32(v: int) -> i32 {
    if v < i32::MIN {
        i32::MIN
    } else if v > i32::MAX {
        i32::MAX
    } else {
        v as i32
    }
}

/// Past this, a magnitude is out of every range read here.
pub const MAGNITUDE_CAP: u64 = 1099511627776;

pub open spec fn capped(v: int) -> int {
    if v < MAGNITUDE_CAP {
        v
    } else {
        MAGNITUDE_CAP as int
    }
}

proof fn lemma_digits_value_nonneg(d: Seq<char>)
    requires
        all_digits(d),
    ensures
        digits_value(d) >= 0,
    decreases d.len(),
{
    if d.len() > 0 {
        assert(is_digit(d[d.len() - 1]));
        assert(all_digits(d.drop_last())) by {
            assert forall|k: int| 0 <= k < d.drop_last().len() implies is_digit(#[trigger] d.drop_last()[k]) by {
                assert(is_digit(d[k]));
            }
        }
        lemma_digits_value_nonneg(d.drop_last());
    }
}

/// The magnitude written by `t[start..]`, capped at [`MAGNITUDE_CAP`];
/// `None` unless that part is one or more decimal digits.
fn capped_magnitude(t: &Vec<char>, start: usize) -> (r: Option<u64>)
    requires
        start <= t@.len(),
    ensures
        ({
            let d = t@.skip(start as int);
            match r {
                Some(m) => d.len() > 0 && all_digits(d) && m == capped(digits_value(d)),
                None => !(d.len() > 0 && all_digits(d)),
            }
        }),
{
    let ghost d = t@.skip(start as int);
    if start >= t.len() {
        return None;
    }
    let mut acc: u64 = 0;
    let mut i: usize = start;
    while i < t.len()
        invariant
            start <= i <= t@.len(),
            d == t@.skip(start as int),
            all_digits(t@.subrange(start as int, i as int)),
            acc == capped(digits_value(t@.subrange(start as int, i as int))),
        decreases t@.len() - i,
    {
        let c = t[i];
        if !('0' <= c && c <= '9') {
            assert(d[i - start] == c);
            return None;
        }
        let ghost before = t@.subrange(start as int, i as int);
        let ghost after = t@.subrange(start as int, i + 1);
        proof {
            assert(after.drop_last() =~= before);
            assert(after.last() == c);
            assert(all_digits(after)) by {
                assert forall|k: int| 0 <= k < after.len() implies is_digit(#[trigger] after[k]) by {
                    if k < before.len() {
                        assert(after[k] == before[k]);
                    }
                }
            }
            lemma_digits_value_nonneg(before);
        }
        let digit = (c as u32 - 48) as u64;
        assert(digit == digit_value(c));
        if acc >= MAGNITUDE_CAP {
            assert(digits_value(before) >= MAGNITUDE_CAP);
            assert(digits_value(after) >= MAGNITUDE_CAP) by (nonlinear_arith)
                requires
                    digits_value(before) >= MAGNITUDE_CAP,
                    digits_value(after) == digits_value(before) * 10 + digit,
                    digit >= 0,
            ;
        } else {
            assert(digits_value(before) == acc);
            let next = acc * 10 + digit;
            acc = if next >= MAGNITUDE_CAP {
                MAGNITUDE_CAP
            } else {
                next
            };
        }
        i = i + 1;
    }
    assert(t@.subrange(start as int, t@.len() as int) =~= d);
    Some(acc)
}

/// A whole number's text as its sign and capped magnitude.
fn read_whole(text: &str) -> (r: Option<(bool, u64)>)
    ensures
        match r {
            Some((negative, m)) => is_whole(text@) && negative == (text@.len() > 0 && text@[0] == '-')
                && m == capped(digits_value(magnitude_digits(text@))),
            None => !is_whole(text@),
        },
{
    let t = chars_of(text);
    let negative = t.len() > 0 && t[0] == '-';
    let start: usize = if negative {
        1
    } else {
        0
    };
    proof {
        assert(t@.skip(0) =~= t@);
    }
    match capped_magnitude(&t, start) {
        Some(m) => Some((negative, m)),
        None => None,
    }
}

/// What [`id_from_text`] reads.
pub open spec fn spec_id(t: Seq<char>) -> Reading<PlayerId> {
    if !is_whole(t) {
        Reading::NotWhole
    } else if 0 <= whole_value(t) <= u32::MAX {
        Reading::Whole(Some(whole_value(t) as u32))
    } else {
        Reading::Whole(None)
    }
}

proof fn lemma_whole_parts(t: Seq<char>)
    requires
        is_whole(t),
    ensures
        digits_value(magnitude_digits(t)) >= 0,
        whole_value(t) == if t.len() > 0 && t[0] == '-' {
            -digits_value(magnitude_digits(t))
        } else {
            digits_value(magnitude_digits(t))
        },
{
    lemma_digits_value_nonneg(magnitude_digits(t));
}

/// An id as written: a whole number within the range of `u32`.
pub fn id_from_text(text: &str) -> (r: Reading<PlayerId>)
    ensures
        r == spec_id(text@),
{
    match read_whole(text) {
        None => Reading::NotWhole,
        Some((negative, m)) => {
            proof {
                lemma_whole_parts(text@);
            }
            if m > 4294967295 {
                Reading::Whole(None)
            } else if negative && m > 0 {
                Reading::Whole(None)
            } else {
                Reading::Whole(Some(m as u32))
            }
        },
    }
}

/// Whether all four numbers of an edit are written as whole numbers.
pub open spec fn edit_is_whole(e: EditView) -> bool {
    is_whole(e.x) && is_whole(e.y) && is_whole(e.z) && is_whole(e.block)
}

/// A coordinate as written: a whole number, saturated at the range of
/// `i32`.
fn coordinate_from_text(text: &str) -> (r: Option<i32>)
    ensures
        match r {
            Some(v) => is_whole(text@) && v == saturate_i32(whole_value(text@)),
            None => !is_whole(text@),
        },
{
    match read_whole(text) {
        None => None,
        Some((negative, m)) => {
            proof {
                lemma_whole_parts(text@);
            }
            if negative {
                if m > 2147483648 {
                    Some(i32::MIN)
                } else {
                    Some((0 - (m as i64)) as i32)
                }
            } else if m > 2147483647 {
                Some(i32::MAX)
            } else {
                Some(m as i32)
            }
        },
    }
}

/// An edit as written: whole numbers for its coordinates, which saturate at
/// the range of `i32`, and for its block number, which must lie within
/// `0..=255`.
pub fn edit_from_text(edit: &EditText) -> (r: Reading<Edit>)
    ensures
        match r {
            Reading::NotWhole => !edit_is_whole(edit@),
            Reading::Whole(None) => edit_is_whole(edit@) && !(0 <= whole_value(edit@.block) <= 255),
            Reading::Whole(Some(e)) => {
                &&& edit_is_whole(edit@)
                &&& 0 <= whole_value(edit@.block) <= 255
                &&& e.block == whole_value(edit@.block)
                &&& e.position[0] == saturate_i32(whole_value(edit@.x))
                &&& e.position[1] == saturate_i32(whole_value(edit@.y))
                &&& e.position[2] == saturate_i32(whole_value(edit@.z))
            },
        },
{
    let block = match id_from_text(edit.block.as_str()) {
        Reading::NotWhole => return Reading::NotWhole,
        Reading::Whole(b) => b,
    };
    let x = match coordinate_from_text(edit.x.as_str()) {
        Some(v) => v,
        None => return Reading::NotWhole,
    };
    let y = match coordinate_from_text(edit.y.as_str()) {
        Some(v) => v,
        None => return Reading::NotWhole,
    };
    let z = match coordinate_from_text(edit.z.as_str()) {
        Some(v) => v,
        None => return Reading::NotWhole,
    };
    match block {
        Some(b) if b <= 255 => Reading::Whole(Some(Edit { position: [x, y, z], block: b as u8 })),
        _ => Reading::Whole(None),
    }
}

} // verus!
