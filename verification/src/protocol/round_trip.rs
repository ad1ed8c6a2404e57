//! What the encoder writes of an edit, the parser reads back.

use vstd::prelude::*;

use crate::protocol::{
    all_digits, edit_json, exponent_at, is_digit, is_float_literal, is_json_space,
    is_number_char, number_end, number_run, signed_decimal, skip_ws, spec_array, spec_items,
    spec_members, spec_number, spec_object, spec_parse, spec_string, spec_value, string_from,
    valid_mantissa, Edit, JsonValue,
};
use crate::text::decimal;

verus! {

/// The value the parser makes of an edit's JSON: an object whose
/// `"position"` is the array of the three coordinates, as decimal numbers,
/// and whose `"block"` is the block's number.
pub open spec fn edit_value(edit: Edit) -> JsonValue {
    JsonValue::Object(
        seq![
            (
                "position"@,
                JsonValue::Array(
                    seq![
                        JsonValue::Number(signed_decimal(edit.position[0] as int)),
                        JsonValue::Number(signed_decimal(edit.position[1] as int)),
                        JsonValue::Number(signed_decimal(edit.position[2] as int)),
                    ],
                ),
            ),
            ("block"@, JsonValue::Number(decimal(edit.block as nat))),
        ],
    )
}

proof fn lemma_decimal_digits(n: nat)
    ensures
        decimal(n).len() >= 1,
        all_digits(decimal(n)),
    decreases n,
{
    if n >= 10 {
        lemma_decimal_digits(n / 10);
        let d = decimal(n / 10);
        let c = (48 + n % 10) as char;
        assert(is_digit(c));
        assert forall|k: int| 0 <= k < d.push(c).len() implies is_digit(#[trigger] d.push(c)[k]) by {
            if k < d.len() {
                assert(is_digit(d[k]));
            }
        }
    } else {
        assert(is_digit((48 + n) as char));
    }
}

proof fn lemma_no_exponent(s: Seq<char>)
    requires
        all_digits(s),
    ensures
        exponent_at(s) is None,
    decreases s.len(),
{
    if s.len() > 0 {
        assert(is_digit(s[0]));
        assert forall|k: int| 0 <= k < s.drop_first().len() implies is_digit(#[trigger] s.drop_first()[k]) by {
            assert(is_digit(s[k + 1]));
        }
        lemma_no_exponent(s.drop_first());
    }
}

/// A signed decimal is a float literal: an optional minus, then digits.
proof fn lemma_signed_decimal(v: int)
    ensures
        ({
            let t = signed_decimal(v);
            &&& t.len() >= 1
            &&& is_float_literal(t)
            &&& t[0] == '-' || is_digit(t[0])
            &&& forall|k: int| 1 <= k < t.len() ==> is_digit(#[trigger] t[k])
        }),
{
    let t = signed_decimal(v);
    if v < 0 {
        let d = decimal((-v) as nat);
        lemma_decimal_digits((-v) as nat);
        assert(t.skip(1) =~= d);
        lemma_no_exponent(d);
        assert forall|k: int| 1 <= k < t.len() implies is_digit(#[trigger] t[k]) by {
            assert(t[k] == d[k - 1]);
        }
        assert(valid_mantissa(d));
    } else {
        lemma_decimal_digits(v as nat);
        lemma_no_exponent(t);
        assert(is_digit(t[0]));
        assert(valid_mantissa(t));
    }
}

proof fn lemma_number_run_to(s: Seq<char>, j: int, e: int)
    requires
        0 <= j <= e < s.len(),
        forall|k: int| j <= k < e ==> is_number_char(#[trigger] s[k]),
        !is_number_char(s[e]),
    ensures
        number_run(s, j) == e,
    decreases e - j,
{
    if j < e {
        lemma_number_run_to(s, j + 1, e);
    }
}

/// The signed decimal of `v` written at `i`, followed by a character that
/// cannot continue a number, is read back as that number.
proof fn lemma_number_at(s: Seq<char>, i: int, v: int)
    requires
        0 <= i,
        i + signed_decimal(v).len() < s.len(),
        s.subrange(i, i + signed_decimal(v).len()) == signed_decimal(v),
        !is_number_char(s[i + signed_decimal(v).len()]),
    ensures
        spec_value(s, i) == Some((JsonValue::Number(signed_decimal(v)), i + signed_decimal(v).len())),
{
    let t = signed_decimal(v);
    let e = i + t.len();
    lemma_signed_decimal(v);
    assert(s[i] == t[0]);
    assert(!is_json_space(s[i]));
    assert(skip_ws(s, i) == i);
    let j = if s[i] == '-' {
        i + 1
    } else {
        i
    };
    assert forall|k: int| j <= k < e implies is_number_char(#[trigger] s[k]) by {
        assert(s[k] == t[k - i]);
    }
    lemma_number_run_to(s, j, e);
    assert(number_end(s, i) == e);
    assert(s.subrange(i, e) == t);
    assert(spec_number(s, i) == Some((JsonValue::Number(t), e)));
}

proof fn lemma_string_from_run(s: Seq<char>, j: int, m: int, acc: Seq<char>)
    requires
        0 <= j,
        0 <= m,
        j + m < s.len(),
        forall|k: int| j <= k < j + m ==> #[trigger] s[k] != '"' && s[k] != '\\',
        s[j + m] == '"',
    ensures
        string_from(s, j, acc) == Some((acc + s.subrange(j, j + m), j + m + 1)),
    decreases m,
{
    if m > 0 {
        lemma_string_from_run(s, j + 1, m - 1, acc.push(s[j]));
        assert(acc.push(s[j]) + s.subrange(j + 1, j + m) =~= acc + s.subrange(j, j + m));
    } else {
        assert(acc + s.subrange(j, j) =~= acc);
    }
}

/// Where the parts of an edit's JSON `s` lie, for the coordinates' texts
/// `a`, `b`, `c` and the block's text `d`.
#[verifier::opaque]
pub open spec fn edit_layout(s: Seq<char>, a: Seq<char>, b: Seq<char>, c: Seq<char>, d: Seq<char>) -> bool {
    let a1: int = 13int + a.len();
    let b1: int = a1 + 1 + b.len();
    let c1: int = b1 + 1 + c.len();
    let d1: int = c1 + 10 + d.len();
    &&& s.len() == d1 + 1
    &&& s[0] == '{' && s[1] == '"' && s[10] == '"' && s[11] == ':' && s[12] == '['
    &&& s.subrange(2, 10) == "position"@
    &&& s.subrange(13, a1) == a
    &&& s[a1] == ','
    &&& s.subrange(a1 + 1, b1) == b
    &&& s[b1] == ','
    &&& s.subrange(b1 + 1, c1) == c
    &&& s[c1] == ']' && s[c1 + 1] == ',' && s[c1 + 2] == '"' && s[c1 + 8] == '"' && s[c1 + 9] == ':'
    &&& s.subrange(c1 + 3, c1 + 8) == "block"@
    &&& s.subrange(c1 + 10, d1) == d
    &&& s[d1] == '}'
}

#[verifier::rlimit(40)]
proof fn lemma_edit_layout(edit: Edit)
    ensures
        edit_layout(
            edit_json(edit),
            signed_decimal(edit.position[0] as int),
            signed_decimal(edit.position[1] as int),
            signed_decimal(edit.position[2] as int),
            decimal(edit.block as nat),
        ),
{
    reveal(edit_layout);
    reveal_strlit("{\"position\":[");
    reveal_strlit(",");
    reveal_strlit("],\"block\":");
    reveal_strlit("}");
    reveal_strlit("position");
    reveal_strlit("block");
    let a = signed_decimal(edit.position[0] as int);
    let b = signed_decimal(edit.position[1] as int);
    let c = signed_decimal(edit.position[2] as int);
    let d = decimal(edit.block as nat);
    let s1 = "{\"position\":["@ + a;
    let s2 = s1 + ","@ + b;
    let s3 = s2 + ","@ + c;
    let s4 = s3 + "],\"block\":"@ + d;
    let s = s4 + "}"@;
    assert(s == edit_json(edit));
    let a1: int = 13int + a.len();
    let b1: int = a1 + 1 + b.len();
    let c1: int = b1 + 1 + c.len();
    let d1: int = c1 + 10 + d.len();
    assert(s1.subrange(2, 10) =~= "position"@);
    assert(s1.subrange(13, a1) =~= a);
    assert(s2.subrange(a1 + 1, b1) =~= b);
    assert(s3.subrange(b1 + 1, c1) =~= c);
    assert(s4.subrange(c1 + 3, c1 + 8) =~= "block"@);
    assert(s4.subrange(c1 + 10, d1) =~= d);
    assert(s.subrange(2, 10) =~= s1.subrange(2, 10));
    assert(s.subrange(13, a1) =~= s1.subrange(13, a1));
    assert(s.subrange(a1 + 1, b1) =~= s2.subrange(a1 + 1, b1));
    assert(s.subrange(b1 + 1, c1) =~= s3.subrange(b1 + 1, c1));
    assert(s.subrange(c1 + 3, c1 + 8) =~= s4.subrange(c1 + 3, c1 + 8));
    assert(s.subrange(c1 + 10, d1) =~= s4.subrange(c1 + 10, d1));
    assert(s[a1] == s2[a1]);
    assert(s[b1] == s3[b1]);
    assert(s[c1] == s4[c1] && s[c1 + 1] == s4[c1 + 1] && s[c1 + 2] == s4[c1 + 2] && s[c1 + 8]
        == s4[c1 + 8] && s[c1 + 9] == s4[c1 + 9]);
}

/// The array of coordinates of an edit's JSON.
#[verifier::rlimit(40)]
proof fn lemma_positions(s: Seq<char>, x: int, y: int, z: int, d: Seq<char>)
    requires
        edit_layout(s, signed_decimal(x), signed_decimal(y), signed_decimal(z), d),
    ensures
        spec_value(s, 12) == Some((
            JsonValue::Array(
                seq![
                    JsonValue::Number(signed_decimal(x)),
                    JsonValue::Number(signed_decimal(y)),
                    JsonValue::Number(signed_decimal(z)),
                ],
            ),
            13int + signed_decimal(x).len() + 1 + signed_decimal(y).len() + 1 + signed_decimal(z).len() + 1,
        )),
{
    reveal(edit_layout);
    let a = signed_decimal(x);
    let b = signed_decimal(y);
    let c = signed_decimal(z);
    lemma_signed_decimal(x);
    lemma_signed_decimal(y);
    lemma_signed_decimal(z);
    let a0: int = 13;
    let a1: int = a0 + a.len();
    let b0: int = a1 + 1;
    let b1: int = b0 + b.len();
    let c0: int = b1 + 1;
    let c1: int = c0 + c.len();
    let na = JsonValue::Number(a);
    let nb = JsonValue::Number(b);
    let nc = JsonValue::Number(c);
    lemma_number_at(s, a0, x);
    lemma_number_at(s, b0, y);
    lemma_number_at(s, c0, z);
    assert(skip_ws(s, a1) == a1);
    assert(skip_ws(s, b1) == b1);
    assert(skip_ws(s, c1) == c1);
    assert(spec_items(s, c0, seq![na, nb]) == Some((JsonValue::Array(seq![na, nb].push(nc)), c1 + 1)));
    assert(seq![na].push(nb) =~= seq![na, nb]);
    assert(spec_items(s, b0, seq![na]) == spec_items(s, c0, seq![na].push(nb)));
    assert(Seq::<JsonValue>::empty().push(na) =~= seq![na]);
    assert(spec_items(s, a0, Seq::empty()) == spec_items(s, b0, Seq::<JsonValue>::empty().push(na)));
    assert(seq![na, nb].push(nc) =~= seq![na, nb, nc]);
    assert(s[a0] == a[0]);
    assert(skip_ws(s, a0) == a0);
    assert(skip_ws(s, 12) == 12);
}

/// The `"block"` member of an edit's JSON, after the members `first`.
proof fn lemma_block_member(
    s: Seq<char>,
    a: Seq<char>,
    b: Seq<char>,
    c: Seq<char>,
    block: int,
    first: Seq<(Seq<char>, JsonValue)>,
)
    requires
        0 <= block,
        edit_layout(s, a, b, c, signed_decimal(block)),
    ensures
        ({
            let c1: int = 13int + a.len() + 1 + b.len() + 1 + c.len();
            let d = signed_decimal(block);
            spec_members(s, c1 + 2, first) == Some((
                JsonValue::Object(first.push(("block"@, JsonValue::Number(d)))),
                c1 + 10 + d.len() + 1,
            ))
        }),
{
    reveal(edit_layout);
    reveal_strlit("block");
    let d = signed_decimal(block);
    let c1: int = 13int + a.len() + 1 + b.len() + 1 + c.len();
    let d0: int = c1 + 10;
    let d1: int = d0 + d.len();
    lemma_signed_decimal(block);
    assert forall|k: int| c1 + 3 <= k < c1 + 8 implies #[trigger] s[k] != '"' && s[k] != '\\' by {
        let i = k - (c1 + 3);
        assert(s[k] == "block"@[i]);
        assert(i == 0 || i == 1 || i == 2 || i == 3 || i == 4);
    }
    lemma_string_from_run(s, c1 + 3, 5, Seq::empty());
    assert(Seq::<char>::empty() + s.subrange(c1 + 3, c1 + 8) =~= "block"@);
    assert(spec_string(s, c1 + 2) == Some(("block"@, c1 + 9)));
    lemma_number_at(s, d0, block);
    assert(skip_ws(s, d1) == d1);
    assert(skip_ws(s, c1 + 9) == c1 + 9);
    assert(skip_ws(s, c1 + 2) == c1 + 2);
}

/// The whole of an edit's JSON, given its two members.
proof fn lemma_edit_object(s: Seq<char>, a: Seq<char>, b: Seq<char>, c: Seq<char>, d: Seq<char>, positions: JsonValue)
    requires
        edit_layout(s, a, b, c, d),
        ({
            let c1: int = 13int + a.len() + 1 + b.len() + 1 + c.len();
            &&& spec_value(s, 12) == Some((positions, c1 + 1))
            &&& spec_members(s, c1 + 2, seq![("position"@, positions)]) == Some((
                JsonValue::Object(seq![("position"@, positions), ("block"@, JsonValue::Number(d))]),
                c1 + 10 + d.len() + 1,
            ))
        }),
    ensures
        spec_parse(s) == Some(JsonValue::Object(seq![("position"@, positions), ("block"@, JsonValue::Number(d))])),
{
    reveal(edit_layout);
    reveal_strlit("position");
    let c1: int = 13int + a.len() + 1 + b.len() + 1 + c.len();
    let d1: int = c1 + 10 + d.len();
    let first = seq![("position"@, positions)];
    assert forall|k: int| 2 <= k < 10 implies #[trigger] s[k] != '"' && s[k] != '\\' by {
        let i = k - 2;
        assert(s[k] == "position"@[i]);
        assert(i == 0 || i == 1 || i == 2 || i == 3 || i == 4 || i == 5 || i == 6 || i == 7);
    }
    lemma_string_from_run(s, 2, 8, Seq::empty());
    assert(Seq::<char>::empty() + s.subrange(2, 10) =~= "position"@);
    assert(spec_string(s, 1) == Some(("position"@, 11int)));
    assert(skip_ws(s, c1 + 1) == c1 + 1);
    assert(skip_ws(s, 11) == 11);
    assert(skip_ws(s, 1) == 1);
    assert(Seq::<(Seq<char>, JsonValue)>::empty().push(("position"@, positions)) =~= first);
    assert(spec_members(s, 1, Seq::empty()) == spec_members(s, c1 + 2, first));
    assert(skip_ws(s, 0) == 0);
    assert(skip_ws(s, d1 + 1) == d1 + 1);
}

/// Parsing the JSON that `write_edit` writes for `edit` gives back its three
/// coordinates and its block, as the numbers they were written as.
pub proof fn lemma_edit_round_trip(edit: Edit)
    ensures
        spec_parse(edit_json(edit)) == Some(edit_value(edit)),
{
    let x = edit.position[0] as int;
    let y = edit.position[1] as int;
    let z = edit.position[2] as int;
    let a = signed_decimal(x);
    let b = signed_decimal(y);
    let c = signed_decimal(z);
    let d = decimal(edit.block as nat);
    assert(d == signed_decimal(edit.block as int));
    let s = edit_json(edit);
    lemma_edit_layout(edit);
    lemma_positions(s, x, y, z, d);
    let positions = JsonValue::Array(
        seq![JsonValue::Number(a), JsonValue::Number(b), JsonValue::Number(c)],
    );
    let first = seq![("position"@, positions)];
    lemma_block_member(s, a, b, c, edit.block as int, first);
    assert(first.push(("block"@, JsonValue::Number(d))) =~= seq![("position"@, positions), ("block"@, JsonValue::Number(d))]);
    lemma_edit_object(s, a, b, c, d, positions);
}

} // verus!
