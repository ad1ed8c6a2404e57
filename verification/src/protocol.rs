//! Wire format shared by the client and the LAN server: JSON, written and
//! parsed by hand.
//!
//! The parser keeps a number as the text it was written with; what a number
//! means (a coordinate, a block, an angle) is decided by whoever reads the
//! message.

use vstd::prelude::*;

use crate::text::{chars_of, decimal, push_char, push_decimal, push_str};

pub mod messages;
pub mod numbers;
pub mod round_trip;

verus! {

pub type PlayerId = u32;

/// not 8080, that one is always taken already
pub const DEFAULT_PORT: u16 = 8118;

/// Stored by the server and replayed to newcomers.
#[derive(Clone, Copy, Debug, PartialEq, Eq)]
pub struct Edit {
    pub position: [i32; 3],
    /// `Block` discriminant, plain int so this doesn't depend on the world
    pub block: u8,
}

// ---------------------------------------------------------------- encoding

/// An integer as `{}` writes it.
pub open spec fn signed_decimal(v: int) -> Seq<char> {
    if v < 0 {
        seq!['-'] + decimal((-v) as nat)
    } else {
        decimal(v as nat)
    }
}

/// Appends `v` in decimal to `out`.
pub fn push_signed(out: &mut String, v: i32)
    ensures
        final(out)@ == old(out)@ + signed_decimal(v as int),
{
    if v < 0 {
        push_char(out, '-');
        let magnitude: u64 = (0 - (v as i64)) as u64;
        push_decimal(out, magnitude);
        assert(final(out)@ =~= old(out)@ + signed_decimal(v as int));
    } else {
        push_decimal(out, v as u64);
    }
}

/// `{"position":[x,y,z],"block":b}`
pub open spec fn edit_json(edit: Edit) -> Seq<char> {
    "{\"position\":["@ + signed_decimal(edit.position[0] as int) + ","@ + signed_decimal(
        edit.position[1] as int,
    ) + ","@ + signed_decimal(edit.position[2] as int) + "],\"block\":"@ + decimal(
        edit.block as nat,
    ) + "}"@
}

/// Appends the JSON object for `edit` to `out`.
pub fn write_edit(out: &mut String, edit: &Edit)
    ensures
        final(out)@ == old(out)@ + edit_json(*edit),
{
    push_str(out, "{\"position\":[");
    push_signed(out, edit.position[0]);
    push_str(out, ",");
    push_signed(out, edit.position[1]);
    push_str(out, ",");
    push_signed(out, edit.position[2]);
    push_str(out, "],\"block\":");
    push_decimal(out, edit.block as u64);
    push_str(out, "}");
    assert(final(out)@ =~= old(out)@ + edit_json(*edit));
}

// ---------------------------------------------------------------- values

/// Just enough JSON for this protocol: objects, arrays, numbers, plain
/// strings. Not a general parser, it rejects whatever it doesn't understand.
/// A number keeps the text it was written with.
pub enum Json {
    Number(String),
    Text(String),
    Array(Vec<Json>),
    Object(Vec<(String, Json)>),
    Bool(bool),
    Null,
}

/// The mathematical content of a [`Json`] value.
pub enum JsonValue {
    Number(Seq<char>),
    Text(Seq<char>),
    Array(Seq<JsonValue>),
    Object(Seq<(Seq<char>, JsonValue)>),
    Bool(bool),
    Null,
}

pub open spec fn json_value(j: Json) -> JsonValue
    decreases j,
{
    match j {
        Json::Number(text) => JsonValue::Number(text@),
        Json::Text(text) => JsonValue::Text(text@),
        Json::Array(items) => JsonValue::Array(
            Seq::new(
                items@.len(),
                |i: int|
                    if 0 <= i < items@.len() {
                        json_value(items@[i])
                    } else {
                        JsonValue::Null
                    },
            ),
        ),
        Json::Object(entries) => JsonValue::Object(
            Seq::new(
                entries@.len(),
                |i: int|
                    if 0 <= i < entries@.len() {
                        (entries@[i].0@, json_value(entries@[i].1))
                    } else {
                        (Seq::empty(), JsonValue::Null)
                    },
            ),
        ),
        Json::Bool(b) => JsonValue::Bool(b),
        Json::Null => JsonValue::Null,
    }
}

impl View for Json {
    type V = JsonValue;

    open spec fn view(&self) -> JsonValue {
        json_value(*self)
    }
}

// ---------------------------------------------------------------- grammar

/// `char::is_ascii_whitespace`: space, tab, line feed, form feed, carriage
/// return.
pub open spec fn is_json_space(c: char) -> bool {
    c == ' ' || c == '\t' || c == '\n' || c == '\x0C' || c == '\r'
}

/// First position at or after `i` that is not whitespace.
pub open spec fn skip_ws(s: Seq<char>, i: int) -> int
    decreases s.len() - i,
{
    if 0 <= i < s.len() && is_json_space(s[i]) {
        skip_ws(s, i + 1)
    } else {
        i
    }
}

pub proof fn lemma_skip_ws(s: Seq<char>, i: int)
    ensures
        skip_ws(s, i) >= i,
        i <= s.len() ==> skip_ws(s, i) <= s.len(),
    decreases s.len() - i,
{
    if 0 <= i < s.len() && is_json_space(s[i]) {
        lemma_skip_ws(s, i + 1);
    }
}

/// Skipping whitespace from `i` stops at the first character that is not
/// ASCII whitespace (space, tab, line feed, form feed or carriage return, as
/// `char::is_ascii_whitespace` has it), or at the end of the text.
pub proof fn lemma_skip_ws_stops_at_the_first_other_character(s: Seq<char>, i: int)
    requires
        0 <= i <= s.len(),
    ensures
        i <= skip_ws(s, i) <= s.len(),
        forall|j: int|
            i <= j < skip_ws(s, i) ==> {
                let c = #[trigger] s[j];
                c == ' ' || c == '\t' || c == '\n' || c == '\x0C' || c == '\r'
            },
        skip_ws(s, i) < s.len() ==> {
            let c = s[skip_ws(s, i)];
            !(c == ' ' || c == '\t' || c == '\n' || c == '\x0C' || c == '\r')
        },
    decreases s.len() - i,
{
    if i < s.len() && is_json_space(s[i]) {
        lemma_skip_ws_stops_at_the_first_other_character(s, i + 1);
    }
}

/// ASCII whitespace before a value does not change what is read there: a
/// space, tab, line feed, form feed or carriage return at `i` is passed
/// over.
pub proof fn lemma_whitespace_before_a_value(s: Seq<char>, i: int)
    requires
        0 <= i < s.len(),
        s[i] == ' ' || s[i] == '\t' || s[i] == '\n' || s[i] == '\x0C' || s[i] == '\r',
    ensures
        spec_value(s, i) == spec_value(s, i + 1),
{
    assert(skip_ws(s, i) == skip_ws(s, i + 1));
}

/// The character an escape sequence `\c` stands for.
pub open spec fn unescape(c: char) -> Option<char> {
    if c == 'n' {
        Some('\n')
    } else if c == 't' {
        Some('\t')
    } else if c == 'r' {
        Some('\r')
    } else if c == 'b' {
        Some('\u{8}')
    } else if c == 'f' {
        Some('\u{c}')
    } else if c == '"' {
        Some('"')
    } else if c == '\\' {
        Some('\\')
    } else if c == '/' {
        Some('/')
    } else {
        None
    }
}

/// The rest of a string literal from `i`, with `acc` already read: the text
/// and the position after the closing quote.
pub open spec fn string_from(s: Seq<char>, i: int, acc: Seq<char>) -> Option<(Seq<char>, int)>
    decreases s.len() - i,
{
    if i < 0 || i >= s.len() {
        None
    } else if s[i] == '"' {
        Some((acc, i + 1))
    } else if s[i] == '\\' {
        if i + 1 >= s.len() {
            None
        } else {
            match unescape(s[i + 1]) {
                Some(c) => string_from(s, i + 2, acc.push(c)),
                None => None,
            }
        }
    } else {
        string_from(s, i + 1, acc.push(s[i]))
    }
}

/// A string literal starting at `i`.
pub open spec fn spec_string(s: Seq<char>, i: int) -> Option<(Seq<char>, int)> {
    if 0 <= i < s.len() && s[i] == '"' {
        string_from(s, i + 1, Seq::empty())
    } else {
        None
    }
}

pub proof fn lemma_string_from_end(s: Seq<char>, i: int, acc: Seq<char>)
    ensures
        string_from(s, i, acc) matches Some((_, e)) ==> i < e <= s.len(),
    decreases s.len() - i,
{
    if 0 <= i < s.len() && s[i] != '"' {
        if s[i] == '\\' {
            if i + 1 < s.len() {
                if let Some(c) = unescape(s[i + 1]) {
                    lemma_string_from_end(s, i + 2, acc.push(c));
                }
            }
        } else {
            lemma_string_from_end(s, i + 1, acc.push(s[i]));
        }
    }
}

pub open spec fn is_digit(c: char) -> bool {
    '0' <= c <= '9'
}

pub open spec fn is_number_char(c: char) -> bool {
    is_digit(c) || c == '.' || c == 'e' || c == 'E' || c == '-' || c == '+'
}

/// End of the run of number characters from `j`.
pub open spec fn number_run(s: Seq<char>, j: int) -> int
    decreases s.len() - j,
{
    if 0 <= j < s.len() && is_number_char(s[j]) {
        number_run(s, j + 1)
    } else {
        j
    }
}

/// End of a number's text from `i`: an optional sign, then number characters.
pub open spec fn number_end(s: Seq<char>, i: int) -> int {
    let j = if 0 <= i < s.len() && (s[i] == '-' || s[i] == '+') {
        i + 1
    } else {
        i
    };
    number_run(s, j)
}

pub open spec fn all_digits(s: Seq<char>) -> bool {
    forall|k: int| 0 <= k < s.len() ==> is_digit(#[trigger] s[k])
}

/// `Digit+ | Digit+ '.' Digit* | Digit* '.' Digit+`
pub open spec fn valid_mantissa(m: Seq<char>) -> bool {
    ||| (m.len() > 0 && all_digits(m))
    ||| exists|k: int|
        0 <= k < m.len() && #[trigger] m[k] == '.' && m.len() > 1 && all_digits(m.take(k))
            && all_digits(m.skip(k + 1))
}

/// `Sign? Digit+`
pub open spec fn valid_exponent(e: Seq<char>) -> bool {
    let digits = if e.len() > 0 && (e[0] == '-' || e[0] == '+') {
        e.skip(1)
    } else {
        e
    };
    digits.len() > 0 && all_digits(digits)
}

/// Index of the first `e` or `E`.
pub open spec fn exponent_at(s: Seq<char>) -> Option<int>
    decreases s.len(),
{
    if s.len() == 0 {
        None
    } else if s[0] == 'e' || s[0] == 'E' {
        Some(0)
    } else {
        match exponent_at(s.drop_first()) {
            Some(k) => Some(k + 1),
            None => None,
        }
    }
}

/// Text that `str::parse::<f64>` accepts, among texts made of digits, `.`,
/// `e`, `E` and signs: `Sign? (Digit+ | Digit+ '.' Digit* | Digit* '.'
/// Digit+) ([eE] Sign? Digit+)?`.
pub open spec fn is_float_literal(t: Seq<char>) -> bool {
    let body = if t.len() > 0 && (t[0] == '-' || t[0] == '+') {
        t.skip(1)
    } else {
        t
    };
    match exponent_at(body) {
        Some(k) => valid_mantissa(body.take(k)) && valid_exponent(body.skip(k + 1)),
        None => valid_mantissa(body),
    }
}

/// A number starting at `i`: its text and where it ends.
pub open spec fn spec_number(s: Seq<char>, i: int) -> Option<(JsonValue, int)> {
    let e = number_end(s, i);
    if e == i || !is_float_literal(s.subrange(i, e)) {
        None
    } else {
        Some((JsonValue::Number(s.subrange(i, e)), e))
    }
}

/// `word` spelled out at `i`: the position after it.
pub open spec fn spec_literal(s: Seq<char>, i: int, word: Seq<char>) -> Option<int> {
    if 0 <= i && i + word.len() <= s.len() && s.subrange(i, i + word.len() as int) == word {
        Some(i + word.len())
    } else {
        None
    }
}

/// A value starting at or after `i` (after whitespace): the value and the
/// position after it.
pub open spec fn spec_value(s: Seq<char>, i: int) -> Option<(JsonValue, int)>
    decreases s.len() - i, 3int,
{
    let j = skip_ws(s, i);
    proof {
        lemma_skip_ws(s, i);
    }
    if !(0 <= j < s.len()) {
        None
    } else if s[j] == '{' {
        spec_object(s, j)
    } else if s[j] == '[' {
        spec_array(s, j)
    } else if s[j] == '"' {
        match spec_string(s, j) {
            Some((text, e)) => Some((JsonValue::Text(text), e)),
            None => None,
        }
    } else if s[j] == 't' {
        match spec_literal(s, j, "true"@) {
            Some(e) => Some((JsonValue::Bool(true), e)),
            None => None,
        }
    } else if s[j] == 'f' {
        match spec_literal(s, j, "false"@) {
            Some(e) => Some((JsonValue::Bool(false), e)),
            None => None,
        }
    } else if s[j] == 'n' {
        match spec_literal(s, j, "null"@) {
            Some(e) => Some((JsonValue::Null, e)),
            None => None,
        }
    } else {
        spec_number(s, j)
    }
}

/// An object whose `{` is at `j`.
pub open spec fn spec_object(s: Seq<char>, j: int) -> Option<(JsonValue, int)>
    decreases s.len() - j, 2int,
{
    let k = skip_ws(s, j + 1);
    proof {
        lemma_skip_ws(s, j + 1);
    }
    if !(0 <= j < s.len()) || !(0 <= k < s.len()) {
        None
    } else if s[k] == '}' {
        Some((JsonValue::Object(Seq::empty()), k + 1))
    } else {
        spec_members(s, k, Seq::empty())
    }
}

/// The members of an object from `k`, with `acc` already read.
pub open spec fn spec_members(s: Seq<char>, k: int, acc: Seq<(Seq<char>, JsonValue)>) -> Option<
    (JsonValue, int),
>
    decreases s.len() - k, 1int,
{
    let k1 = skip_ws(s, k);
    proof {
        lemma_skip_ws(s, k);
    }
    if !(0 <= k <= s.len()) {
        None
    } else {
        match spec_string(s, k1) {
            None => None,
            Some((name, k2)) => {
                let k3 = skip_ws(s, k2);
                proof {
                    lemma_string_from_end(s, k1 + 1, Seq::empty());
                    lemma_skip_ws(s, k2);
                }
                if !(0 <= k3 < s.len()) || s[k3] != ':' {
                    None
                } else {
                    match spec_value(s, k3 + 1) {
                        None => None,
                        Some((value, k4)) => {
                            let k5 = skip_ws(s, k4);
                            if !(k < k5 < s.len()) {
                                None
                            } else if s[k5] == ',' {
                                spec_members(s, k5 + 1, acc.push((name, value)))
                            } else if s[k5] == '}' {
                                Some((JsonValue::Object(acc.push((name, value))), k5 + 1))
                            } else {
                                None
                            }
                        },
                    }
                }
            },
        }
    }
}

/// An array whose `[` is at `j`.
pub open spec fn spec_array(s: Seq<char>, j: int) -> Option<(JsonValue, int)>
    decreases s.len() - j, 2int,
{
    let k = skip_ws(s, j + 1);
    proof {
        lemma_skip_ws(s, j + 1);
    }
    if !(0 <= j < s.len()) || !(0 <= k < s.len()) {
        None
    } else if s[k] == ']' {
        Some((JsonValue::Array(Seq::empty()), k + 1))
    } else {
        spec_items(s, k, Seq::empty())
    }
}

/// The items of an array from `k`, with `acc` already read.
pub open spec fn spec_items(s: Seq<char>, k: int, acc: Seq<JsonValue>) -> Option<(JsonValue, int)>
    decreases s.len() - k, 4int,
{
    if !(0 <= k <= s.len()) {
        None
    } else {
        match spec_value(s, k) {
            None => None,
            Some((value, k4)) => {
                let k5 = skip_ws(s, k4);
                if !(k < k5 < s.len()) {
                    None
                } else if s[k5] == ',' {
                    spec_items(s, k5 + 1, acc.push(value))
                } else if s[k5] == ']' {
                    Some((JsonValue::Array(acc.push(value)), k5 + 1))
                } else {
                    None
                }
            },
        }
    }
}

/// The value that is all of `text`, give or take surrounding whitespace.
pub open spec fn spec_parse(text: Seq<char>) -> Option<JsonValue> {
    match spec_value(text, 0) {
        Some((value, e)) => if skip_ws(text, e) == text.len() {
            Some(value)
        } else {
            None
        },
        None => None,
    }
}

// ---------------------------------------------------------------- parser

pub proof fn lemma_number_run(s: Seq<char>, j: int)
    ensures
        number_run(s, j) >= j,
        j <= s.len() ==> number_run(s, j) <= s.len(),
    decreases s.len() - j,
{
    if 0 <= j < s.len() && is_number_char(s[j]) {
        lemma_number_run(s, j + 1);
    }
}

pub proof fn lemma_value_end(s: Seq<char>, i: int)
    ensures
        spec_value(s, i) matches Some((_, e)) ==> i < e <= s.len(),
    decreases s.len() - i, 3int,
{
    let j = skip_ws(s, i);
    lemma_skip_ws(s, i);
    reveal_strlit("true");
    reveal_strlit("false");
    reveal_strlit("null");
    if 0 <= j < s.len() {
        if s[j] == '{' {
            lemma_object_end(s, j);
        } else if s[j] == '[' {
            lemma_array_end(s, j);
        } else if s[j] == '"' {
            lemma_string_from_end(s, j + 1, Seq::empty());
        } else if s[j] != 't' && s[j] != 'f' && s[j] != 'n' {
            let k = if 0 <= j < s.len() && (s[j] == '-' || s[j] == '+') {
                j + 1
            } else {
                j
            };
            lemma_number_run(s, k);
        }
    }
}

pub proof fn lemma_object_end(s: Seq<char>, j: int)
    ensures
        spec_object(s, j) matches Some((_, e)) ==> j < e <= s.len(),
    decreases s.len() - j, 2int,
{
    lemma_skip_ws(s, j + 1);
    let k = skip_ws(s, j + 1);
    if 0 <= j < s.len() && 0 <= k < s.len() && s[k] != '}' {
        lemma_members_end(s, k, Seq::empty());
    }
}

pub proof fn lemma_members_end(s: Seq<char>, k: int, acc: Seq<(Seq<char>, JsonValue)>)
    ensures
        spec_members(s, k, acc) matches Some((_, e)) ==> k < e <= s.len(),
    decreases s.len() - k, 1int,
{
    let k1 = skip_ws(s, k);
    lemma_skip_ws(s, k);
    if 0 <= k <= s.len() {
        if let Some((name, k2)) = spec_string(s, k1) {
            let k3 = skip_ws(s, k2);
            lemma_string_from_end(s, k1 + 1, Seq::empty());
            lemma_skip_ws(s, k2);
            if 0 <= k3 < s.len() && s[k3] == ':' {
                if let Some((value, k4)) = spec_value(s, k3 + 1) {
                    let k5 = skip_ws(s, k4);
                    if k < k5 < s.len() && s[k5] == ',' {
                        lemma_members_end(s, k5 + 1, acc.push((name, value)));
                    }
                }
            }
        }
    }
}

pub proof fn lemma_array_end(s: Seq<char>, j: int)
    ensures
        spec_array(s, j) matches Some((_, e)) ==> j < e <= s.len(),
    decreases s.len() - j, 2int,
{
    lemma_skip_ws(s, j + 1);
    let k = skip_ws(s, j + 1);
    if 0 <= j < s.len() && 0 <= k < s.len() && s[k] != ']' {
        lemma_items_end(s, k, Seq::empty());
    }
}

pub proof fn lemma_items_end(s: Seq<char>, k: int, acc: Seq<JsonValue>)
    ensures
        spec_items(s, k, acc) matches Some((_, e)) ==> k < e <= s.len(),
    decreases s.len() - k, 4int,
{
    if 0 <= k <= s.len() {
        lemma_value_end(s, k);
        if let Some((value, k4)) = spec_value(s, k) {
            let k5 = skip_ws(s, k4);
            if k < k5 < s.len() && s[k5] == ',' {
                lemma_items_end(s, k5 + 1, acc.push(value));
            }
        }
    }
}

fn is_ascii_space(c: char) -> (r: bool)
    ensures
        r == is_json_space(c),
{
    c == ' ' || c == '\t' || c == '\n' || c == '\x0C' || c == '\r'
}

/// Moves `cursor` past whitespace.
pub fn skip_whitespace(bytes: &Vec<char>, cursor: &mut usize)
    ensures
        *final(cursor) as int == skip_ws(bytes@, *old(cursor) as int),
{
    while *cursor < bytes.len() && is_ascii_space(bytes[*cursor])
        invariant
            skip_ws(bytes@, *cursor as int) == skip_ws(bytes@, *old(cursor) as int),
        decreases bytes.len() - *cursor,
    {
        *cursor += 1;
    }
}

/// Reads a string literal at `cursor`, escapes resolved.
pub fn parse_string(bytes: &Vec<char>, cursor: &mut usize) -> (r: Option<String>)
    ensures
        match spec_string(bytes@, *old(cursor) as int) {
            Some((text, end)) => r matches Some(t) && t@ == text && *final(cursor) == end,
            None => r is None,
        },
{
    if *cursor >= bytes.len() || bytes[*cursor] != '"' {
        return None;
    }
    *cursor += 1;
    let mut text = String::new();
    loop
        invariant
            string_from(bytes@, *cursor as int, text@) == spec_string(bytes@, *old(cursor) as int),
        decreases bytes.len() - *cursor,
    {
        if *cursor >= bytes.len() {
            return None;
        }
        let ch = bytes[*cursor];
        *cursor += 1;
        if ch == '"' {
            return Some(text);
        } else if ch == '\\' {
            if *cursor >= bytes.len() {
                return None;
            }
            let escaped = bytes[*cursor];
            *cursor += 1;
            let c = if escaped == 'n' {
                '\n'
            } else if escaped == 't' {
                '\t'
            } else if escaped == 'r' {
                '\r'
            } else if escaped == 'b' {
                '\u{8}'
            } else if escaped == 'f' {
                '\u{c}'
            } else if escaped == '"' {
                '"'
            } else if escaped == '\\' {
                '\\'
            } else if escaped == '/' {
                '/'
            } else {
                return None;
            };
            push_char(&mut text, c);
        } else {
            push_char(&mut text, ch);
        }
    }
}

/// Reads `word` at `cursor`, giving `value` when it is there.
fn parse_literal(bytes: &Vec<char>, cursor: &mut usize, word: &str, value: Json) -> (r: Option<Json>)
    requires
        *old(cursor) < bytes.len(),
    ensures
        match spec_literal(bytes@, *old(cursor) as int, word@) {
            Some(end) => r == Some(value) && *final(cursor) == end,
            None => r is None,
        },
{
    let expected = chars_of(word);
    let start: usize = *cursor;
    let mut k: usize = 0;
    while k < expected.len()
        invariant
            k <= expected@.len(),
            expected@ == word@,
            *cursor == start + k,
            start == *old(cursor),
            start + k <= bytes@.len(),
            forall|m: int| 0 <= m < k ==> bytes@[start + m] == #[trigger] expected@[m],
        decreases expected.len() - k,
    {
        if *cursor >= bytes.len() {
            return None;
        }
        if bytes[*cursor] != expected[k] {
            proof {
                if start + word@.len() <= bytes@.len() {
                    assert(bytes@.subrange(start as int, start + word@.len())[k as int]
                        != word@[k as int]);
                }
            }
            return None;
        }
        *cursor += 1;
        k = k + 1;
    }
    assert(bytes@.subrange(start as int, start + word@.len()) =~= word@);
    Some(value)
}

fn is_digit_char(c: char) -> (r: bool)
    ensures
        r == is_digit(c),
{
    '0' <= c && c <= '9'
}

fn all_digits_in(t: &Vec<char>, from: usize, to: usize) -> (r: bool)
    requires
        from <= to <= t@.len(),
    ensures
        r == all_digits(t@.subrange(from as int, to as int)),
{
    let mut k: usize = from;
    while k < to
        invariant
            from <= k <= to <= t@.len(),
            forall|m: int| from <= m < k ==> is_digit(t@[m]),
        decreases to - k,
    {
        if !is_digit_char(t[k]) {
            assert(!is_digit(t@.subrange(from as int, to as int)[k - from]));
            return false;
        }
        k = k + 1;
    }
    assert forall|m: int| 0 <= m < to - from implies is_digit(
        #[trigger] t@.subrange(from as int, to as int)[m],
    ) by {
        assert(t@.subrange(from as int, to as int)[m] == t@[from + m]);
    }
    true
}

/// Whether `t[from..to]` is a mantissa: digits with at most one `.`, and at
/// least one digit.
fn mantissa_ok(t: &Vec<char>, from: usize, to: usize) -> (r: bool)
    requires
        from <= to <= t@.len(),
    ensures
        r == valid_mantissa(t@.subrange(from as int, to as int)),
{
    let ghost m = t@.subrange(from as int, to as int);
    if from == to {
        return false;
    }
    if all_digits_in(t, from, to) {
        return true;
    }
    let mut k: usize = from;
    while k < to && t[k] != '.'
        invariant
            from <= k <= to <= t@.len(),
            forall|p: int| from <= p < k ==> t@[p] != '.',
        decreases to - k,
    {
        k = k + 1;
    }
    if k == to {
        assert forall|p: int| 0 <= p < m.len() implies #[trigger] m[p] != '.' by {
            assert(m[p] == t@[from + p]);
        }
        return false;
    }
    let left = all_digits_in(t, from, k);
    let right = all_digits_in(t, k + 1, to);
    assert(m.take(k - from) =~= t@.subrange(from as int, k as int));
    assert(m.skip(k - from + 1) =~= t@.subrange(k + 1, to as int));
    assert(m[k - from] == '.');
    if left && right && to - from > 1 {
        return true;
    }
    proof {
        assert forall|p: int|
            0 <= p < m.len() && #[trigger] m[p] == '.' && m.len() > 1 && all_digits(m.take(p))
                && all_digits(m.skip(p + 1)) implies false by {
            if p != k - from {
                if p < k - from {
                    assert(t@[from + p] != '.');
                } else {
                    assert(m.take(p)[k - from] == '.');
                }
            }
        }
    }
    false
}

proof fn lemma_exponent_at(s: Seq<char>, i: int)
    requires
        0 <= i <= s.len(),
        forall|j: int| 0 <= j < i ==> s[j] != 'e' && s[j] != 'E',
    ensures
        i < s.len() && (s[i] == 'e' || s[i] == 'E') ==> exponent_at(s) == Some(i),
        i == s.len() ==> exponent_at(s) is None,
    decreases i,
{
    if i > 0 {
        lemma_exponent_at(s.drop_first(), i - 1);
    }
}

/// Whether `t` is text that `str::parse::<f64>` accepts.
#[verifier::rlimit(40)]
fn float_literal_ok(t: &Vec<char>) -> (r: bool)
    ensures
        r == is_float_literal(t@),
{
    let start: usize = if t.len() > 0 && (t[0] == '-' || t[0] == '+') {
        1
    } else {
        0
    };
    let ghost body = if t@.len() > 0 && (t@[0] == '-' || t@[0] == '+') {
        t@.skip(1)
    } else {
        t@
    };
    assert(body =~= t@.skip(start as int));
    let mut k: usize = start;
    while k < t.len() && t[k] != 'e' && t[k] != 'E'
        invariant
            start <= k <= t@.len(),
            forall|p: int| start <= p < k ==> t@[p] != 'e' && t@[p] != 'E',
        decreases t.len() - k,
    {
        k = k + 1;
    }
    proof {
        lemma_exponent_at(body, k - start);
    }
    if k == t.len() {
        assert(t@.subrange(start as int, t@.len() as int) =~= body);
        return mantissa_ok(t, start, t.len());
    }
    assert(body.take(k - start) =~= t@.subrange(start as int, k as int));
    let mantissa = mantissa_ok(t, start, k);
    let ghost e = body.skip(k - start + 1);
    assert(e =~= t@.subrange(k + 1, t@.len() as int));
    let mut d: usize = k + 1;
    if d < t.len() && (t[d] == '-' || t[d] == '+') {
        d = d + 1;
        assert(e.skip(1) =~= t@.subrange(d as int, t@.len() as int));
    }
    let exponent = d < t.len() && all_digits_in(t, d, t.len());
    mantissa && exponent
}

/// Reads a number at `cursor`, keeping its text.
fn parse_number(bytes: &Vec<char>, cursor: &mut usize) -> (r: Option<Json>)
    requires
        *old(cursor) < bytes.len(),
    ensures
        match spec_number(bytes@, *old(cursor) as int) {
            Some((value, end)) => r matches Some(j) && j@ == value && *final(cursor) == end,
            None => r is None,
        },
{
    let start: usize = *cursor;
    if bytes[*cursor] == '-' || bytes[*cursor] == '+' {
        *cursor += 1;
    }
    while *cursor < bytes.len() && (is_digit_char(bytes[*cursor]) || bytes[*cursor] == '.'
        || bytes[*cursor] == 'e' || bytes[*cursor] == 'E' || bytes[*cursor] == '-' || bytes[*cursor]
        == '+')
        invariant
            start <= *cursor <= bytes@.len(),
            start < bytes@.len(),
            number_end(bytes@, start as int) == number_run(bytes@, *cursor as int),
        decreases bytes.len() - *cursor,
    {
        *cursor += 1;
    }
    if start == *cursor {
        return None;
    }
    let mut text: Vec<char> = Vec::new();
    let mut k: usize = start;
    while k < *cursor
        invariant
            start <= k <= *cursor <= bytes@.len(),
            text@ == bytes@.subrange(start as int, k as int),
        decreases *cursor - k,
    {
        text.push(bytes[k]);
        k = k + 1;
        assert(bytes@.subrange(start as int, k as int) =~= bytes@.subrange(start as int, k - 1).push(
            bytes@[k - 1],
        ));
    }
    if float_literal_ok(&text) {
        Some(Json::Number(crate::text::string_of(&text)))
    } else {
        None
    }
}

pub open spec fn entry_views(entries: Seq<(String, Json)>) -> Seq<(Seq<char>, JsonValue)> {
    Seq::new(entries.len(), |i: int| (entries[i].0@, json_value(entries[i].1)))
}

pub open spec fn item_views(items: Seq<Json>) -> Seq<JsonValue> {
    Seq::new(items.len(), |i: int| json_value(items[i]))
}

/// Reads a value at or after `cursor`.
pub fn parse_value(bytes: &Vec<char>, cursor: &mut usize) -> (r: Option<Json>)
    ensures
        match spec_value(bytes@, *old(cursor) as int) {
            Some((value, end)) => r matches Some(j) && j@ == value && *final(cursor) == end,
            None => r is None,
        },
    decreases bytes@.len() - *old(cursor), 3int,
{
    skip_whitespace(bytes, cursor);
    proof {
        lemma_skip_ws(bytes@, *old(cursor) as int);
    }
    if *cursor >= bytes.len() {
        return None;
    }
    let c = bytes[*cursor];
    if c == '{' {
        parse_object(bytes, cursor)
    } else if c == '[' {
        parse_array(bytes, cursor)
    } else if c == '"' {
        match parse_string(bytes, cursor) {
            Some(text) => Some(Json::Text(text)),
            None => None,
        }
    } else if c == 't' {
        parse_literal(bytes, cursor, "true", Json::Bool(true))
    } else if c == 'f' {
        parse_literal(bytes, cursor, "false", Json::Bool(false))
    } else if c == 'n' {
        parse_literal(bytes, cursor, "null", Json::Null)
    } else {
        parse_number(bytes, cursor)
    }
}

/// Reads an object whose `{` is at `cursor`.
fn parse_object(bytes: &Vec<char>, cursor: &mut usize) -> (r: Option<Json>)
    requires
        *old(cursor) < bytes.len(),
    ensures
        match spec_object(bytes@, *old(cursor) as int) {
            Some((value, end)) => r matches Some(j) && j@ == value && *final(cursor) == end,
            None => r is None,
        },
    decreases bytes@.len() - *old(cursor), 2int,
{
    let start: usize = *cursor;
    *cursor += 1;
    let mut entries: Vec<(String, Json)> = Vec::new();
    skip_whitespace(bytes, cursor);
    proof {
        lemma_skip_ws(bytes@, start + 1);
    }
    if *cursor >= bytes.len() {
        return None;
    }
    if bytes[*cursor] == '}' {
        *cursor += 1;
        let r = Json::Object(entries);
        assert(json_value(r) == JsonValue::Object(Seq::empty())) by {
            assert(match json_value(r) {
                JsonValue::Object(e) => e =~= Seq::empty(),
                _ => false,
            });
        }
        return Some(r);
    }
    assert(entry_views(entries@) =~= Seq::empty());
    loop
        invariant
            start < *cursor <= bytes@.len(),
            start == *old(cursor),
            spec_object(bytes@, start as int) == spec_members(
                bytes@,
                *cursor as int,
                entry_views(entries@),
            ),
        decreases bytes@.len() - *cursor,
    {
        let ghost k = *cursor as int;
        let ghost acc = entry_views(entries@);
        let ghost s = bytes@;
        skip_whitespace(bytes, cursor);
        let ghost k1 = *cursor as int;
        proof {
            lemma_skip_ws(s, k);
        }
        let key = match parse_string(bytes, cursor) {
            Some(key) => key,
            None => return None,
        };
        let ghost k2 = *cursor as int;
        proof {
            lemma_string_from_end(s, k1 + 1, Seq::empty());
        }
        skip_whitespace(bytes, cursor);
        let ghost k3 = *cursor as int;
        proof {
            lemma_skip_ws(s, k2);
        }
        if *cursor >= bytes.len() || bytes[*cursor] != ':' {
            return None;
        }
        *cursor += 1;
        let value = match parse_value(bytes, cursor) {
            Some(value) => value,
            None => return None,
        };
        let ghost k4 = *cursor as int;
        proof {
            lemma_value_end(s, k3 + 1);
        }
        let ghost name = key@;
        let ghost v = value@;
        entries.push((key, value));
        assert(entry_views(entries@) =~= acc.push((name, v)));
        skip_whitespace(bytes, cursor);
        let ghost k5 = *cursor as int;
        proof {
            lemma_skip_ws(s, k4);
        }
        if *cursor >= bytes.len() {
            return None;
        }
        if bytes[*cursor] == ',' {
            *cursor += 1;
        } else if bytes[*cursor] == '}' {
            *cursor += 1;
            let ghost views = entry_views(entries@);
            assert(spec_members(s, k, acc) == Some((JsonValue::Object(views), k5 + 1)));
            let r = Json::Object(entries);
            assert(json_value(r) == JsonValue::Object(views)) by {
                assert(match json_value(r) {
                    JsonValue::Object(e) => e =~= views,
                    _ => false,
                });
            }
            return Some(r);
        } else {
            return None;
        }
    }
}

/// Reads an array whose `[` is at `cursor`.
fn parse_array(bytes: &Vec<char>, cursor: &mut usize) -> (r: Option<Json>)
    requires
        *old(cursor) < bytes.len(),
    ensures
        match spec_array(bytes@, *old(cursor) as int) {
            Some((value, end)) => r matches Some(j) && j@ == value && *final(cursor) == end,
            None => r is None,
        },
    decreases bytes@.len() - *old(cursor), 2int,
{
    let start: usize = *cursor;
    *cursor += 1;
    let mut items: Vec<Json> = Vec::new();
    skip_whitespace(bytes, cursor);
    proof {
        lemma_skip_ws(bytes@, start + 1);
    }
    if *cursor >= bytes.len() {
        return None;
    }
    if bytes[*cursor] == ']' {
        *cursor += 1;
        let r = Json::Array(items);
        assert(json_value(r) == JsonValue::Array(Seq::empty())) by {
            assert(match json_value(r) {
                JsonValue::Array(e) => e =~= Seq::empty(),
                _ => false,
            });
        }
        return Some(r);
    }
    assert(item_views(items@) =~= Seq::empty());
    loop
        invariant
            start < *cursor <= bytes@.len(),
            start == *old(cursor),
            spec_array(bytes@, start as int) == spec_items(bytes@, *cursor as int, item_views(items@)),
        decreases bytes@.len() - *cursor,
    {
        let ghost k = *cursor as int;
        let ghost acc = item_views(items@);
        let ghost s = bytes@;
        let value = match parse_value(bytes, cursor) {
            Some(value) => value,
            None => return None,
        };
        let ghost k4 = *cursor as int;
        proof {
            lemma_value_end(s, k);
        }
        let ghost v = value@;
        items.push(value);
        assert(item_views(items@) =~= acc.push(v));
        skip_whitespace(bytes, cursor);
        let ghost k5 = *cursor as int;
        proof {
            lemma_skip_ws(s, k4);
        }
        if *cursor >= bytes.len() {
            return None;
        }
        if bytes[*cursor] == ',' {
            *cursor += 1;
        } else if bytes[*cursor] == ']' {
            *cursor += 1;
            let ghost views = item_views(items@);
            assert(spec_items(s, k, acc) == Some((JsonValue::Array(views), k5 + 1)));
            let r = Json::Array(items);
            assert(json_value(r) == JsonValue::Array(views)) by {
                assert(match json_value(r) {
                    JsonValue::Array(e) => e =~= views,
                    _ => false,
                });
            }
            return Some(r);
        } else {
            return None;
        }
    }
}

impl Json {
    /// Parses `text`, which must hold one value and nothing but whitespace
    /// around it: trailing junk means it's not what it claims to be.
    pub fn parse(text: &str) -> (r: Option<Json>)
        ensures
            match spec_parse(text@) {
                Some(value) => r matches Some(j) && j@ == value,
                None => r is None,
            },
    {
        let bytes = chars_of(text);
        let mut cursor: usize = 0;
        let value = parse_value(&bytes, &mut cursor)?;
        skip_whitespace(&bytes, &mut cursor);
        if cursor == bytes.len() {
            Some(value)
        } else {
            None
        }
    }

    /// The value of the first member called `key`, when this is an object.
    pub fn get(&self, key: &str) -> (r: Option<&Json>)
        ensures
            match self@ {
                JsonValue::Object(members) => match lookup(members, key@, 0) {
                    Some(v) => r matches Some(j) && j@ == v,
                    None => r is None,
                },
                _ => r is None,
            },
    {
        match self {
            Json::Object(entries) => {
                let wanted = key.to_owned();
                let ghost members = entry_views(entries@);
                proof {
                    assert(self@->Object_0 =~= members);
                }
                let mut i: usize = 0;
                while i < entries.len()
                    invariant
                        i <= entries@.len(),
                        members == entry_views(entries@),
                        self@ is Object,
                        self@->Object_0 == members,
                        wanted@ == key@,
                        lookup(members, key@, 0) == lookup(members, key@, i as int),
                    decreases entries@.len() - i,
                {
                    if entries[i].0 == wanted {
                        proof {
                            assert(members[i as int].0 == key@);
                            assert(lookup(members, key@, i as int) == Some(members[i as int].1));
                            assert(members[i as int].1 == entries@[i as int].1@);
                        }
                        return Some(&entries[i].1);
                    }
                    proof {
                        assert(members[i as int].0 != key@);
                    }
                    i = i + 1;
                }
                None
            },
            _ => None,
        }
    }

    /// The text of a string value.
    pub fn as_str(&self) -> (r: Option<&str>)
        ensures
            match self@ {
                JsonValue::Text(text) => r matches Some(s) && s@ == text,
                _ => r is None,
            },
    {
        match self {
            Json::Text(text) => Some(text.as_str()),
            _ => None,
        }
    }

    /// The items of an array value.
    pub fn as_array(&self) -> (r: Option<&Vec<Json>>)
        ensures
            match self@ {
                JsonValue::Array(items) => r matches Some(v) && item_views(v@) == items,
                _ => r is None,
            },
    {
        match self {
            Json::Array(items) => {
                proof {
                    assert(item_views(items@) =~= self@->Array_0);
                }
                Some(items)
            },
            _ => None,
        }
    }

    /// The text of a number value, as it was written.
    pub fn as_number(&self) -> (r: Option<&str>)
        ensures
            match self@ {
                JsonValue::Number(text) => r matches Some(s) && s@ == text,
                _ => r is None,
            },
    {
        match self {
            Json::Number(text) => Some(text.as_str()),
            _ => None,
        }
    }
}

/// The value of the first member from index `i` on whose name is `key`.
pub open spec fn lookup(members: Seq<(Seq<char>, JsonValue)>, key: Seq<char>, i: int) -> Option<
    JsonValue,
>
    decreases members.len() - i,
{
    if i < 0 || i >= members.len() {
        None
    } else if members[i].0 == key {
        Some(members[i].1)
    } else {
        lookup(members, key, i + 1)
    }
}

} // verus!
