use vstd::prelude::*;
use crate::chars::{is_digit, is_white_space};
use crate::value::{insert_member, JsonModel};

verus! {

/// Why reading failed.
pub enum Failure {
    /// A keyword character was due and another was found.
    Expected(char, char),
    /// A keyword character was due at the end of the input.
    ExpectedEnd(char),
    UnterminatedString,
    UnterminatedEscape,
    InvalidEscape(char),
    /// The integer part of a number has no digit.
    DigitExpected,
    FractionDigitExpected,
    ExponentDigitExpected,
    UnexpectedEnd,
    UnexpectedChar(char),
    TrailingCommaInArray,
    ArraySeparatorExpected(char),
    UnterminatedArray,
    KeyNotString,
    ColonExpected(char),
    ColonExpectedAtEnd,
    TrailingCommaInObject,
    ObjectSeparatorExpected(char),
    UnterminatedObject,
    TrailingCharacters,
}

/// `before`, then `c`, then `after`.
pub open spec fn naming(before: Seq<char>, c: char, after: Seq<char>) -> Seq<char> {
    before + seq![c] + after
}

/// The message that reports each failure.
pub open spec fn message_of(f: Failure) -> Seq<char> {
    match f {
        Failure::Expected(c, d) => naming("Expected '"@, c, "', found '"@) + seq![d] + "'"@,
        Failure::ExpectedEnd(c) => naming("Expected '"@, c, "', found end of input"@),
        Failure::UnterminatedString => "Unterminated string"@,
        Failure::UnterminatedEscape => "unterminated escape sequence"@,
        Failure::InvalidEscape(c) => "invalid escape sequence: \\"@.push(c),
        Failure::DigitExpected => "expected digit after minus sign or invalid number"@,
        Failure::FractionDigitExpected => "expected digit after decimal point"@,
        Failure::ExponentDigitExpected => "expected digit in exponent"@,
        Failure::UnexpectedEnd => "unexpected end of input"@,
        Failure::UnexpectedChar(c) => "unexpected character: "@.push(c),
        Failure::TrailingCommaInArray => "unexpected trailing comma in array"@,
        Failure::ArraySeparatorExpected(c) => naming("expected ',' or ']' in array, found '"@, c, "'"@),
        Failure::UnterminatedArray => "unterminated array"@,
        Failure::KeyNotString => "object keys must be strings"@,
        Failure::ColonExpected(c) => naming("expected ':' after object key, found '"@, c, "'"@),
        Failure::ColonExpectedAtEnd => "expected ':' after object key, found end of input"@,
        Failure::TrailingCommaInObject => "unexpected trailing comma in object"@,
        Failure::ObjectSeparatorExpected(c) => naming("expected ',' or '}' in object, found '"@, c, "'"@),
        Failure::UnterminatedObject => "unterminated object"@,
        Failure::TrailingCharacters => "unexpected trailing characters"@,
    }
}

/// What a grammar rule gives at a position: the value read and the position
/// just after it, or why reading failed and at which position.
pub type Step<T> = Result<(T, int), (Failure, int)>;

/// Number of whitespace characters starting at `p`.
pub open spec fn ws_len(s: Seq<char>, p: int) -> nat
    decreases s.len() - p,
{
    if 0 <= p < s.len() && is_white_space(s[p]) {
        1 + ws_len(s, p + 1)
    } else {
        0
    }
}

/// The first position at or after `p` that holds no whitespace.
pub open spec fn skip_ws(s: Seq<char>, p: int) -> int {
    p + ws_len(s, p)
}

/// Number of ASCII digits starting at `p`.
pub open spec fn digits_len(s: Seq<char>, p: int) -> nat
    decreases s.len() - p,
{
    if 0 <= p < s.len() && is_digit(s[p]) {
        1 + digits_len(s, p + 1)
    } else {
        0
    }
}

/// Reads the characters of `w` from index `k` on, the literal starting at `p`.
/// A wrong character fails just after it, a missing one where it was due.
pub open spec fn literal(s: Seq<char>, p: int, w: Seq<char>, k: int) -> Result<int, (Failure, int)>
    decreases w.len() - k,
{
    if k >= w.len() {
        Ok(p + w.len())
    } else if p + k >= s.len() {
        Err((Failure::ExpectedEnd(w[k]), p + k))
    } else if s[p + k] != w[k] {
        Err((Failure::Expected(w[k], s[p + k]), p + k + 1))
    } else {
        literal(s, p, w, k + 1)
    }
}

/// The character that an escape designator stands for.
pub open spec fn unescape(c: char) -> Option<char> {
    if c == '"' {
        Some('"')
    } else if c == '\\' {
        Some('\\')
    } else if c == '/' {
        Some('/')
    } else if c == 'b' {
        Some('\u{08}')
    } else if c == 'f' {
        Some('\u{0C}')
    } else if c == 'n' {
        Some('\n')
    } else if c == 'r' {
        Some('\r')
    } else if c == 't' {
        Some('\t')
    } else {
        None
    }
}

/// The rest of a string literal from `q` on, `acc` being what was read before.
pub open spec fn string_body(s: Seq<char>, q: int, acc: Seq<char>) -> Step<Seq<char>>
    decreases s.len() - q,
{
    if q < 0 || q >= s.len() {
        Err((Failure::UnterminatedString, s.len() as int))
    } else if s[q] == '"' {
        Ok((acc, q + 1))
    } else if s[q] == '\\' {
        if q + 1 >= s.len() {
            Err((Failure::UnterminatedEscape, q + 1))
        } else {
            match unescape(s[q + 1]) {
                Some(c) => string_body(s, q + 2, acc.push(c)),
                None => Err((Failure::InvalidEscape(s[q + 1]), q + 2)),
            }
        }
    } else {
        string_body(s, q + 1, acc.push(s[q]))
    }
}

/// A string literal whose opening quote is at `p`.
pub open spec fn string_literal(s: Seq<char>, p: int) -> Step<Seq<char>> {
    string_body(s, p + 1, Seq::empty())
}

/// End of the integer part starting at `a`, or the failing position.
pub open spec fn int_part_end(s: Seq<char>, a: int) -> Result<int, (Failure, int)> {
    if a >= s.len() || !is_digit(s[a]) {
        Err((Failure::DigitExpected, a))
    } else if s[a] == '0' {
        Ok(a + 1)
    } else {
        Ok(a + digits_len(s, a))
    }
}

/// End of the optional fraction starting at `b`, or the failing position.
pub open spec fn fraction_end(s: Seq<char>, b: int) -> Result<int, (Failure, int)> {
    if 0 <= b < s.len() && s[b] == '.' {
        if digits_len(s, b + 1) == 0 {
            Err((Failure::FractionDigitExpected, b + 1))
        } else {
            Ok(b + 1 + digits_len(s, b + 1))
        }
    } else {
        Ok(b)
    }
}

/// End of the optional exponent starting at `c`, or the failing position.
pub open spec fn exponent_end(s: Seq<char>, c: int) -> Result<int, (Failure, int)> {
    if 0 <= c < s.len() && (s[c] == 'e' || s[c] == 'E') {
        let f = if c + 1 < s.len() && (s[c + 1] == '+' || s[c + 1] == '-') {
            c + 2
        } else {
            c + 1
        };
        if digits_len(s, f) == 0 {
            Err((Failure::ExponentDigitExpected, f))
        } else {
            Ok(f + digits_len(s, f))
        }
    } else {
        Ok(c)
    }
}

/// End of a number literal starting at `p`, or the failing position.
pub open spec fn number_end(s: Seq<char>, p: int) -> Result<int, (Failure, int)> {
    let a = if 0 <= p < s.len() && s[p] == '-' {
        p + 1
    } else {
        p
    };
    match int_part_end(s, a) {
        Err(e) => Err(e),
        Ok(b) => match fraction_end(s, b) {
            Err(e) => Err(e),
            Ok(c) => exponent_end(s, c),
        },
    }
}

/// A number literal starting at `p`; its text is kept as it stands.
pub open spec fn number(s: Seq<char>, p: int) -> Step<JsonModel> {
    match number_end(s, p) {
        Err(e) => Err(e),
        Ok(e) => Ok((JsonModel::Number(s.subrange(p, e)), e)),
    }
}

/// A keyword `w` at `p`, standing for `v`.
pub open spec fn keyword(s: Seq<char>, p: int, w: Seq<char>, v: JsonModel) -> Step<JsonModel> {
    match literal(s, p, w, 0) {
        Err(e) => Err(e),
        Ok(e) => Ok((v, e)),
    }
}

/// A value, after any whitespace at `p`.
pub open spec fn value(s: Seq<char>, p: int) -> Step<JsonModel>
    decreases s.len() - p, 1int,
{
    let q = skip_ws(s, p);
    if p < 0 || q >= s.len() {
        Err((Failure::UnexpectedEnd, q))
    } else if s[q] == 'n' {
        keyword(s, q, seq!['n', 'u', 'l', 'l'], JsonModel::Null)
    } else if s[q] == 't' {
        keyword(s, q, seq!['t', 'r', 'u', 'e'], JsonModel::Boolean(true))
    } else if s[q] == 'f' {
        keyword(s, q, seq!['f', 'a', 'l', 's', 'e'], JsonModel::Boolean(false))
    } else if s[q] == '"' {
        match string_literal(s, q) {
            Err(e) => Err(e),
            Ok((t, e)) => Ok((JsonModel::Str(t), e)),
        }
    } else if is_digit(s[q]) || s[q] == '-' {
        number(s, q)
    } else if s[q] == '[' {
        array(s, q)
    } else if s[q] == '{' {
        object(s, q)
    } else {
        Err((Failure::UnexpectedChar(s[q]), q))
    }
}

/// An array whose opening bracket is at `q`.
pub open spec fn array(s: Seq<char>, q: int) -> Step<JsonModel>
    decreases s.len() - q, 0int,
{
    let r = skip_ws(s, q + 1);
    if r < s.len() && s[r] == ']' {
        Ok((JsonModel::Array(Seq::empty()), r + 1))
    } else if q < 0 || q >= s.len() {
        Err((Failure::UnexpectedEnd, q))
    } else {
        elements(s, q + 1, Seq::empty())
    }
}

/// An object whose opening brace is at `q`.
pub open spec fn object(s: Seq<char>, q: int) -> Step<JsonModel>
    decreases s.len() - q, 0int,
{
    let r = skip_ws(s, q + 1);
    if r < s.len() && s[r] == '}' {
        Ok((JsonModel::Object(Seq::empty()), r + 1))
    } else if q < 0 || q >= s.len() {
        Err((Failure::UnexpectedEnd, q))
    } else {
        members(s, q + 1, Seq::empty())
    }
}

/// The elements of an array from `q` on, `acc` being those read before.
/// (The test `e <= q` never holds: a value ends after where it starts.
/// An unreachable guard reports the end of input.)
pub open spec fn elements(s: Seq<char>, q: int, acc: Seq<JsonModel>) -> Step<JsonModel>
    decreases s.len() - q, 2int,
{
    if q < 0 || q > s.len() {
        Err((Failure::UnexpectedEnd, q))
    } else {
        match value(s, q) {
            Err(e) => Err(e),
            Ok((v, e)) => {
                let r = skip_ws(s, e);
                if e <= q {
                    Err((Failure::UnexpectedEnd, e))
                } else if r >= s.len() {
                    Err((Failure::UnterminatedArray, r))
                } else if s[r] == ',' {
                    let t = skip_ws(s, r + 1);
                    if t < s.len() && s[t] == ']' {
                        Err((Failure::TrailingCommaInArray, t))
                    } else {
                        elements(s, r + 1, acc.push(v))
                    }
                } else if s[r] == ']' {
                    Ok((JsonModel::Array(acc.push(v)), r + 1))
                } else {
                    Err((Failure::ArraySeparatorExpected(s[r]), r))
                }
            },
        }
    }
}

/// The members of an object from `q` on, `acc` being those read before.
/// (The tests `a <= k` and `e <= b` never hold: a value ends after where
/// it starts. An unreachable guard reports the end of input.)
pub open spec fn members(s: Seq<char>, q: int, acc: Seq<(Seq<char>, JsonModel)>) -> Step<
    JsonModel,
>
    decreases s.len() - q, 2int,
{
    let k = skip_ws(s, q);
    if q < 0 || k >= s.len() || s[k] != '"' {
        Err((Failure::KeyNotString, k))
    } else {
        match string_literal(s, k) {
            Err(e) => Err(e),
            Ok((key, a)) => {
                let b = skip_ws(s, a);
                if a <= k {
                    Err((Failure::UnexpectedEnd, a))
                } else if b >= s.len() {
                    Err((Failure::ColonExpectedAtEnd, b))
                } else if s[b] != ':' {
                    Err((Failure::ColonExpected(s[b]), b + 1))
                } else {
                    match value(s, b + 1) {
                        Err(e) => Err(e),
                        Ok((v, e)) => {
                            let r = skip_ws(s, e);
                            let m = insert_member(acc, key, v);
                            if e <= b {
                                Err((Failure::UnexpectedEnd, e))
                            } else if r >= s.len() {
                                Err((Failure::UnterminatedObject, r))
                            } else if s[r] == ',' {
                                let t = skip_ws(s, r + 1);
                                if t < s.len() && s[t] == '}' {
                                    Err((Failure::TrailingCommaInObject, t))
                                } else {
                                    members(s, r + 1, m)
                                }
                            } else if s[r] == '}' {
                                Ok((JsonModel::Object(m), r + 1))
                            } else {
                                Err((Failure::ObjectSeparatorExpected(s[r]), r))
                            }
                        },
                    }
                }
            },
        }
    }
}

/// A whole document read from `p` on: one value, with nothing but
/// whitespace around it.
pub open spec fn document(s: Seq<char>, p: int) -> Result<JsonModel, (Failure, int)> {
    match value(s, p) {
        Err(e) => Err(e),
        Ok((v, e)) => if skip_ws(s, e) < s.len() {
            Err((Failure::TrailingCharacters, skip_ws(s, e)))
        } else {
            Ok(v)
        },
    }
}

} // verus!
