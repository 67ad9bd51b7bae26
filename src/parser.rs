use vstd::prelude::*;
use crate::chars::{is_ascii_digit, is_whitespace, push_char, push_str};
use crate::grammar::{array, message_of, naming, Failure, digits_len, exponent_end, fraction_end, int_part_end, document, elements, literal, members, number, object, skip_ws, string_body, string_literal, unescape, value, Step};
use crate::laws::{keys_distinct_deep, lemma_value_keys_distinct};
use crate::value::{insert_member, first_key_index, lemma_member_models_index, lemma_member_models_push, lemma_member_models_update, lemma_models_push, member_models, models, JsonModel, JsonValue};

verus! {

/// Why parsing failed, and at which character index.
#[derive(Debug)]
pub struct ParseError {
    pub message: String,
    pub position: usize,
}

/// A cursor over the characters of one input.
pub struct Parser {
    input: Vec<char>,
    position: usize,
}

/// `e` reports the failure of `g`: its position and its message.
pub open spec fn failed<T>(e: ParseError, g: Result<T, (Failure, int)>) -> bool {
    g is Err && g->Err_0.1 == e.position && e.message@ == message_of(g->Err_0.0)
}

/// `r` is the value that the grammar's step `g` reads, with the cursor left
/// at `end`, or the error at the position where `g` fails.
pub open spec fn value_outcome(r: Result<JsonValue, ParseError>, g: Step<JsonModel>, end: int) -> bool {
    match r {
        Ok(v) => g == Ok::<(JsonModel, int), (Failure, int)>((v.model(), end)),
        Err(e) => failed(e, g),
    }
}

/// `r` is the value of the document `g`, or the error at the position where
/// `g` fails.
pub open spec fn document_outcome(r: Result<JsonValue, ParseError>, g: Result<JsonModel, (Failure, int)>) -> bool {
    match r {
        Ok(v) => g == Ok::<JsonModel, (Failure, int)>(v.model()),
        Err(e) => failed(e, g),
    }
}

/// Parses `text` as one JSON document.
pub fn parse_str(text: &str) -> (r: Result<JsonValue, ParseError>)
    ensures
        document_outcome(r, document(text@, 0)),
        r is Ok ==> keys_distinct_deep(r->Ok_0.model()),
{
    let mut parser = Parser::new(text);
    parser.parse()
}

/// `r` is the string that the grammar's step `g` reads, with the cursor
/// left at `end`, or the error at the position where `g` fails.
pub open spec fn string_outcome(r: Result<String, ParseError>, g: Step<Seq<char>>, end: int) -> bool {
    match r {
        Ok(v) => g == Ok::<(Seq<char>, int), (Failure, int)>((v@, end)),
        Err(e) => failed(e, g),
    }
}

/// `r` is what scanning a piece of a number gave, `g` what the grammar says
/// of that piece: on success the cursor stands at its end and `text` has
/// grown by the characters read.
pub closed spec fn scanned(
    r: Result<(), ParseError>,
    g: Result<int, (Failure, int)>,
    before: Parser,
    after: Parser,
    text_before: Seq<char>,
    text_after: Seq<char>,
) -> bool {
    match r {
        Ok(_) => g == Ok::<int, (Failure, int)>(after.position as int) && before.position <= after.position
            && text_after == text_before + before.input@.subrange(
            before.position as int,
            after.position as int,
        ),
        Err(e) => failed(e, g),
    }
}

/// Skipping whitespace stays within the text, stops at a character that is
/// not whitespace, and skips nothing more when done again.
pub proof fn lemma_skip_ws_bounds(s: Seq<char>, p: int)
    requires
        0 <= p <= s.len(),
    ensures
        p <= skip_ws(s, p) <= s.len(),
        skip_ws(s, skip_ws(s, p)) == skip_ws(s, p),
        skip_ws(s, p) < s.len() ==> !crate::chars::is_white_space(s[skip_ws(s, p)]),
    decreases s.len() - p,
{
    if p < s.len() && crate::chars::is_white_space(s[p]) {
        lemma_skip_ws_bounds(s, p + 1);
    }
}

/// A value reads the same from before or after its leading whitespace.
pub proof fn lemma_value_skips_ws(s: Seq<char>, p: int)
    requires
        0 <= p <= s.len(),
    ensures
        value(s, p) == value(s, skip_ws(s, p)),
{
    lemma_skip_ws_bounds(s, p);
}

proof fn lemma_digits_len_bound(s: Seq<char>, p: int)
    requires
        0 <= p <= s.len(),
    ensures
        p + digits_len(s, p) <= s.len(),
    decreases s.len() - p,
{
    if p < s.len() && crate::chars::is_digit(s[p]) {
        lemma_digits_len_bound(s, p + 1);
    }
}

proof fn lemma_literal_bound(s: Seq<char>, p: int, w: Seq<char>, k: int)
    requires
        0 <= p,
        0 <= k <= w.len(),
        p + k <= s.len(),
    ensures
        literal(s, p, w, k) is Ok ==> literal(s, p, w, k)->Ok_0 == p + w.len() <= s.len(),
        literal(s, p, w, k) is Err ==> p + k <= literal(s, p, w, k)->Err_0.1 <= s.len(),
    decreases w.len() - k,
{
    if k < w.len() && p + k < s.len() && s[p + k] == w[k] {
        lemma_literal_bound(s, p, w, k + 1);
    }
}

/// The character that the escape designator `c` stands for, if any.
pub fn unescape_char(c: char) -> (r: Option<char>)
    ensures
        r == unescape(c),
{
    if c == '"' {
        Some('"')
    } else if c == '\\' {
        Some('\\')
    } else if c == '/' {
        Some('/')
    } else if c == 'b' {
        Some('\u{08}')
    } else if c == 'f' {
        Some('\u{0C}')
    } else if c == 'n' {
        Some('\n')
    } else if c == 'r' {
        Some('\r')
    } else if c == 't' {
        Some('\t')
    } else {
        None
    }
}

/// Writes member `key: v` into `object`: an existing key keeps its place and
/// takes the new value, a new key is appended.
pub fn insert_entry(object: &mut Vec<(String, JsonValue)>, key: String, v: JsonValue)
    ensures
        member_models(final(object)@) == insert_member(member_models(old(object)@), key@, v.model()),
{
    let ghost m = member_models(object@);
    proof {
        lemma_member_models_index(object@);
    }
    let mut i: usize = 0;
    while i < object.len()
        invariant
            object@ == old(object)@,
            m == member_models(object@),
            m.len() == object.len(),
            forall|j: int| 0 <= j < object.len() ==> #[trigger] m[j] == (object@[j].0@, object@[j].1.model()),
            i <= object.len(),
            forall|j: int| 0 <= j < i ==> m[j].0 != key@,
        decreases object.len() - i,
    {
        if object[i].0 == key {
            proof {
                assert(first_key_index(m, key@, i as int));
                let c = choose|c: int| first_key_index(m, key@, c);
                assert(c == i as int);
                lemma_member_models_update(object@, i as int, (key, v));
            }
            object[i] = (key, v);
            return;
        }
        i = i + 1;
    }
    proof {
        lemma_member_models_push(object@, (key, v));
    }
    object.push((key, v));
}

impl Parser {
    /// The characters being read.
    pub closed spec fn text(&self) -> Seq<char> {
        self.input@
    }

    /// The index of the next character to read.
    pub closed spec fn cursor(&self) -> int {
        self.position as int
    }

    /// The cursor stands within the text or at its end.
    pub closed spec fn wf(&self) -> bool {
        self.position <= self.input.len()
    }

    /// A parser at the start of `input`.
    pub fn new(input: &str) -> (r: Parser)
        ensures
            r.text() == input@,
            r.cursor() == 0,
            r.wf(),
    {
        Parser { input: crate::chars::chars_of(input), position: 0 }
    }

    fn peek_char(&self) -> (r: Option<char>)
        requires
            self.wf(),
        ensures
            self.position < self.input.len() ==> r == Some(self.input@[self.position as int]),
            self.position >= self.input.len() ==> r is None,
    {
        if self.position < self.input.len() {
            Some(self.input[self.position])
        } else {
            None
        }
    }

    fn next_char(&mut self) -> (r: Option<char>)
        requires
            old(self).wf(),
        ensures
            final(self).input == old(self).input,
            final(self).wf(),
            old(self).position < old(self).input.len() ==> r == Some(
                old(self).input@[old(self).position as int],
            ) && final(self).position == old(self).position + 1,
            old(self).position >= old(self).input.len() ==> r is None && final(self).position
                == old(self).position,
    {
        let c = self.peek_char();
        if c.is_some() {
            self.position = self.position + 1;
        }
        c
    }

    fn error(&self, message: &str) -> (r: ParseError)
        ensures
            r.position == self.position,
            r.message@ == message@,
    {
        ParseError { message: message.to_owned(), position: self.position }
    }

    /// An error whose message names the character found.
    fn error_found(&self, before: &str, c: char, after: &str) -> (r: ParseError)
        ensures
            r.position == self.position,
            r.message@ == naming(before@, c, after@),
    {
        let mut message = before.to_owned();
        push_char(&mut message, c);
        push_str(&mut message, after);
        proof {
            assert(before@.push(c) + after@ =~= naming(before@, c, after@));
        }
        ParseError { message, position: self.position }
    }

    /// An error whose message ends with the character found.
    fn error_char(&self, before: &str, c: char) -> (r: ParseError)
        ensures
            r.position == self.position,
            r.message@ == before@.push(c),
    {
        let mut message = before.to_owned();
        push_char(&mut message, c);
        ParseError { message, position: self.position }
    }

    /// An error naming the keyword character due and the one found.
    fn error_expected(&self, expected: char, found: char) -> (r: ParseError)
        ensures
            r.position == self.position,
            r.message@ == message_of(Failure::Expected(expected, found)),
    {
        let mut message = "Expected '".to_owned();
        push_char(&mut message, expected);
        push_str(&mut message, "', found '");
        let ghost m = message@;
        push_char(&mut message, found);
        push_str(&mut message, "'");
        proof {
            assert(m =~= naming("Expected '"@, expected, "', found '"@));
            assert(message@ =~= naming("Expected '"@, expected, "', found '"@) + seq![found] + "'"@);
        }
        ParseError { message, position: self.position }
    }

    fn consume_str(&mut self, expected: &[char]) -> (r: Result<(), ParseError>)
        requires
            old(self).wf(),
        ensures
            final(self).input == old(self).input,
            final(self).wf(),
            match literal(old(self).input@, old(self).position as int, expected@, 0) {
                Ok(e) => r is Ok && final(self).position == e,
                Err(_) => r is Err && failed(r->Err_0, literal(old(self).input@, old(self).position as int, expected@, 0)),
            },
    {
        let ghost p = self.position as int;
        let mut i: usize = 0;
        while i < expected.len()
            invariant
                self.input == old(self).input,
                self.wf(),
                i <= expected.len(),
                p == old(self).position,
                self.position == p + i,
                literal(self.input@, p, expected@, 0) == literal(self.input@, p, expected@, i as int),
            decreases expected.len() - i,
        {
            match self.next_char() {
                Some(c) => {
                    if c != expected[i] {
                        return Err(self.error_expected(expected[i], c));
                    }
                },
                None => {
                    return Err(self.error_found("Expected '", expected[i], "', found end of input"));
                },
            }
            i = i + 1;
        }
        Ok(())
    }

    fn skip_whitespace(&mut self)
        requires
            old(self).wf(),
        ensures
            final(self).input == old(self).input,
            final(self).wf(),
            final(self).position == skip_ws(old(self).input@, old(self).position as int),
    {
        proof {
            lemma_skip_ws_bounds(self.input@, self.position as int);
        }
        while self.position < self.input.len() && is_whitespace(self.input[self.position])
            invariant
                self.input == old(self).input,
                self.wf(),
                skip_ws(self.input@, self.position as int) == skip_ws(
                    old(self).input@,
                    old(self).position as int,
                ),
            decreases self.input.len() - self.position,
        {
            self.position = self.position + 1;
        }
    }

    fn parse_string(&mut self) -> (r: Result<String, ParseError>)
        requires
            old(self).wf(),
            old(self).position < old(self).input.len(),
        ensures
            final(self).input == old(self).input,
            final(self).wf(),
            string_outcome(r, string_literal(old(self).input@, old(self).position as int), final(self).position as int),
            r is Ok ==> final(self).position > old(self).position,
    {
        let ghost s = self.input@;
        let ghost p = self.position as int;
        self.next_char();
        let mut result = String::new();
        loop
            invariant
                self.input == old(self).input,
                s == self.input@,
                self.wf(),
                p == old(self).position,
                p < self.position,
                string_body(s, p + 1, Seq::empty()) == string_body(s, self.position as int, result@),
            decreases self.input.len() - self.position,
        {
            match self.next_char() {
                None => {
                    return Err(self.error("Unterminated string"));
                },
                Some(c) => {
                    if c == '"' {
                        return Ok(result);
                    } else if c == '\\' {
                        match self.next_char() {
                            None => {
                                return Err(self.error("unterminated escape sequence"));
                            },
                            Some(e) => match unescape_char(e) {
                                Some(u) => push_char(&mut result, u),
                                None => {
                                    return Err(self.error_char("invalid escape sequence: \\", e));
                                },
                            },
                        }
                    } else {
                        push_char(&mut result, c);
                    }
                },
            }
        }
    }

    /// Reads a run of ASCII digits into `text`; returns how many were read.
    fn scan_digits(&mut self, text: &mut String) -> (n: usize)
        requires
            old(self).wf(),
        ensures
            final(self).input == old(self).input,
            final(self).wf(),
            n == digits_len(old(self).input@, old(self).position as int),
            final(self).position == old(self).position + n,
            final(text)@ == old(text)@ + old(self).input@.subrange(
                old(self).position as int,
                final(self).position as int,
            ),
    {
        let ghost s = self.input@;
        let ghost p = self.position as int;
        let mut n: usize = 0;
        proof {
            lemma_digits_len_bound(s, p);
        }
        while self.position < self.input.len() && is_ascii_digit(self.input[self.position])
            invariant
                self.input == old(self).input,
                s == self.input@,
                p == old(self).position,
                self.wf(),
                self.position == p + n,
                n + digits_len(s, self.position as int) == digits_len(s, p),
                text@ == old(text)@ + s.subrange(p, self.position as int),
            decreases self.input.len() - self.position,
        {
            let c = self.input[self.position];
            push_char(text, c);
            proof {
                assert(s.subrange(p, self.position + 1) =~= s.subrange(p, self.position as int).push(c));
            }
            self.position = self.position + 1;
            n = n + 1;
        }
        n
    }

    /// Reads the integer part of a number literal into `text`.
    fn scan_integer(&mut self, text: &mut String) -> (r: Result<(), ParseError>)
        requires
            old(self).wf(),
        ensures
            final(self).input == old(self).input,
            final(self).wf(),
            scanned(r, int_part_end(old(self).input@, old(self).position as int), *old(self), *final(self), old(text)@, final(text)@),
    {
        let ghost s = self.input@;
        let ghost p = self.position as int;
        let ghost t0 = text@;
        match self.peek_char() {
            Some(c) => {
                if c == '0' {
                    self.next_char();
                    push_char(text, c);
                    proof {
                        assert(t0.push(c) =~= t0 + s.subrange(p, p + 1));
                    }
                    Ok(())
                } else if is_ascii_digit(c) {
                    self.scan_digits(text);
                    Ok(())
                } else {
                    Err(self.error("expected digit after minus sign or invalid number"))
                }
            },
            None => Err(self.error("expected digit after minus sign or invalid number")),
        }
    }

    /// Reads the optional fraction of a number literal into `text`.
    fn scan_fraction(&mut self, text: &mut String) -> (r: Result<(), ParseError>)
        requires
            old(self).wf(),
        ensures
            final(self).input == old(self).input,
            final(self).wf(),
            scanned(r, fraction_end(old(self).input@, old(self).position as int), *old(self), *final(self), old(text)@, final(text)@),
    {
        let ghost s = self.input@;
        let ghost p = self.position as int;
        let ghost t0 = text@;
        if self.peek_char() == Some('.') {
            self.next_char();
            push_char(text, '.');
            let n = self.scan_digits(text);
            proof {
                assert(t0.push('.') + s.subrange(p + 1, self.position as int) =~= t0 + s.subrange(p, self.position as int));
            }
            if n == 0 {
                return Err(self.error("expected digit after decimal point"));
            }
        } else {
            proof {
                assert(text@ =~= t0 + s.subrange(p, p));
            }
        }
        Ok(())
    }

    /// Reads the optional exponent of a number literal into `text`.
    fn scan_exponent(&mut self, text: &mut String) -> (r: Result<(), ParseError>)
        requires
            old(self).wf(),
        ensures
            final(self).input == old(self).input,
            final(self).wf(),
            scanned(r, exponent_end(old(self).input@, old(self).position as int), *old(self), *final(self), old(text)@, final(text)@),
    {
        let ghost s = self.input@;
        let ghost p = self.position as int;
        let ghost t0 = text@;
        let e = self.peek_char();
        if e == Some('e') || e == Some('E') {
            let m = self.next_char().unwrap();
            push_char(text, m);
            let sign = self.peek_char();
            if sign == Some('+') || sign == Some('-') {
                let g = self.next_char().unwrap();
                push_char(text, g);
            }
            let ghost f = self.position as int;
            let ghost t1 = text@;
            proof {
                assert(t1 =~= t0 + s.subrange(p, f));
            }
            let n = self.scan_digits(text);
            proof {
                assert(t1 + s.subrange(f, self.position as int) =~= t0 + s.subrange(p, self.position as int));
            }
            if n == 0 {
                return Err(self.error("expected digit in exponent"));
            }
        } else {
            proof {
                assert(text@ =~= t0 + s.subrange(p, p));
            }
        }
        Ok(())
    }

    fn parse_number(&mut self) -> (r: Result<JsonValue, ParseError>)
        requires
            old(self).wf(),
        ensures
            final(self).input == old(self).input,
            final(self).wf(),
            value_outcome(r, number(old(self).input@, old(self).position as int), final(self).position as int),
            r is Ok ==> final(self).position > old(self).position,
    {
        let ghost s = self.input@;
        let ghost p = self.position as int;
        let mut text = String::new();
        if self.peek_char() == Some('-') {
            self.next_char();
            push_char(&mut text, '-');
        }
        proof {
            assert(text@ =~= s.subrange(p, self.position as int));
        }
        let ghost a = self.position as int;
        match self.scan_integer(&mut text) {
            Err(e) => {
                return Err(e);
            },
            Ok(()) => {},
        }
        let ghost b = self.position as int;
        proof {
            assert(text@ =~= s.subrange(p, b));
        }
        match self.scan_fraction(&mut text) {
            Err(e) => {
                return Err(e);
            },
            Ok(()) => {},
        }
        let ghost c = self.position as int;
        proof {
            assert(text@ =~= s.subrange(p, c));
        }
        match self.scan_exponent(&mut text) {
            Err(e) => {
                return Err(e);
            },
            Ok(()) => {},
        }
        proof {
            assert(text@ =~= s.subrange(p, self.position as int));
        }
        Ok(JsonValue::Number(text))
    }

    fn parse_keyword(&mut self, expected: &[char], v: JsonValue) -> (r: Result<JsonValue, ParseError>)
        requires
            old(self).wf(),
            expected@.len() > 0,
        ensures
            final(self).input == old(self).input,
            final(self).wf(),
            value_outcome(
                r,
                crate::grammar::keyword(old(self).input@, old(self).position as int, expected@, v.model()),
                final(self).position as int,
            ),
            r is Ok ==> final(self).position > old(self).position,
    {
        proof {
            lemma_literal_bound(self.input@, self.position as int, expected@, 0);
        }
        match self.consume_str(expected) {
            Ok(()) => Ok(v),
            Err(e) => Err(e),
        }
    }

    fn parse_value(&mut self) -> (r: Result<JsonValue, ParseError>)
        requires
            old(self).wf(),
        ensures
            final(self).input == old(self).input,
            final(self).wf(),
            value_outcome(r, value(old(self).input@, old(self).position as int), final(self).position as int),
            r is Ok ==> final(self).position > old(self).position,
        decreases old(self).input@.len() - old(self).position, 1int,
    {
        proof {
            lemma_skip_ws_bounds(self.input@, self.position as int);
        }
        self.skip_whitespace();
        let c = match self.peek_char() {
            Some(c) => c,
            None => {
                return Err(self.error("unexpected end of input"));
            },
        };
        if c == 'n' {
            self.parse_keyword(&['n', 'u', 'l', 'l'], JsonValue::Null)
        } else if c == 't' {
            self.parse_keyword(&['t', 'r', 'u', 'e'], JsonValue::Boolean(true))
        } else if c == 'f' {
            self.parse_keyword(&['f', 'a', 'l', 's', 'e'], JsonValue::Boolean(false))
        } else if c == '"' {
            match self.parse_string() {
                Ok(t) => Ok(JsonValue::String(t)),
                Err(e) => Err(e),
            }
        } else if is_ascii_digit(c) || c == '-' {
            self.parse_number()
        } else if c == '[' {
            self.parse_array()
        } else if c == '{' {
            self.parse_object()
        } else {
            Err(self.error_char("unexpected character: ", c))
        }
    }

    fn parse_array(&mut self) -> (r: Result<JsonValue, ParseError>)
        requires
            old(self).wf(),
            old(self).position < old(self).input.len(),
            old(self).input@[old(self).position as int] == '[',
        ensures
            final(self).input == old(self).input,
            final(self).wf(),
            value_outcome(r, array(old(self).input@, old(self).position as int), final(self).position as int),
            r is Ok ==> final(self).position > old(self).position,
        decreases old(self).input@.len() - old(self).position, 0int,
    {
        let ghost s = self.input@;
        let ghost p = self.position as int;
        self.next_char();
        proof {
            lemma_skip_ws_bounds(s, p + 1);
        }
        self.skip_whitespace();
        let mut items: Vec<JsonValue> = Vec::new();
        if self.peek_char() == Some(']') {
            self.next_char();
            proof {
                assert(models(items@) =~= Seq::empty());
            }
            return Ok(JsonValue::Array(items));
        }
        let ghost mut q: int = p + 1;
        proof {
            assert(models(items@) =~= Seq::empty());
        }
        loop
            invariant
                self.input == old(self).input,
                s == self.input@,
                p == old(self).position,
                self.wf(),
                p < q <= s.len(),
                self.position == skip_ws(s, q),
                array(s, p) == elements(s, q, models(items@)),
            decreases s.len() - q,
        {
            proof {
                lemma_skip_ws_bounds(s, q);
                lemma_value_skips_ws(s, q);
            }
            let ghost acc = models(items@);
            let v = match self.parse_value() {
                Ok(v) => v,
                Err(e) => {
                    return Err(e);
                },
            };
            let ghost e = self.position as int;
            proof {
                lemma_models_push(items@, v);
                lemma_skip_ws_bounds(s, e);
            }
            items.push(v);
            self.skip_whitespace();
            let ghost r = self.position as int;
            match self.peek_char() {
                Some(c) => {
                    if c == ',' {
                        self.next_char();
                        proof {
                            lemma_skip_ws_bounds(s, r + 1);
                        }
                        self.skip_whitespace();
                        if self.peek_char() == Some(']') {
                            return Err(self.error("unexpected trailing comma in array"));
                        }
                        proof {
                            q = r + 1;
                        }
                    } else if c == ']' {
                        self.next_char();
                        return Ok(JsonValue::Array(items));
                    } else {
                        return Err(self.error_found("expected ',' or ']' in array, found '", c, "'"));
                    }
                },
                None => {
                    return Err(self.error("unterminated array"));
                },
            }
        }
    }

    fn parse_object(&mut self) -> (r: Result<JsonValue, ParseError>)
        requires
            old(self).wf(),
            old(self).position < old(self).input.len(),
            old(self).input@[old(self).position as int] == '{',
        ensures
            final(self).input == old(self).input,
            final(self).wf(),
            value_outcome(r, object(old(self).input@, old(self).position as int), final(self).position as int),
            r is Ok ==> final(self).position > old(self).position,
        decreases old(self).input@.len() - old(self).position, 0int,
    {
        let ghost s = self.input@;
        let ghost p = self.position as int;
        self.next_char();
        proof {
            lemma_skip_ws_bounds(s, p + 1);
        }
        self.skip_whitespace();
        let mut entries: Vec<(String, JsonValue)> = Vec::new();
        proof {
            assert(member_models(entries@) =~= Seq::empty());
        }
        if self.peek_char() == Some('}') {
            self.next_char();
            return Ok(JsonValue::Object(entries));
        }
        let ghost mut q: int = p + 1;
        loop
            invariant
                self.input == old(self).input,
                s == self.input@,
                p == old(self).position,
                self.wf(),
                p < q <= s.len(),
                self.position == skip_ws(s, q),
                object(s, p) == members(s, q, member_models(entries@)),
            decreases s.len() - q,
        {
            proof {
                lemma_skip_ws_bounds(s, q);
            }
            self.skip_whitespace();
            let ghost k = self.position as int;
            if self.peek_char() != Some('"') {
                return Err(self.error("object keys must be strings"));
            }
            let key = match self.parse_string() {
                Ok(key) => key,
                Err(e) => {
                    return Err(e);
                },
            };
            let ghost a = self.position as int;
            proof {
                lemma_skip_ws_bounds(s, a);
            }
            self.skip_whitespace();
            let ghost b = self.position as int;
            match self.next_char() {
                Some(c) => {
                    if c != ':' {
                        return Err(self.error_found("expected ':' after object key, found '", c, "'"));
                    }
                },
                None => {
                    return Err(self.error("expected ':' after object key, found end of input"));
                },
            }
            proof {
                lemma_skip_ws_bounds(s, b + 1);
                lemma_value_skips_ws(s, b + 1);
            }
            self.skip_whitespace();
            let v = match self.parse_value() {
                Ok(v) => v,
                Err(e) => {
                    return Err(e);
                },
            };
            let ghost e = self.position as int;
            proof {
                lemma_skip_ws_bounds(s, e);
            }
            insert_entry(&mut entries, key, v);
            self.skip_whitespace();
            let ghost r = self.position as int;
            match self.peek_char() {
                Some(c) => {
                    if c == ',' {
                        self.next_char();
                        proof {
                            lemma_skip_ws_bounds(s, r + 1);
                        }
                        self.skip_whitespace();
                        if self.peek_char() == Some('}') {
                            return Err(self.error("unexpected trailing comma in object"));
                        }
                        proof {
                            q = r + 1;
                        }
                    } else if c == '}' {
                        self.next_char();
                        return Ok(JsonValue::Object(entries));
                    } else {
                        return Err(self.error_found("expected ',' or '}' in object, found '", c, "'"));
                    }
                },
                None => {
                    return Err(self.error("unterminated object"));
                },
            }
        }
    }

    /// Reads one whole document from the cursor on.
    pub fn parse(&mut self) -> (r: Result<JsonValue, ParseError>)
        requires
            old(self).wf(),
        ensures
            final(self).wf(),
            final(self).text() == old(self).text(),
            document_outcome(r, document(old(self).text(), old(self).cursor())),
            r is Ok ==> final(self).cursor() == final(self).text().len(),
            r is Ok ==> keys_distinct_deep(r->Ok_0.model()),
    {
        let ghost s = self.input@;
        proof {
            lemma_value_keys_distinct(s, self.position as int);
            lemma_skip_ws_bounds(s, self.position as int);
            lemma_value_skips_ws(s, self.position as int);
        }
        self.skip_whitespace();
        let result = match self.parse_value() {
            Ok(v) => v,
            Err(e) => {
                return Err(e);
            },
        };
        proof {
            lemma_skip_ws_bounds(s, self.position as int);
        }
        self.skip_whitespace();
        if self.peek_char().is_some() {
            return Err(self.error("unexpected trailing characters"));
        }
        Ok(result)
    }
}

} // verus!
