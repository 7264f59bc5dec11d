//! The cursor over a text and the recursive-descent parser that drives it.

use crate::data::{
    insert_member, items_view, lemma_items_view_push, members_view, same_text, Json, Value,
};
use crate::decimal::round_decimal;
use crate::errors::Errors;
use crate::grammar::{
    at, document, exponent_part, fraction_part, integer_part, items_from, lemma_numeral,
    lemma_pair_advances, lemma_skip_digits, lemma_string_advances, lemma_value_advances,
    literal_at, members_from, number_at, pair_at, skip_digits, skip_whitespace, string_at,
    string_from, text_false, text_null, text_true, unescape, value_at,
};
use crate::number::{Number, INFINITY_BITS, SIGN_BIT};
use vstd::prelude::*;

verus! {

/// `String::push` of the standard library: the text afterwards is the text
/// before with `c` appended.
pub assume_specification[ std::string::String::push ](s: &mut std::string::String, c: char)
    ensures
        final(s)@ == old(s)@.push(c),
;

/// A read position over a text, counted in characters.
pub struct Context {
    json: Vec<char>,
    cursor: usize,
}

/// A parser over one text.
pub struct Parser {
    context: Context,
}

/// A view of the text from a cursor's position on, with a position of its
/// own, for reading ahead without moving the cursor.
pub struct Iter<'json> {
    partial_json: &'json Vec<char>,
    start: usize,
    cursor: usize,
}

/// The characters of `chars` from `from` to `to`, as a text.
fn text_between(chars: &Vec<char>, from: usize, to: usize) -> (r: String)
    requires
        from <= to <= chars.len(),
    ensures
        r@ == chars@.subrange(from as int, to as int),
{
    let mut r = String::new();
    let mut i: usize = from;
    while i < to
        invariant
            from <= i <= to <= chars.len(),
            r@ == chars@.subrange(from as int, i as int),
        decreases to - i,
    {
        r.push(chars[i]);
        i += 1;
        assert(chars@.subrange(from as int, i as int) == chars@.subrange(from as int, i - 1).push(
            chars@[i - 1],
        ));
    }
    r
}

impl<'json> Iter<'json> {
    #[verifier::type_invariant]
    spec fn within(&self) -> bool {
        self.start + self.cursor <= self.partial_json.len()
    }

    /// The whole text that the view looks into.
    pub closed spec fn text(&self) -> Seq<char> {
        self.partial_json@
    }

    /// Where in the text the view begins.
    pub closed spec fn origin(&self) -> int {
        self.start as int
    }

    /// How many characters the view has passed.
    pub closed spec fn passed(&self) -> int {
        self.cursor as int
    }

    /// The position in the text at which the view reads next.
    pub open spec fn position(&self) -> int {
        self.origin() + self.passed()
    }

    /// How many characters the view has passed.
    pub fn cursor(&self) -> (r: usize)
        ensures
            r == self.passed(),
            self.position() <= self.text().len(),
    {
        proof {
            use_type_invariant(self);
        }
        self.cursor
    }

    /// The next character, which is then passed; `None` at the end of the
    /// text, where nothing moves.
    pub fn next(&mut self) -> (r: Option<char>)
        ensures
            final(self).text() == old(self).text(),
            final(self).origin() == old(self).origin(),
            r == if old(self).position() < old(self).text().len() {
                Some(old(self).text()[old(self).position()])
            } else {
                None
            },
            final(self).passed() == if r is Some {
                old(self).passed() + 1
            } else {
                old(self).passed()
            },
            final(self).position() <= final(self).text().len(),
    {
        proof {
            use_type_invariant(&*self);
        }
        if self.start + self.cursor < self.partial_json.len() {
            let c = self.partial_json[self.start + self.cursor];
            self.cursor += 1;
            Some(c)
        } else {
            None
        }
    }

    /// The next character, without passing it.
    pub fn peek(&self) -> (r: Option<char>)
        ensures
            r == if self.position() < self.text().len() {
                Some(self.text()[self.position()])
            } else {
                None
            },
            0 <= self.position() <= self.text().len(),
    {
        proof {
            use_type_invariant(self);
        }
        if self.start + self.cursor < self.partial_json.len() {
            Some(self.partial_json[self.start + self.cursor])
        } else {
            None
        }
    }

    /// The characters that the view has passed.
    pub fn looked(&self) -> (r: String)
        ensures
            r@ == self.text().subrange(self.origin(), self.position()),
            0 <= self.origin() <= self.position() <= self.text().len(),
    {
        proof {
            use_type_invariant(self);
        }
        text_between(self.partial_json, self.start, self.start + self.cursor)
    }

    /// Passes all the digits that come next. Fails where they are fewer
    /// than `min`.
    pub fn consume_digits(&mut self, min: usize) -> (r: Result<(), Errors>)
        ensures
            final(self).text() == old(self).text(),
            final(self).origin() == old(self).origin(),
            final(self).position() == skip_digits(old(self).text(), old(self).position()),
            r == if final(self).passed() - old(self).passed() >= min {
                Ok::<(), Errors>(())
            } else {
                Err::<(), Errors>(Errors::InvalidValue)
            },
            old(self).position() <= final(self).position() <= final(self).text().len(),
    {
        proof {
            use_type_invariant(&*self);
        }
        let first = self.cursor;
        loop
            invariant
                self.text() == old(self).text(),
                self.origin() == old(self).origin(),
                first == old(self).passed(),
                first <= self.passed(),
                skip_digits(self.text(), self.position()) == skip_digits(
                    old(self).text(),
                    old(self).position(),
                ),
            ensures
                self.text() == old(self).text(),
                self.origin() == old(self).origin(),
                first == old(self).passed(),
                first <= self.passed(),
                self.position() == skip_digits(old(self).text(), old(self).position()),
                self.position() <= self.text().len(),
            decreases self.text().len() - self.position(),
        {
            match self.peek() {
                Some(c) => {
                    if c >= '0' && c <= '9' {
                        self.next();
                    } else {
                        break ;
                    }
                },
                None => {
                    break ;
                },
            }
        }
        if self.cursor - first >= min {
            Ok(())
        } else {
            Err(Errors::InvalidValue)
        }
    }
}

impl Context {
    #[verifier::type_invariant]
    spec fn within(&self) -> bool {
        self.cursor <= self.json.len()
    }

    /// The text that the cursor reads.
    pub closed spec fn text(&self) -> Seq<char> {
        self.json@
    }

    /// The position of the cursor: how many characters lie before it.
    pub closed spec fn position(&self) -> int {
        self.cursor as int
    }

    /// A cursor at the start of `json`.
    pub fn new(json: &str) -> (r: Context)
        ensures
            r.text() == json@,
            r.position() == 0,
    {
        let mut chars: Vec<char> = Vec::new();
        for c in it: json.chars()
            invariant
                it.seq() == json@,
                chars@ == it.seq().take(it.index() as int),
        {
            chars.push(c);
            assert(it.seq().take(it.index() + 1) == it.seq().take(it.index() as int).push(c));
        }
        assert(json@.take(json@.len() as int) == json@);
        Context { json: chars, cursor: 0 }
    }

    /// A view of the text from the cursor on.
    pub fn iter(&self) -> (r: Iter<'_>)
        ensures
            r.text() == self.text(),
            r.origin() == self.position(),
            r.passed() == 0,
            0 <= self.position() <= self.text().len(),
    {
        proof {
            use_type_invariant(self);
        }
        Iter { partial_json: &self.json, start: self.cursor, cursor: 0 }
    }

    /// The character at the cursor; `None` at the end of the text.
    pub fn cur(&self) -> (r: Option<char>)
        ensures
            r == if self.position() < self.text().len() {
                Some(self.text()[self.position()])
            } else {
                None
            },
            0 <= self.position() <= self.text().len(),
    {
        proof {
            use_type_invariant(self);
        }
        if self.cursor < self.json.len() {
            Some(self.json[self.cursor])
        } else {
            None
        }
    }

    /// Moves the cursor one character on; at the end of the text it stays.
    pub fn advance(&mut self)
        ensures
            final(self).text() == old(self).text(),
            final(self).position() == if old(self).position() < old(self).text().len() {
                old(self).position() + 1
            } else {
                old(self).position()
            },
            0 <= old(self).position() <= final(self).position() <= final(self).text().len(),
    {
        proof {
            use_type_invariant(&*self);
        }
        if self.cursor < self.json.len() {
            self.cursor += 1;
        }
    }

    /// Moves the cursor `steps` characters on, and no further than the end
    /// of the text.
    pub fn advance_n(&mut self, steps: usize)
        ensures
            final(self).text() == old(self).text(),
            final(self).position() == if old(self).position() + steps <= old(self).text().len() {
                old(self).position() + steps
            } else {
                old(self).text().len() as int
            },
            0 <= old(self).position() <= final(self).position() <= final(self).text().len(),
    {
        proof {
            use_type_invariant(&*self);
        }
        if steps <= self.json.len() - self.cursor {
            self.cursor += steps;
        } else {
            self.cursor = self.json.len();
        }
    }

    /// The next `n` characters, where that many are left; else the empty
    /// text.
    pub fn peek(&self, n: usize) -> (r: String)
        ensures
            r@ == if self.position() + n <= self.text().len() {
                self.text().subrange(self.position(), self.position() + n)
            } else {
                Seq::<char>::empty()
            },
            0 <= self.position() <= self.text().len(),
    {
        proof {
            use_type_invariant(self);
        }
        if n <= self.json.len() - self.cursor {
            text_between(&self.json, self.cursor, self.cursor + n)
        } else {
            String::new()
        }
    }

    /// The character at the cursor, which then moves past it; `None` at
    /// the end of the text.
    pub fn next(&mut self) -> (r: Option<char>)
        ensures
            final(self).text() == old(self).text(),
            r == if old(self).position() < old(self).text().len() {
                Some(old(self).text()[old(self).position()])
            } else {
                None
            },
            final(self).position() == if r is Some {
                old(self).position() + 1
            } else {
                old(self).position()
            },
            0 <= old(self).position() <= final(self).position() <= final(self).text().len(),
    {
        let r = self.cur();
        self.advance();
        r
    }

    /// The characters of the text.
    fn chars(&self) -> (r: &Vec<char>)
        ensures
            r@ == self.text(),
    {
        &self.json
    }

    /// The position of the cursor.
    fn offset(&self) -> (r: usize)
        ensures
            r == self.position(),
            r <= self.text().len(),
    {
        proof {
            use_type_invariant(self);
        }
        self.cursor
    }
}

/// `result` and the position `end` reached are what the grammar gives:
/// a well-formed value that denotes what `expected` holds, with reading
/// ended where it says, or its error.
pub open spec fn produces(
    result: Result<Value, Errors>,
    end: int,
    expected: Result<(Json, int), Errors>,
) -> bool {
    match expected {
        Ok((json, after)) => match result {
            Ok(value) => value@ == json && end == after && value.well_formed(),
            Err(_) => false,
        },
        Err(e) => result == Err::<Value, Errors>(e),
    }
}

/// What the character after a backslash stands for.
fn decode_escape(c: char) -> (r: Option<char>)
    ensures
        r == unescape(c),
{
    if c == '"' {
        Some('"')
    } else if c == '\\' {
        Some('\\')
    } else if c == '/' {
        Some('/')
    } else if c == 'b' {
        Some('\u{8}')
    } else if c == 'f' {
        Some('\u{c}')
    } else if c == 'n' {
        Some('\n')
    } else if c == 'r' {
        Some('\r')
    } else if c == 't' {
        Some('\t')
    } else {
        None
    }
}

/// Whether `c` is the character that `iter` reads next.
fn next_is(iter: &Iter, c: char) -> (r: bool)
    ensures
        r == at(iter.text(), iter.position(), c),
{
    match iter.peek() {
        Some(x) => x == c,
        None => false,
    }
}

/// Passes the integer part of a number.
fn scan_integer(iter: &mut Iter) -> (r: Result<(), Errors>)
    ensures
        final(iter).text() == old(iter).text(),
        final(iter).origin() == old(iter).origin(),
        old(iter).position() <= final(iter).position() <= final(iter).text().len(),
        match integer_part(old(iter).text(), old(iter).position()) {
            Some(end) => r is Ok && final(iter).position() == end,
            None => r == Err::<(), Errors>(Errors::InvalidValue),
        },
{
    match iter.peek() {
        Some(c) => {
            if c == '0' {
                iter.next();
                Ok(())
            } else if c >= '1' && c <= '9' {
                proof {
                    lemma_skip_digits(iter.text(), iter.position() + 1);
                }
                iter.consume_digits(1)
            } else {
                Err(Errors::InvalidValue)
            }
        },
        None => Err(Errors::InvalidValue),
    }
}

/// Passes the fraction of a number, if one begins here, and says how many
/// characters had been passed where its digits begin.
fn scan_fraction(iter: &mut Iter) -> (r: Result<usize, Errors>)
    ensures
        final(iter).text() == old(iter).text(),
        final(iter).origin() == old(iter).origin(),
        old(iter).position() <= final(iter).position() <= final(iter).text().len(),
        match fraction_part(old(iter).text(), old(iter).position()) {
            Some((start, end)) => r == Ok::<usize, Errors>((start - old(iter).origin()) as usize)
                && final(iter).position() == end,
            None => r == Err::<usize, Errors>(Errors::InvalidValue),
        },
{
    if next_is(iter, '.') {
        iter.next();
        let start = iter.cursor();
        match iter.consume_digits(1) {
            Ok(()) => Ok(start),
            Err(e) => Err(e),
        }
    } else {
        Ok(iter.cursor())
    }
}

/// Passes the exponent of a number, if one begins here, and says whether
/// it is negative and how many characters had been passed where its digits
/// begin.
fn scan_exponent(iter: &mut Iter) -> (r: Result<(bool, usize), Errors>)
    ensures
        final(iter).text() == old(iter).text(),
        final(iter).origin() == old(iter).origin(),
        old(iter).position() <= final(iter).position() <= final(iter).text().len(),
        match exponent_part(old(iter).text(), old(iter).position()) {
            Some((negative, start, end)) => r == Ok::<(bool, usize), Errors>(
                (negative, (start - old(iter).origin()) as usize),
            ) && final(iter).position() == end,
            None => r == Err::<(bool, usize), Errors>(Errors::InvalidValue),
        },
{
    if next_is(iter, 'e') || next_is(iter, 'E') {
        iter.next();
        let negative = next_is(iter, '-');
        if negative || next_is(iter, '+') {
            iter.next();
        }
        let start = iter.cursor();
        match iter.consume_digits(1) {
            Ok(()) => Ok((negative, start)),
            Err(e) => Err(e),
        }
    } else {
        Ok((false, iter.cursor()))
    }
}

impl Parser {
    /// The text that the parser reads.
    pub closed spec fn text(&self) -> Seq<char> {
        self.context.text()
    }

    /// The position that the parser has reached.
    pub closed spec fn position(&self) -> int {
        self.context.position()
    }

    /// A parser at the start of `json`.
    pub fn new(json: &str) -> (r: Parser)
        ensures
            r.text() == json@,
            r.position() == 0,
    {
        Parser { context: Context::new(json) }
    }

    /// Passes any whitespace at the cursor.
    fn parse_whitespace(&mut self)
        ensures
            final(self).text() == old(self).text(),
            final(self).position() == skip_whitespace(old(self).text(), old(self).position()),
            old(self).position() <= final(self).position() <= final(self).text().len(),
    {
        loop
            invariant
                self.text() == old(self).text(),
                old(self).position() <= self.position(),
                skip_whitespace(self.text(), self.position()) == skip_whitespace(
                    old(self).text(),
                    old(self).position(),
                ),
            ensures
                self.text() == old(self).text(),
                self.position() == skip_whitespace(old(self).text(), old(self).position()),
                old(self).position() <= self.position() <= self.text().len(),
            decreases self.text().len() - self.position(),
        {
            match self.context.cur() {
                Some(c) => {
                    if c == ' ' || c == '\t' || c == '\n' || c == '\r' {
                        self.context.advance();
                    } else {
                        break ;
                    }
                },
                None => {
                    break ;
                },
            }
        }
    }

    /// Reads the literal `literal`, which stands for `value`.
    fn parse_literal(&mut self, literal: &str, value: Value) -> (r: Result<Value, Errors>)
        requires
            value.well_formed(),
        ensures
            final(self).text() == old(self).text(),
            produces(
                r,
                final(self).position(),
                literal_at(old(self).text(), old(self).position(), literal@, value@),
            ),
    {
        let n = literal.unicode_len();
        let seen = self.context.peek(n);
        if same_text(seen.as_str(), literal) {
            self.context.advance_n(n);
            Ok(value)
        } else {
            Err(Errors::InvalidValue)
        }
    }

    /// Reads a number: scans its token ahead of the cursor, rounds it to a
    /// double, and only then moves the cursor past it.
    fn parse_number(&mut self) -> (r: Result<Value, Errors>)
        ensures
            final(self).text() == old(self).text(),
            produces(r, final(self).position(), number_at(old(self).text(), old(self).position())),
    {
        let ghost s = self.text();
        let ghost p = self.position();
        let base = self.context.offset();
        proof {
            lemma_numeral(s, p);
        }
        let mut iter = self.context.iter();
        let negative = next_is(&iter, '-');
        if negative {
            iter.next();
        }
        let integer_start = iter.cursor();
        match scan_integer(&mut iter) {
            Ok(()) => {},
            Err(e) => {
                return Err(e);
            },
        }
        let integer_end = iter.cursor();
        let fraction_start = match scan_fraction(&mut iter) {
            Ok(start) => start,
            Err(e) => {
                return Err(e);
            },
        };
        let fraction_end = iter.cursor();
        let (exponent_negative, exponent_start) = match scan_exponent(&mut iter) {
            Ok(found) => found,
            Err(e) => {
                return Err(e);
            },
        };
        let steps = iter.cursor();
        let text = self.context.chars();
        assert(base + steps <= text.len());
        assert(integer_start <= integer_end <= fraction_start <= fraction_end <= exponent_start
            <= steps);
        let m = round_decimal(
            text,
            (base + integer_start, base + integer_end),
            (base + fraction_start, base + fraction_end),
            exponent_negative,
            (base + exponent_start, base + steps),
        );
        if m >= INFINITY_BITS {
            return Err(Errors::NumberTooBig);
        }
        self.context.advance_n(steps);
        let bits = if negative {
            m + SIGN_BIT
        } else {
            m
        };
        Ok(Value::Number(Number { bits }))
    }

    /// Reads a string, from its opening quotation mark to its closing one,
    /// and gives the text that it stands for.
    fn parse_raw_string(&mut self) -> (r: Result<String, Errors>)
        requires
            at(old(self).text(), old(self).position(), '"'),
        ensures
            final(self).text() == old(self).text(),
            match string_at(old(self).text(), old(self).position()) {
                Ok((text, end)) => match r {
                    Ok(found) => found@ == text && final(self).position() == end,
                    Err(_) => false,
                },
                Err(e) => r == Err::<String, Errors>(e),
            },
    {
        let ghost s = self.text();
        let ghost p = self.position();
        self.context.advance();
        let mut out = String::new();
        loop
            invariant
                s == old(self).text(),
                p == old(self).position(),
                self.text() == s,
                0 <= self.position() <= s.len(),
                string_at(s, p) == string_from(s, self.position(), out@),
            decreases s.len() - self.position(),
        {
            match self.context.next() {
                None => {
                    return Err(Errors::MissingQuotationMark);
                },
                Some(c) => {
                    if c == '"' {
                        return Ok(out);
                    } else if c == '\\' {
                        match self.context.next() {
                            None => {
                                return Err(Errors::MissingQuotationMark);
                            },
                            Some(escaped) => match decode_escape(escaped) {
                                Some(meant) => {
                                    out.push(meant);
                                },
                                None => {
                                    return Err(Errors::InvalidStringEscape);
                                },
                            },
                        }
                    } else if c <= '\u{1f}' {
                        return Err(Errors::InvalidStringChar);
                    } else {
                        out.push(c);
                    }
                },
            }
        }
    }

    /// Reads a string value.
    fn parse_string(&mut self) -> (r: Result<Value, Errors>)
        requires
            at(old(self).text(), old(self).position(), '"'),
        ensures
            final(self).text() == old(self).text(),
            produces(
                r,
                final(self).position(),
                match string_at(old(self).text(), old(self).position()) {
                    Ok((text, end)) => Ok((Json::String(text), end)),
                    Err(e) => Err(e),
                },
            ),
    {
        match self.parse_raw_string() {
            Ok(text) => Ok(Value::String(text)),
            Err(e) => Err(e),
        }
    }

    /// Reads an array, from its opening bracket to its closing one.
    fn parse_array(&mut self) -> (r: Result<Value, Errors>)
        requires
            at(old(self).text(), old(self).position(), '['),
        ensures
            final(self).text() == old(self).text(),
            produces(
                r,
                final(self).position(),
                items_from(old(self).text(), old(self).position() + 1, Seq::empty()),
            ),
        decreases old(self).text().len() - old(self).position(), 0nat,
    {
        let ghost s = self.text();
        let ghost p = self.position();
        self.context.advance();
        let mut array: Vec<Value> = Vec::new();
        assert(items_view(array@) =~= Seq::<Json>::empty());
        loop
            invariant
                s == old(self).text(),
                p == old(self).position(),
                self.text() == s,
                p < self.position() <= s.len(),
                Value::Array(array).well_formed(),
                items_from(s, p + 1, Seq::empty()) == items_from(
                    s,
                    self.position(),
                    items_view(array@),
                ),
            decreases s.len() - self.position(),
        {
            self.parse_whitespace();
            match self.context.cur() {
                None => {
                    return Err(Errors::MissingCommaOrClosingBracket);
                },
                Some(c) => {
                    if c == ',' {
                        self.context.advance();
                    } else if c == ']' {
                        self.context.advance();
                        return Ok(Value::Array(array));
                    } else {
                        proof {
                            lemma_value_advances(s, self.position());
                        }
                        match self.parse_value() {
                            Ok(item) => {
                                proof {
                                    lemma_items_view_push(array@, item);
                                }
                                array.push(item);
                            },
                            Err(e) => {
                                return Err(e);
                            },
                        }
                    }
                },
            }
        }
    }

    /// Reads a member of an object: its key, a colon and its value.
    fn parse_pair(&mut self) -> (r: Result<(String, Value), Errors>)
        requires
            at(old(self).text(), old(self).position(), '"'),
        ensures
            final(self).text() == old(self).text(),
            match pair_at(old(self).text(), old(self).position()) {
                Ok((name, json, end)) => match r {
                    Ok(pair) => {
                        &&& pair.0@ == name
                        &&& pair.1@ == json
                        &&& pair.1.well_formed()
                        &&& final(self).position() == end
                    },
                    Err(_) => false,
                },
                Err(e) => r == Err::<(String, Value), Errors>(e),
            },
        decreases old(self).text().len() - old(self).position(), 0nat,
    {
        let ghost s = self.text();
        let ghost p = self.position();
        proof {
            lemma_string_advances(s, p + 1, Seq::empty());
        }
        let key = match self.parse_raw_string() {
            Ok(key) => key,
            Err(e) => {
                return Err(e);
            },
        };
        self.parse_whitespace();
        match self.context.cur() {
            Some(c) => {
                if c == ':' {
                    self.context.advance();
                    self.parse_whitespace();
                } else {
                    return Err(Errors::MissingSemicolon);
                }
            },
            None => {
                return Err(Errors::MissingSemicolon);
            },
        }
        match self.parse_value() {
            Ok(value) => Ok((key, value)),
            Err(e) => Err(e),
        }
    }

    /// Reads an object, from its opening brace to its closing one.
    fn parse_object(&mut self) -> (r: Result<Value, Errors>)
        requires
            at(old(self).text(), old(self).position(), '{'),
        ensures
            final(self).text() == old(self).text(),
            produces(
                r,
                final(self).position(),
                members_from(old(self).text(), old(self).position() + 1, Map::empty()),
            ),
        decreases old(self).text().len() - old(self).position(), 0nat,
    {
        let ghost s = self.text();
        let ghost p = self.position();
        self.context.advance();
        let mut object: Vec<(String, Value)> = Vec::new();
        loop
            invariant
                s == old(self).text(),
                p == old(self).position(),
                self.text() == s,
                p < self.position() <= s.len(),
                Value::Object(object).well_formed(),
                members_from(s, p + 1, Map::empty()) == members_from(
                    s,
                    self.position(),
                    members_view(object@),
                ),
            decreases s.len() - self.position(),
        {
            self.parse_whitespace();
            let ghost j = self.position();
            match self.context.cur() {
                Some(c) => {
                    if c == '"' {
                        proof {
                            lemma_pair_advances(s, j);
                        }
                        match self.parse_pair() {
                            Ok(pair) => {
                                insert_member(&mut object, pair.0, pair.1);
                            },
                            Err(e) => {
                                return Err(e);
                            },
                        }
                    } else if c == '}' {
                        self.context.advance();
                        return Ok(Value::Object(object));
                    } else {
                        return Err(Errors::MissingKey);
                    }
                },
                None => {
                    return Err(Errors::MissingKey);
                },
            }
            self.parse_whitespace();
            match self.context.cur() {
                Some(c) => {
                    if c == ',' {
                        self.context.advance();
                    } else if c == '}' {
                        self.context.advance();
                        return Ok(Value::Object(object));
                    } else {
                        return Err(Errors::MissingCommaOrClosingCurlyBracket);
                    }
                },
                None => {
                    return Err(Errors::MissingCommaOrClosingCurlyBracket);
                },
            }
        }
    }

    /// Reads the value at the cursor, chosen by the character there.
    fn parse_value(&mut self) -> (r: Result<Value, Errors>)
        ensures
            final(self).text() == old(self).text(),
            produces(r, final(self).position(), value_at(old(self).text(), old(self).position())),
        decreases old(self).text().len() - old(self).position(), 1nat,
    {
        match self.context.cur() {
            None => Err(Errors::ReachEOF),
            Some(c) => {
                if c == 't' {
                    proof {
                        reveal_strlit("true");
                        assert("true"@ == text_true());
                    }
                    self.parse_literal("true", Value::Bool(true))
                } else if c == 'f' {
                    proof {
                        reveal_strlit("false");
                        assert("false"@ == text_false());
                    }
                    self.parse_literal("false", Value::Bool(false))
                } else if c == 'n' {
                    proof {
                        reveal_strlit("null");
                        assert("null"@ == text_null());
                    }
                    self.parse_literal("null", Value::Null)
                } else if c == '[' {
                    self.parse_array()
                } else if c == '{' {
                    self.parse_object()
                } else if c == '"' {
                    self.parse_string()
                } else {
                    self.parse_number()
                }
            },
        }
    }

    /// Parses a whole text: one value, with any whitespace before and
    /// after it, and nothing else.
    pub fn parse(json: &str) -> (r: Result<Value, Errors>)
        ensures
            match document(json@) {
                Ok(expected) => match r {
                    Ok(value) => value@ == expected && value.well_formed(),
                    Err(_) => false,
                },
                Err(e) => r == Err::<Value, Errors>(e),
            },
    {
        let mut parser = Parser::new(json);
        parser.parse_whitespace();
        let value = match parser.parse_value() {
            Ok(value) => value,
            Err(e) => {
                return Err(e);
            },
        };
        parser.parse_whitespace();
        match parser.context.next() {
            None => Ok(value),
            Some(_) => Err(Errors::RootNotSingular),
        }
    }
}

} // verus!
