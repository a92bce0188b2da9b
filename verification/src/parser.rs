//! The SQL front end: a recursive-descent parser for one command.
//!
//! ```text
//! command    := "." ("exit" | "print") | statement ";"
//! statement  := "select" columns "from" identifier
//!             | "create" "table" identifier pairs
//!             | "insert" "into" identifier "values" values
//! columns    := "(" identifier { "," identifier } ")"
//! pairs      := "(" identifier type { "," identifier type } ")"
//! values     := "(" value { "," value } ")"
//! type       := "integer" | "text"
//! value      := digits | "-" digits | "'" characters "'"
//! identifier := letter { letter | digit | "_" }
//! ```
//!
//! White space may stand before every word and sign. A parser takes what
//! it recognises off the front of the input and leaves the rest.

use vstd::prelude::*;
use vstd::string::*;
use crate::db::DBType;
use crate::db::DBValue;
use crate::db::ValueView;

verus! {

/// Why a command could not be parsed.
#[derive(Clone, Copy, Debug, PartialEq, Eq, Structural)]
pub enum ParseError {
    FailedToLex,
    InvalidIdentifier,
    InvalidValue,
    EndOfInput,
    MissingSemicolon,
    MissingLParen,
    MissingRParen,
    MissingComma,
    UnrecognizedMetaCommand,
    UnrecognizedStatement,
    UnrecognizedType,
    RunawayText,
    MissingFrom,
    MissingType,
}

/// The sets of characters that the grammar speaks of.
#[derive(Clone, Copy, Debug, PartialEq, Eq, Structural)]
pub enum CharClass {
    /// White space.
    Space,
    /// The digits `0` to `9`.
    Digit,
    /// The letters `a` to `z` and `A` to `Z`.
    Letter,
    /// Letters, digits and the underscore.
    Word,
    /// Every character but the single quote.
    Quoted,
}

/// Whether `c` is white space: a character with the Unicode property
/// `White_Space`.
pub open spec fn is_space(c: char) -> bool {
    ||| c == ' '
    ||| '\u{9}' <= c <= '\u{d}'
    ||| c == '\u{85}'
    ||| c == '\u{a0}'
    ||| c == '\u{1680}'
    ||| '\u{2000}' <= c <= '\u{200a}'
    ||| c == '\u{2028}'
    ||| c == '\u{2029}'
    ||| c == '\u{202f}'
    ||| c == '\u{205f}'
    ||| c == '\u{3000}'
}

/// Whether `c` is one of the digits `0` to `9`.
pub open spec fn is_digit(c: char) -> bool {
    '0' <= c <= '9'
}

/// Whether `c` is one of the letters `a` to `z` and `A` to `Z`.
pub open spec fn is_letter(c: char) -> bool {
    'a' <= c <= 'z' || 'A' <= c <= 'Z'
}

/// Whether `c` belongs to `class`.
pub open spec fn in_class(class: CharClass, c: char) -> bool {
    match class {
        CharClass::Space => is_space(c),
        CharClass::Digit => is_digit(c),
        CharClass::Letter => is_letter(c),
        CharClass::Word => is_letter(c) || is_digit(c) || c == '_',
        CharClass::Quoted => c != '\'',
    }
}

/// The index of the first character at or behind `from` that is not in
/// `class`, or the length of `s` where there is none.
pub open spec fn run_end(s: Seq<char>, class: CharClass, from: int) -> int
    decreases s.len() - from,
{
    if 0 <= from < s.len() && in_class(class, s[from]) {
        run_end(s, class, from + 1)
    } else {
        from
    }
}

/// A run that starts inside the input ends inside the input, at a
/// character that is not in the class.
pub proof fn lemma_run_end(s: Seq<char>, class: CharClass, from: int)
    requires
        0 <= from <= s.len(),
    ensures
        from <= run_end(s, class, from) <= s.len(),
        forall|i: int| from <= i < run_end(s, class, from) ==> in_class(class, s[i]),
        run_end(s, class, from) < s.len() ==> !in_class(class, s[run_end(s, class, from)]),
    decreases s.len() - from,
{
    if from < s.len() && in_class(class, s[from]) {
        lemma_run_end(s, class, from + 1);
    }
}

/// Whether `c` belongs to `class`.
pub(crate) fn char_in(class: CharClass, c: char) -> (r: bool)
    ensures
        r == in_class(class, c),
{
    let letter = ('a' <= c && c <= 'z') || ('A' <= c && c <= 'Z');
    let digit = '0' <= c && c <= '9';
    match class {
        CharClass::Space => c == ' ' || ('\u{9}' <= c && c <= '\u{d}') || c == '\u{85}' || c
            == '\u{a0}' || c == '\u{1680}' || ('\u{2000}' <= c && c <= '\u{200a}') || c
            == '\u{2028}' || c == '\u{2029}' || c == '\u{202f}' || c == '\u{205f}' || c
            == '\u{3000}',
        CharClass::Digit => digit,
        CharClass::Letter => letter,
        CharClass::Word => letter || digit || c == '_',
        CharClass::Quoted => c != '\'',
    }
}

/// The end of the run of characters of `class` that starts at `from`.
pub(crate) fn scan(input: &str, class: CharClass, from: usize) -> (end: usize)
    requires
        from <= input@.len(),
    ensures
        end == run_end(input@, class, from as int),
        from <= end <= input@.len(),
{
    let n: usize = input.unicode_len();
    let mut i: usize = from;
    proof {
        lemma_run_end(input@, class, from as int);
    }
    while i < n && char_in(class, input.get_char(i))
        invariant
            from <= i <= n,
            n == input@.len(),
            run_end(input@, class, from as int) == run_end(input@, class, i as int),
        decreases n - i,
    {
        i += 1;
    }
    i
}

/// What a parser gives for an input: its result, and the input that is left.
pub type Lexed<T> = (Result<T, ParseError>, Seq<char>);

/// The input without the white space at its front.
pub open spec fn skip_space(s: Seq<char>) -> Seq<char> {
    s.skip(run_end(s, CharClass::Space, 0))
}

/// Takes white space and then the characters `lit` off the input. Where
/// the input goes on otherwise, only the white space is taken.
pub open spec fn lex_literal(s: Seq<char>, lit: Seq<char>) -> Lexed<()> {
    let t = skip_space(s);
    if lit.len() <= t.len() && t.take(lit.len() as int) == lit {
        (Ok(()), t.skip(lit.len() as int))
    } else if t.len() == 0 {
        (Err(ParseError::EndOfInput), t)
    } else {
        (Err(ParseError::FailedToLex), t)
    }
}

/// Takes white space and then an identifier off the input: a letter and
/// the letters, digits and underscores that follow it.
pub open spec fn lex_ident(s: Seq<char>) -> Lexed<Seq<char>> {
    let t = skip_space(s);
    if t.len() == 0 {
        (Err(ParseError::EndOfInput), t)
    } else if is_letter(t[0]) {
        let end = run_end(t, CharClass::Word, 1);
        (Ok(t.take(end)), t.skip(end))
    } else {
        (Err(ParseError::InvalidIdentifier), t)
    }
}

/// Takes a text between single quotes off the input.
pub open spec fn lex_text(s: Seq<char>) -> Lexed<Seq<char>> {
    if s.len() == 0 {
        (Err(ParseError::EndOfInput), s)
    } else if s[0] == '\'' {
        let end = run_end(s, CharClass::Quoted, 1);
        if end < s.len() {
            (Ok(s.subrange(1, end)), s.skip(end + 1))
        } else {
            (Err(ParseError::RunawayText), s)
        }
    } else {
        (Err(ParseError::FailedToLex), s)
    }
}

/// The number that a digit stands for.
pub open spec fn digit_value(c: char) -> int {
    c as u32 as int - '0' as u32 as int
}

/// The number that digits stand for in base ten.
pub open spec fn digits_value(s: Seq<char>) -> int
    decreases s.len(),
{
    if s.len() == 0 {
        0
    } else {
        digits_value(s.drop_last()) * 10 + digit_value(s.last())
    }
}

/// Whether `s` is one or more digits, with or without a minus sign in front.
pub open spec fn integer_text(s: Seq<char>) -> bool {
    if s.len() > 0 && s[0] == '-' {
        s.len() > 1 && forall|i: int| 1 <= i < s.len() ==> is_digit(#[trigger] s[i])
    } else {
        s.len() > 0 && forall|i: int| 0 <= i < s.len() ==> is_digit(#[trigger] s[i])
    }
}

/// The number that an integer text stands for.
pub open spec fn text_value(s: Seq<char>) -> int {
    if s.len() > 0 && s[0] == '-' {
        -digits_value(s.skip(1))
    } else {
        digits_value(s)
    }
}

/// The 64-bit number that an integer text stands for, or an error
/// where it stands for none.
pub open spec fn integer_of(s: Seq<char>) -> Result<i64, ParseError> {
    if i64::MIN <= text_value(s) <= i64::MAX {
        Ok(text_value(s) as i64)
    } else {
        Err(ParseError::InvalidValue)
    }
}

/// Takes an integer without sign off the input: the digits at its front.
pub open spec fn lex_positive(s: Seq<char>) -> Lexed<i64> {
    let end = run_end(s, CharClass::Digit, 0);
    if end > 0 {
        match integer_of(s.take(end)) {
            Ok(v) => (Ok(v), s.skip(end)),
            Err(e) => (Err(e), s),
        }
    } else {
        (Err(ParseError::FailedToLex), s)
    }
}

/// Takes a negative integer off the input: a minus sign and the digits
/// that follow it.
pub open spec fn lex_negative(s: Seq<char>) -> Lexed<i64> {
    if s.len() == 0 {
        (Err(ParseError::EndOfInput), s)
    } else if s[0] == '-' {
        let end = run_end(s, CharClass::Digit, 1);
        if end > 1 {
            match integer_of(s.take(end)) {
                Ok(v) => (Ok(v), s.skip(end)),
                Err(e) => (Err(e), s),
            }
        } else {
            (Err(ParseError::FailedToLex), s)
        }
    } else {
        (Err(ParseError::FailedToLex), s)
    }
}

/// Takes an integer off the input, with or without a minus sign.
pub open spec fn lex_integer(s: Seq<char>) -> Lexed<i64> {
    let p = lex_positive(s);
    if p.0 is Ok {
        p
    } else {
        lex_negative(p.1)
    }
}

/// Takes white space and then a value off the input: an integer or a text.
pub open spec fn lex_value_spec(s: Seq<char>) -> Lexed<ValueView> {
    let t = skip_space(s);
    let i = lex_integer(t);
    match i.0 {
        Ok(v) => (Ok(ValueView::Integer(v)), i.1),
        Err(ParseError::FailedToLex) => {
            let x = lex_text(i.1);
            match x.0 {
                Ok(text) => (Ok(ValueView::Text(text)), x.1),
                Err(e) => (Err(e), x.1),
            }
        },
        Err(e) => (Err(e), i.1),
    }
}

/// The digits of a longer number stand for at least as much as those of
/// its front.
pub proof fn lemma_digits_grow(s: Seq<char>, k: int)
    requires
        0 <= k <= s.len(),
        forall|i: int| 0 <= i < s.len() ==> is_digit(#[trigger] s[i]),
    ensures
        0 <= digits_value(s.take(k)) <= digits_value(s),
    decreases s.len() - k,
{
    lemma_digits_nonnegative(s.take(k));
    if k < s.len() {
        lemma_digits_grow(s, k + 1);
        assert(s.take(k + 1).drop_last() =~= s.take(k));
        assert(s.take(k + 1).last() == s[k]);
        assert(is_digit(s[k]));
    } else {
        assert(s.take(k) =~= s);
    }
}

/// Digits stand for a number that is not negative.
pub proof fn lemma_digits_nonnegative(s: Seq<char>)
    requires
        forall|i: int| 0 <= i < s.len() ==> is_digit(#[trigger] s[i]),
    ensures
        0 <= digits_value(s),
    decreases s.len(),
{
    if s.len() > 0 {
        lemma_digits_nonnegative(s.drop_last());
        assert(is_digit(s[s.len() - 1]));
    }
}

/// The number that the digit `input` stands for.
fn char_to_i64(input: char) -> (r: i64)
    requires
        is_digit(input),
    ensures
        r == digit_value(input),
{
    (input as u32 - '0' as u32) as i64
}

/// The number that an integer text stands for, where it is a 64-bit number.
fn str_to_i64(input: &str) -> (r: Option<i64>)
    requires
        integer_text(input@),
    ensures
        match r {
            Some(v) => integer_of(input@) == Ok::<i64, ParseError>(v),
            None => integer_of(input@) is Err,
        },
{
    let n: usize = input.unicode_len();
    let negative = input.get_char(0) == '-';
    let start: usize = if negative {
        1
    } else {
        0
    };
    let limit: u64 = if negative {
        0x8000_0000_0000_0000
    } else {
        0x7fff_ffff_ffff_ffff
    };
    let ghost digits = input@.skip(start as int);
    let mut acc: u64 = 0;
    let mut i: usize = start;
    proof {
        assert(digits.take(0) =~= Seq::empty());
    }
    while i < n
        invariant
            start <= i <= n,
            n == input@.len(),
            digits == input@.skip(start as int),
            forall|j: int| 0 <= j < digits.len() ==> is_digit(#[trigger] digits[j]),
            acc == digits_value(digits.take(i - start)),
            acc <= limit,
            n > 0,
            negative == (input@[0] == '-'),
            start == if negative { 1int } else { 0int },
            limit == if negative { 0x8000_0000_0000_0000u64 } else { 0x7fff_ffff_ffff_ffffu64 },
        decreases n - i,
    {
        let c = input.get_char(i);
        proof {
            assert(digits[i - start] == c);
            assert(digits.take(i - start + 1).drop_last() =~= digits.take(i - start));
            assert(digits.take(i - start + 1).last() == c);
            lemma_digits_grow(digits, i - start + 1);
        }
        let d: u64 = char_to_i64(c) as u64;
        if acc > (limit - d) / 10 {
            proof {
                assert(digits_value(digits) > limit);
                if !negative {
                    assert(digits =~= input@);
                }
            }
            return None;
        }
        acc = acc * 10 + d;
        i += 1;
    }
    proof {
        assert(digits.take(n - start) =~= digits);
        if !negative {
            assert(digits =~= input@);
        }
    }
    if negative {
        if acc == 0x8000_0000_0000_0000 {
            Some(i64::MIN)
        } else {
            Some(-(acc as i64))
        }
    } else {
        Some(acc as i64)
    }
}

/// A parser over the characters of one command.
pub struct Parser<'a> {
    input: &'a str,
}

impl<'a> View for Parser<'a> {
    type V = Seq<char>;

    /// The input that is left.
    closed spec fn view(&self) -> Seq<char> {
        self.input@
    }
}

/// Whether `input` begins with `lit`.
fn begins_with(input: &str, lit: &str) -> (r: bool)
    ensures
        r == (lit@.len() <= input@.len() && input@.take(lit@.len() as int) == lit@),
{
    let n: usize = input.unicode_len();
    let m: usize = lit.unicode_len();
    if m > n {
        return false;
    }
    let mut i: usize = 0;
    while i < m
        invariant
            i <= m <= n,
            n == input@.len(),
            m == lit@.len(),
            forall|j: int| 0 <= j < i ==> input@[j] == lit@[j],
        decreases m - i,
    {
        if input.get_char(i) != lit.get_char(i) {
            assert(input@.take(m as int)[i as int] != lit@[i as int]);
            return false;
        }
        i += 1;
    }
    assert(input@.take(m as int) =~= lit@);
    true
}

impl<'a> Parser<'a> {
    /// A parser over `input`.
    pub fn new(input: &'a str) -> (r: Self)
        ensures
            r@ == input@,
    {
        Self { input }
    }

    /// Takes the first `count` characters off the input.
    fn advance(&mut self, count: usize)
        requires
            count <= old(self)@.len(),
        ensures
            final(self)@ == old(self)@.skip(count as int),
    {
        let n: usize = self.input.unicode_len();
        self.input = self.input.substring_char(count, n);
        assert(self@ =~= old(self)@.skip(count as int));
    }

    /// The characters `from..to` of the input.
    fn piece(&self, from: usize, to: usize) -> (r: String)
        requires
            from <= to <= self@.len(),
        ensures
            r@ == self@.subrange(from as int, to as int),
    {
        self.input.substring_char(from, to).to_owned()
    }

    /// Takes the white space off the front of the input.
    fn skip_whitespace(&mut self)
        ensures
            final(self)@ == skip_space(old(self)@),
    {
        let count = scan(self.input, CharClass::Space, 0);
        self.advance(count);
    }

    /// Takes white space and then `string` off the input.
    fn lex_string(&mut self, string: &str) -> (r: Result<(), ParseError>)
        ensures
            (r, final(self)@) == lex_literal(old(self)@, string@),
    {
        self.skip_whitespace();
        if begins_with(self.input, string) {
            let count = string.unicode_len();
            self.advance(count);
            Ok(())
        } else {
            if self.input.unicode_len() == 0 {
                Err(ParseError::EndOfInput)
            } else {
                Err(ParseError::FailedToLex)
            }
        }
    }

    /// Takes white space and then an identifier off the input.
    fn lex_identifier(&mut self) -> (r: Result<String, ParseError>)
        ensures
            final(self)@ == lex_ident(old(self)@).1,
            match r {
                Ok(name) => lex_ident(old(self)@).0 == Ok::<Seq<char>, ParseError>(name@),
                Err(e) => lex_ident(old(self)@).0 == Err::<Seq<char>, ParseError>(e),
            },
    {
        self.skip_whitespace();
        if self.input.unicode_len() == 0 {
            return Err(ParseError::EndOfInput);
        }
        if char_in(CharClass::Letter, self.input.get_char(0)) {
            let count = scan(self.input, CharClass::Word, 1);
            let parsed = self.piece(0, count);
            self.advance(count);
            assert(parsed@ =~= skip_space(old(self)@).take(count as int));
            Ok(parsed)
        } else {
            Err(ParseError::InvalidIdentifier)
        }
    }

    /// Takes a text between single quotes off the input.
    fn parse_text(&mut self) -> (r: Result<String, ParseError>)
        ensures
            final(self)@ == lex_text(old(self)@).1,
            match r {
                Ok(text) => lex_text(old(self)@).0 == Ok::<Seq<char>, ParseError>(text@),
                Err(e) => lex_text(old(self)@).0 == Err::<Seq<char>, ParseError>(e),
            },
    {
        let n: usize = self.input.unicode_len();
        if n == 0 {
            return Err(ParseError::EndOfInput);
        }
        if self.input.get_char(0) == '\'' {
            let count = scan(self.input, CharClass::Quoted, 1);
            if count < n {
                let parsed = self.piece(1, count);
                self.advance(count + 1);
                Ok(parsed)
            } else {
                Err(ParseError::RunawayText)
            }
        } else {
            Err(ParseError::FailedToLex)
        }
    }

    /// Takes an integer without sign off the input.
    fn parse_positive_integer(&mut self) -> (r: Result<i64, ParseError>)
        ensures
            (r, final(self)@) == lex_positive(old(self)@),
    {
        let count = scan(self.input, CharClass::Digit, 0);
        if count > 0 {
            let parsed = self.piece(0, count);
            proof {
                lemma_run_end(self@, CharClass::Digit, 0);
                assert(parsed@ =~= self@.take(count as int));
                assert forall|i: int| 0 <= i < parsed@.len() implies is_digit(
                    #[trigger] parsed@[i],
                ) by {
                    assert(in_class(CharClass::Digit, self@[i]));
                }
            }
            match str_to_i64(parsed.as_str()) {
                Some(v) => {
                    self.advance(count);
                    Ok(v)
                },
                None => Err(ParseError::InvalidValue),
            }
        } else {
            Err(ParseError::FailedToLex)
        }
    }

    /// Takes an integer with a minus sign off the input.
    fn parse_negative_integer(&mut self) -> (r: Result<i64, ParseError>)
        ensures
            (r, final(self)@) == lex_negative(old(self)@),
    {
        if self.input.unicode_len() == 0 {
            return Err(ParseError::EndOfInput);
        }
        if self.input.get_char(0) == '-' {
            let count = scan(self.input, CharClass::Digit, 1);
            if count > 1 {
                let parsed = self.piece(0, count);
                proof {
                    lemma_run_end(self@, CharClass::Digit, 1);
                    assert(parsed@ =~= self@.take(count as int));
                    assert forall|i: int| 1 <= i < parsed@.len() implies is_digit(
                        #[trigger] parsed@[i],
                    ) by {
                        assert(in_class(CharClass::Digit, self@[i]));
                    }
                }
                match str_to_i64(parsed.as_str()) {
                    Some(v) => {
                        self.advance(count);
                        Ok(v)
                    },
                    None => Err(ParseError::InvalidValue),
                }
            } else {
                Err(ParseError::FailedToLex)
            }
        } else {
            Err(ParseError::FailedToLex)
        }
    }

    /// Takes an integer off the input.
    fn parse_integer(&mut self) -> (r: Result<i64, ParseError>)
        ensures
            (r, final(self)@) == lex_integer(old(self)@),
    {
        match self.parse_positive_integer() {
            Ok(v) => Ok(v),
            Err(_) => self.parse_negative_integer(),
        }
    }

    /// Takes white space and then a value off the input.
    fn lex_value(&mut self) -> (r: Result<DBValue, ParseError>)
        ensures
            final(self)@ == lex_value_spec(old(self)@).1,
            match r {
                Ok(v) => lex_value_spec(old(self)@).0 == Ok::<ValueView, ParseError>(v@),
                Err(e) => lex_value_spec(old(self)@).0 == Err::<ValueView, ParseError>(e),
            },
    {
        self.skip_whitespace();
        match self.parse_integer() {
            Ok(number) => Ok(DBValue::Integer(number)),
            Err(ParseError::FailedToLex) => match self.parse_text() {
                Ok(text) => Ok(DBValue::Text(text)),
                Err(e) => Err(e),
            },
            Err(e) => Err(e),
        }
    }
}

/// A name of a table or of a column.
pub type Identifier = String;

/// A table and a column of it.
#[derive(Debug, PartialEq)]
pub struct Selector {
    table: Identifier,
    field: Identifier,
}

/// A comparison of two columns.
#[derive(Debug, PartialEq)]
pub enum ConditionLiteral {
    Eq(Selector, Selector),
    Neq(Selector, Selector),
    Lt(Selector, Selector),
    Lte(Selector, Selector),
    Gt(Selector, Selector),
    Gte(Selector, Selector),
}

/// The condition of a `where` clause: comparisons, joined by `not`,
/// `and` and `or`.
#[derive(Debug, PartialEq)]
pub enum Condition {
    Literal(ConditionLiteral),
    Not(Box<Condition>),
    And(Box<Condition>, Box<Condition>),
    Or(Box<Condition>, Box<Condition>),
}

/// A statement of the query language.
#[derive(Debug, PartialEq)]
#[allow(inconsistent_fields)]
pub enum Statement {
    Select { columns: Vec<Identifier>, table: Identifier, condition: Option<Condition> },
    CreateTable { table: Identifier, columns: Vec<(Identifier, DBType)> },
    InsertInto { table: Identifier, values: Vec<DBValue> },
}

/// A command to the program itself.
#[derive(Clone, Copy, Debug, PartialEq, Eq, Structural)]
pub enum MetaCommand {
    Exit,
    Print,
}

/// What a user can enter: a command to the program or a statement.
#[derive(Debug, PartialEq)]
pub enum Command {
    MetaCommand(MetaCommand),
    Statement(Statement),
}

/// The mathematical content of a [`Statement`].
#[allow(inconsistent_fields)]
pub enum StatementView {
    Select { columns: Seq<Seq<char>>, table: Seq<char>, condition: Option<Condition> },
    CreateTable { table: Seq<char>, columns: Seq<(Seq<char>, DBType)> },
    InsertInto { table: Seq<char>, values: Seq<ValueView> },
}

/// The mathematical content of a [`Command`].
pub enum CommandView {
    MetaCommand(MetaCommand),
    Statement(StatementView),
}

impl View for Statement {
    type V = StatementView;

    open spec fn view(&self) -> StatementView {
        match *self {
            Statement::Select { columns, table, condition } => StatementView::Select {
                columns: columns.deep_view(),
                table: table@,
                condition,
            },
            Statement::CreateTable { table, columns } => StatementView::CreateTable {
                table: table@,
                columns: columns.deep_view(),
            },
            Statement::InsertInto { table, values } => StatementView::InsertInto {
                table: table@,
                values: values.deep_view(),
            },
        }
    }
}

impl View for Command {
    type V = CommandView;

    open spec fn view(&self) -> CommandView {
        match *self {
            Command::MetaCommand(c) => CommandView::MetaCommand(c),
            Command::Statement(s) => CommandView::Statement(s@),
        }
    }
}

/// An opening parenthesis.
pub open spec fn left_paren(s: Seq<char>) -> Lexed<()> {
    let r = lex_literal(s, "("@);
    match r.0 {
        Ok(_) => r,
        Err(_) => (Err(ParseError::MissingLParen), r.1),
    }
}

/// A closing parenthesis. Where an identifier stands in its place, the
/// identifier is taken and a comma is reported missing.
pub open spec fn right_paren(s: Seq<char>) -> Lexed<()> {
    let r = lex_literal(s, ")"@);
    match r.0 {
        Ok(_) => r,
        Err(_) => {
            let id = lex_ident(r.1);
            if id.0 is Ok {
                (Err(ParseError::MissingComma), id.1)
            } else {
                (Err(ParseError::MissingRParen), id.1)
            }
        },
    }
}

/// A semicolon.
pub open spec fn semicolon(s: Seq<char>) -> Lexed<()> {
    let r = lex_literal(s, ";"@);
    match r.0 {
        Ok(_) => r,
        Err(_) => (Err(ParseError::MissingSemicolon), r.1),
    }
}

/// A column type.
pub open spec fn db_type(s: Seq<char>) -> Lexed<DBType> {
    let a = lex_literal(s, "integer"@);
    if a.0 is Ok {
        (Ok(DBType::Integer), a.1)
    } else {
        let b = lex_literal(a.1, "text"@);
        match b.0 {
            Ok(_) => (Ok(DBType::Text), b.1),
            Err(ParseError::EndOfInput) => (Err(ParseError::MissingType), b.1),
            Err(_) => (Err(ParseError::UnrecognizedType), b.1),
        }
    }
}

/// The identifiers that follow `acc`, each behind a comma.
pub open spec fn more_identifiers(s: Seq<char>, acc: Seq<Seq<char>>) -> Lexed<Seq<Seq<char>>>
    decreases s.len(),
{
    let comma = lex_literal(s, ","@);
    if comma.0 is Ok {
        let id = lex_ident(comma.1);
        match id.0 {
            Ok(name) => if id.1.len() < s.len() {
                more_identifiers(id.1, acc.push(name))
            } else {
                (Ok(acc), id.1)
            },
            Err(e) => (Err(e), id.1),
        }
    } else {
        (Ok(acc), comma.1)
    }
}

/// The columns with their types that follow `acc`, each behind a comma.
pub open spec fn more_pairs(s: Seq<char>, acc: Seq<(Seq<char>, DBType)>) -> Lexed<
    Seq<(Seq<char>, DBType)>,
>
    decreases s.len(),
{
    let comma = lex_literal(s, ","@);
    if comma.0 is Ok {
        let id = lex_ident(comma.1);
        match id.0 {
            Ok(name) => {
                let t = db_type(id.1);
                match t.0 {
                    Ok(ty) => if t.1.len() < s.len() {
                        more_pairs(t.1, acc.push((name, ty)))
                    } else {
                        (Ok(acc), t.1)
                    },
                    Err(e) => (Err(e), t.1),
                }
            },
            Err(e) => (Err(e), id.1),
        }
    } else {
        (Ok(acc), comma.1)
    }
}

/// The values that follow `acc`, each behind a comma.
pub open spec fn more_values(s: Seq<char>, acc: Seq<ValueView>) -> Lexed<Seq<ValueView>>
    decreases s.len(),
{
    let comma = lex_literal(s, ","@);
    if comma.0 is Ok {
        let v = lex_value_spec(comma.1);
        match v.0 {
            Ok(value) => if v.1.len() < s.len() {
                more_values(v.1, acc.push(value))
            } else {
                (Ok(acc), v.1)
            },
            Err(e) => (Err(e), v.1),
        }
    } else {
        (Ok(acc), comma.1)
    }
}

/// A list of identifiers in parentheses.
pub open spec fn columns(s: Seq<char>) -> Lexed<Seq<Seq<char>>> {
    let lp = left_paren(s);
    match lp.0 {
        Err(e) => (Err(e), lp.1),
        Ok(_) => {
            let first = lex_ident(lp.1);
            match first.0 {
                Err(e) => (Err(e), first.1),
                Ok(name) => {
                    let more = more_identifiers(first.1, seq![name]);
                    match more.0 {
                        Err(e) => (Err(e), more.1),
                        Ok(names) => {
                            let rp = right_paren(more.1);
                            match rp.0 {
                                Err(e) => (Err(e), rp.1),
                                Ok(_) => (Ok(names), rp.1),
                            }
                        },
                    }
                },
            }
        },
    }
}

/// A list of columns with their types in parentheses.
pub open spec fn column_pairs(s: Seq<char>) -> Lexed<Seq<(Seq<char>, DBType)>> {
    let lp = left_paren(s);
    match lp.0 {
        Err(e) => (Err(e), lp.1),
        Ok(_) => {
            let first = lex_ident(lp.1);
            match first.0 {
                Err(e) => (Err(e), first.1),
                Ok(name) => {
                    let t = db_type(first.1);
                    match t.0 {
                        Err(e) => (Err(e), t.1),
                        Ok(ty) => {
                            let more = more_pairs(t.1, seq![(name, ty)]);
                            match more.0 {
                                Err(e) => (Err(e), more.1),
                                Ok(pairs) => {
                                    let rp = right_paren(more.1);
                                    match rp.0 {
                                        Err(e) => (Err(e), rp.1),
                                        Ok(_) => (Ok(pairs), rp.1),
                                    }
                                },
                            }
                        },
                    }
                },
            }
        },
    }
}

/// A list of values in parentheses.
pub open spec fn values(s: Seq<char>) -> Lexed<Seq<ValueView>> {
    let lp = left_paren(s);
    match lp.0 {
        Err(e) => (Err(e), lp.1),
        Ok(_) => {
            let first = lex_value_spec(lp.1);
            match first.0 {
                Err(e) => (Err(e), first.1),
                Ok(value) => {
                    let more = more_values(first.1, seq![value]);
                    match more.0 {
                        Err(e) => (Err(e), more.1),
                        Ok(all) => {
                            let rp = right_paren(more.1);
                            match rp.0 {
                                Err(e) => (Err(e), rp.1),
                                Ok(_) => (Ok(all), rp.1),
                            }
                        },
                    }
                },
            }
        },
    }
}

/// A condition. The grammar has no rule for conditions yet: nothing is
/// recognised and nothing is taken.
pub open spec fn condition(s: Seq<char>) -> Lexed<Condition> {
    (Err(ParseError::FailedToLex), s)
}

/// A `select` statement.
pub open spec fn select(s: Seq<char>) -> Lexed<StatementView> {
    let kw = lex_literal(s, "select"@);
    match kw.0 {
        Err(e) => (Err(e), kw.1),
        Ok(_) => {
            let cols = columns(kw.1);
            match cols.0 {
                Err(e) => (Err(e), cols.1),
                Ok(names) => {
                    let from = lex_literal(cols.1, "from"@);
                    match from.0 {
                        Err(_) => (Err(ParseError::MissingFrom), from.1),
                        Ok(_) => {
                            let table = lex_ident(from.1);
                            match table.0 {
                                Err(e) => (Err(e), table.1),
                                Ok(name) => {
                                    let wh = lex_literal(table.1, "where"@);
                                    if wh.0 is Ok {
                                        let c = condition(wh.1);
                                        match c.0 {
                                            Err(e) => (Err(e), c.1),
                                            Ok(cond) => (
                                                Ok(
                                                    StatementView::Select {
                                                        columns: names,
                                                        table: name,
                                                        condition: Some(cond),
                                                    },
                                                ),
                                                c.1,
                                            ),
                                        }
                                    } else {
                                        (
                                            Ok(
                                                StatementView::Select {
                                                    columns: names,
                                                    table: name,
                                                    condition: None,
                                                },
                                            ),
                                            wh.1,
                                        )
                                    }
                                },
                            }
                        },
                    }
                },
            }
        },
    }
}

/// A `create table` statement.
pub open spec fn create_table(s: Seq<char>) -> Lexed<StatementView> {
    let a = lex_literal(s, "create"@);
    match a.0 {
        Err(e) => (Err(e), a.1),
        Ok(_) => {
            let b = lex_literal(a.1, "table"@);
            match b.0 {
                Err(e) => (Err(e), b.1),
                Ok(_) => {
                    let table = lex_ident(b.1);
                    match table.0 {
                        Err(e) => (Err(e), table.1),
                        Ok(name) => {
                            let cols = column_pairs(table.1);
                            match cols.0 {
                                Err(e) => (Err(e), cols.1),
                                Ok(pairs) => (
                                    Ok(StatementView::CreateTable { table: name, columns: pairs }),
                                    cols.1,
                                ),
                            }
                        },
                    }
                },
            }
        },
    }
}

/// An `insert into` statement.
pub open spec fn insert_into(s: Seq<char>) -> Lexed<StatementView> {
    let a = lex_literal(s, "insert"@);
    match a.0 {
        Err(e) => (Err(e), a.1),
        Ok(_) => {
            let b = lex_literal(a.1, "into"@);
            match b.0 {
                Err(e) => (Err(e), b.1),
                Ok(_) => {
                    let table = lex_ident(b.1);
                    match table.0 {
                        Err(e) => (Err(e), table.1),
                        Ok(name) => {
                            let c = lex_literal(table.1, "values"@);
                            match c.0 {
                                Err(e) => (Err(e), c.1),
                                Ok(_) => {
                                    let vals = values(c.1);
                                    match vals.0 {
                                        Err(ParseError::FailedToLex) => (
                                            Err(ParseError::InvalidValue),
                                            vals.1,
                                        ),
                                        Err(e) => (Err(e), vals.1),
                                        Ok(all) => (
                                            Ok(
                                                StatementView::InsertInto {
                                                    table: name,
                                                    values: all,
                                                },
                                            ),
                                            vals.1,
                                        ),
                                    }
                                },
                            }
                        },
                    }
                },
            }
        },
    }
}

/// The next parser's turn: `next`, where the parser before it failed to
/// lex, and what that parser gave otherwise.
pub open spec fn or_else<T>(before: Lexed<T>, next: Lexed<T>) -> Lexed<T> {
    match before.0 {
        Err(ParseError::FailedToLex) => next,
        _ => before,
    }
}

/// A statement and the semicolon behind it. The three kinds of statement
/// are tried in turn, each on what the one before it left of the input.
pub open spec fn statement(s: Seq<char>) -> Lexed<StatementView> {
    let a = select(s);
    let b = or_else(a, create_table(a.1));
    let c = or_else(b, insert_into(b.1));
    let d = or_else(c, (Err(ParseError::UnrecognizedStatement), c.1));
    match d.0 {
        Err(e) => (Err(e), d.1),
        Ok(stmt) => {
            let semi = semicolon(d.1);
            match semi.0 {
                Err(e) => (Err(e), semi.1),
                Ok(_) => (Ok(stmt), semi.1),
            }
        },
    }
}

/// A command to the program: a dot and `exit` or `print`.
pub open spec fn meta_command(s: Seq<char>) -> Lexed<MetaCommand> {
    let dot = lex_literal(s, "."@);
    match dot.0 {
        Err(e) => (Err(e), dot.1),
        Ok(_) => {
            let a = lex_literal(dot.1, "exit"@);
            match a.0 {
                Ok(_) => (Ok(MetaCommand::Exit), a.1),
                Err(ParseError::FailedToLex) => {
                    let b = lex_literal(a.1, "print"@);
                    match b.0 {
                        Ok(_) => (Ok(MetaCommand::Print), b.1),
                        Err(_) => (Err(ParseError::UnrecognizedMetaCommand), b.1),
                    }
                },
                Err(_) => (Err(ParseError::UnrecognizedMetaCommand), a.1),
            }
        },
    }
}

/// A command: a command to the program, or else a statement.
pub open spec fn command(s: Seq<char>) -> Lexed<CommandView> {
    let m = meta_command(s);
    match m.0 {
        Ok(c) => (Ok(CommandView::MetaCommand(c)), m.1),
        Err(ParseError::FailedToLex) => {
            let st = statement(m.1);
            match st.0 {
                Ok(stmt) => (Ok(CommandView::Statement(stmt)), st.1),
                Err(e) => (Err(e), st.1),
            }
        },
        Err(e) => (Err(e), m.1),
    }
}

/// The input does not grow where white space is taken off it.
pub proof fn lemma_skip_space_len(s: Seq<char>)
    ensures
        skip_space(s).len() <= s.len(),
{
    lemma_run_end(s, CharClass::Space, 0);
}

/// A literal leaves no more input than there was, and less where it was found.
pub proof fn lemma_lex_literal_len(s: Seq<char>, lit: Seq<char>)
    ensures
        lex_literal(s, lit).1.len() <= s.len(),
        lex_literal(s, lit).0 is Ok && lit.len() > 0 ==> lex_literal(s, lit).1.len() < s.len(),
{
    lemma_skip_space_len(s);
}

/// An identifier leaves no more input than there was.
pub proof fn lemma_lex_ident_len(s: Seq<char>)
    ensures
        lex_ident(s).1.len() <= s.len(),
{
    lemma_skip_space_len(s);
    let t = skip_space(s);
    if t.len() > 0 {
        lemma_run_end(t, CharClass::Word, 1);
    }
}

/// A column type leaves no more input than there was.
pub proof fn lemma_db_type_len(s: Seq<char>)
    ensures
        db_type(s).1.len() <= s.len(),
{
    lemma_lex_literal_len(s, "integer"@);
    lemma_lex_literal_len(lex_literal(s, "integer"@).1, "text"@);
}

/// A value leaves no more input than there was.
pub proof fn lemma_lex_value_len(s: Seq<char>)
    ensures
        lex_value_spec(s).1.len() <= s.len(),
{
    lemma_skip_space_len(s);
    let t = skip_space(s);
    lemma_run_end(t, CharClass::Digit, 0);
    if t.len() > 0 {
        lemma_run_end(t, CharClass::Digit, 1);
        lemma_run_end(t, CharClass::Quoted, 1);
    }
}

impl ParseError {
    /// What the error says.
    pub open spec fn message(self) -> Seq<char> {
        match self {
            ParseError::FailedToLex => "Failed to lex"@,
            ParseError::InvalidIdentifier => "Invalid identifier"@,
            ParseError::EndOfInput => "Unexpected end of input"@,
            ParseError::MissingSemicolon => "Missing semicolon"@,
            ParseError::MissingLParen => "Missing left parenthesis from column list"@,
            ParseError::MissingRParen => "Missing right parenthesis from column list"@,
            ParseError::MissingComma => "Missing comma from column list"@,
            ParseError::UnrecognizedMetaCommand => "Unrecognized meta-command"@,
            ParseError::UnrecognizedStatement => "Unrecognized SQL statement"@,
            ParseError::UnrecognizedType => "Unrecognized data type"@,
            ParseError::RunawayText => "No closing delimiter for text"@,
            ParseError::InvalidValue => "Invalid value"@,
            ParseError::MissingFrom => "Missing 'from' clause in 'select'-statement"@,
            ParseError::MissingType => "Missing type in column list"@,
        }
    }

    /// What the error says.
    pub fn to_string(&self) -> (r: String)
        ensures
            r@ == self.message(),
    {
        match self {
            ParseError::FailedToLex => "Failed to lex".to_owned(),
            ParseError::InvalidIdentifier => "Invalid identifier".to_owned(),
            ParseError::EndOfInput => "Unexpected end of input".to_owned(),
            ParseError::MissingSemicolon => "Missing semicolon".to_owned(),
            ParseError::MissingLParen => "Missing left parenthesis from column list".to_owned(),
            ParseError::MissingRParen => "Missing right parenthesis from column list".to_owned(),
            ParseError::MissingComma => "Missing comma from column list".to_owned(),
            ParseError::UnrecognizedMetaCommand => "Unrecognized meta-command".to_owned(),
            ParseError::UnrecognizedStatement => "Unrecognized SQL statement".to_owned(),
            ParseError::UnrecognizedType => "Unrecognized data type".to_owned(),
            ParseError::RunawayText => "No closing delimiter for text".to_owned(),
            ParseError::InvalidValue => "Invalid value".to_owned(),
            ParseError::MissingFrom => "Missing 'from' clause in 'select'-statement".to_owned(),
            ParseError::MissingType => "Missing type in column list".to_owned(),
        }
    }

    /// Nothing, where the error says that a parser did not recognise
    /// the input, and the error itself otherwise.
    fn ignore_fail(self) -> (r: Result<(), ParseError>)
        ensures
            r == if self == ParseError::FailedToLex {
                Ok::<(), ParseError>(())
            } else {
                Err::<(), ParseError>(self)
            },
    {
        match self {
            ParseError::FailedToLex => Ok(()),
            _ => Err(self),
        }
    }
}

impl<'a> Parser<'a> {
    /// Takes an opening parenthesis off the input.
    fn parse_left_paren(&mut self) -> (r: Result<(), ParseError>)
        ensures
            (r, final(self)@) == left_paren(old(self)@),
    {
        match self.lex_string("(") {
            Ok(()) => Ok(()),
            Err(_) => Err(ParseError::MissingLParen),
        }
    }

    /// Takes a closing parenthesis off the input.
    fn parse_right_paren(&mut self) -> (r: Result<(), ParseError>)
        ensures
            (r, final(self)@) == right_paren(old(self)@),
    {
        match self.lex_string(")") {
            Ok(()) => Ok(()),
            Err(_) => match self.lex_identifier() {
                Ok(_) => Err(ParseError::MissingComma),
                Err(_) => Err(ParseError::MissingRParen),
            },
        }
    }

    /// Takes a semicolon off the input.
    fn parse_semicolon(&mut self) -> (r: Result<(), ParseError>)
        ensures
            (r, final(self)@) == semicolon(old(self)@),
    {
        match self.lex_string(";") {
            Ok(()) => Ok(()),
            Err(_) => Err(ParseError::MissingSemicolon),
        }
    }

    /// Takes a column type off the input.
    fn parse_db_type(&mut self) -> (r: Result<DBType, ParseError>)
        ensures
            (r, final(self)@) == db_type(old(self)@),
    {
        match self.lex_string("integer") {
            Ok(()) => Ok(DBType::Integer),
            Err(_) => match self.lex_string("text") {
                Ok(()) => Ok(DBType::Text),
                Err(ParseError::EndOfInput) => Err(ParseError::MissingType),
                Err(_) => Err(ParseError::UnrecognizedType),
            },
        }
    }

    /// Takes a list of identifiers in parentheses off the input.
    #[verifier::loop_isolation(false)]
    fn parse_columns(&mut self) -> (r: Result<Vec<Identifier>, ParseError>)
        ensures
            final(self)@ == columns(old(self)@).1,
            match r {
                Ok(names) => columns(old(self)@).0 == Ok::<Seq<Seq<char>>, ParseError>(
                    names.deep_view(),
                ),
                Err(e) => columns(old(self)@).0 == Err::<Seq<Seq<char>>, ParseError>(e),
            },
    {
        match self.parse_left_paren() {
            Ok(()) => {},
            Err(e) => {
                return Err(e);
            },
        }
        let ident = match self.lex_identifier() {
            Ok(ident) => ident,
            Err(e) => {
                return Err(e);
            },
        };
        let mut names: Vec<Identifier> = Vec::new();
        names.push(ident);
        assert(names.deep_view() =~= seq![ident@]);
        let ghost goal = more_identifiers(self@, names.deep_view());
        let mut more = true;
        while more
            invariant
                more ==> more_identifiers(self@, names.deep_view()) == goal,
                !more ==> goal == (Ok::<Seq<Seq<char>>, ParseError>(names.deep_view()), self@),
            decreases
                    self@.len() + if more {
                        1int
                    } else {
                        0int
                    },
        {
            let ghost before = self@;
            let ghost acc = names.deep_view();
            match self.lex_string(",") {
                Ok(()) => {
                    match self.lex_identifier() {
                        Ok(ident) => {
                            names.push(ident);
                            proof {
                                reveal_strlit(",");
                                lemma_lex_literal_len(before, ","@);
                                lemma_lex_ident_len(lex_literal(before, ","@).1);
                                assert(names.deep_view() =~= acc.push(ident@));
                            }
                        },
                        Err(e) => {
                            return Err(e);
                        },
                    }
                },
                Err(_) => {
                    proof {
                        lemma_lex_literal_len(before, ","@);
                    }
                    more = false;
                },
            }
        }
        match self.parse_right_paren() {
            Ok(()) => Ok(names),
            Err(e) => Err(e),
        }
    }

    /// Takes a list of columns with their types in parentheses off the input.
    #[verifier::loop_isolation(false)]
    fn parse_column_pairs(&mut self) -> (r: Result<Vec<(Identifier, DBType)>, ParseError>)
        ensures
            final(self)@ == column_pairs(old(self)@).1,
            match r {
                Ok(pairs) => column_pairs(old(self)@).0 == Ok::<
                    Seq<(Seq<char>, DBType)>,
                    ParseError,
                >(pairs.deep_view()),
                Err(e) => column_pairs(old(self)@).0 == Err::<
                    Seq<(Seq<char>, DBType)>,
                    ParseError,
                >(e),
            },
    {
        match self.parse_left_paren() {
            Ok(()) => {},
            Err(e) => {
                return Err(e);
            },
        }
        let ident = match self.lex_identifier() {
            Ok(ident) => ident,
            Err(e) => {
                return Err(e);
            },
        };
        let db_type = match self.parse_db_type() {
            Ok(db_type) => db_type,
            Err(e) => {
                return Err(e);
            },
        };
        let mut pairs: Vec<(Identifier, DBType)> = Vec::new();
        pairs.push((ident, db_type));
        assert(pairs.deep_view() =~= seq![(ident@, db_type)]);
        let ghost goal = more_pairs(self@, pairs.deep_view());
        let mut more = true;
        while more
            invariant
                more ==> more_pairs(self@, pairs.deep_view()) == goal,
                !more ==> goal == (
                    Ok::<Seq<(Seq<char>, DBType)>, ParseError>(pairs.deep_view()),
                    self@,
                ),
            decreases
                    self@.len() + if more {
                        1int
                    } else {
                        0int
                    },
        {
            let ghost before = self@;
            let ghost acc = pairs.deep_view();
            match self.lex_string(",") {
                Ok(()) => {
                    let ghost after_comma = self@;
                    match self.lex_identifier() {
                        Ok(ident) => {
                            let ghost after_ident = self@;
                            match self.parse_db_type() {
                                Ok(db_type) => {
                                    pairs.push((ident, db_type));
                                    proof {
                                        reveal_strlit(",");
                                        lemma_lex_literal_len(before, ","@);
                                        lemma_lex_ident_len(after_comma);
                                        lemma_db_type_len(after_ident);
                                        assert(pairs.deep_view() =~= acc.push((ident@, db_type)));
                                    }
                                },
                                Err(e) => {
                                    return Err(e);
                                },
                            }
                        },
                        Err(e) => {
                            return Err(e);
                        },
                    }
                },
                Err(_) => {
                    proof {
                        lemma_lex_literal_len(before, ","@);
                    }
                    more = false;
                },
            }
        }
        match self.parse_right_paren() {
            Ok(()) => Ok(pairs),
            Err(e) => Err(e),
        }
    }

    /// Takes a list of values in parentheses off the input.
    #[verifier::loop_isolation(false)]
    fn parse_values(&mut self) -> (r: Result<Vec<DBValue>, ParseError>)
        ensures
            final(self)@ == values(old(self)@).1,
            match r {
                Ok(all) => values(old(self)@).0 == Ok::<Seq<ValueView>, ParseError>(
                    all.deep_view(),
                ),
                Err(e) => values(old(self)@).0 == Err::<Seq<ValueView>, ParseError>(e),
            },
    {
        match self.parse_left_paren() {
            Ok(()) => {},
            Err(e) => {
                return Err(e);
            },
        }
        let value = match self.lex_value() {
            Ok(value) => value,
            Err(e) => {
                return Err(e);
            },
        };
        let mut all: Vec<DBValue> = Vec::new();
        all.push(value);
        assert(all.deep_view() =~= seq![value@]);
        let ghost goal = more_values(self@, all.deep_view());
        let mut more = true;
        while more
            invariant
                more ==> more_values(self@, all.deep_view()) == goal,
                !more ==> goal == (Ok::<Seq<ValueView>, ParseError>(all.deep_view()), self@),
            decreases
                    self@.len() + if more {
                        1int
                    } else {
                        0int
                    },
        {
            let ghost before = self@;
            let ghost acc = all.deep_view();
            match self.lex_string(",") {
                Ok(()) => {
                    let ghost after_comma = self@;
                    match self.lex_value() {
                        Ok(value) => {
                            all.push(value);
                            proof {
                                reveal_strlit(",");
                                lemma_lex_literal_len(before, ","@);
                                lemma_lex_value_len(after_comma);
                                assert(all.deep_view() =~= acc.push(value@));
                            }
                        },
                        Err(e) => {
                            return Err(e);
                        },
                    }
                },
                Err(_) => {
                    proof {
                        lemma_lex_literal_len(before, ","@);
                    }
                    more = false;
                },
            }
        }
        match self.parse_right_paren() {
            Ok(()) => Ok(all),
            Err(e) => Err(e),
        }
    }

    /// Takes a condition off the input. No condition is recognised yet.
    fn parse_condition(&mut self) -> (r: Result<Condition, ParseError>)
        ensures
            (r, final(self)@) == condition(old(self)@),
    {
        Err(ParseError::FailedToLex)
    }

    /// Takes a `select` statement off the input.
    fn parse_select(&mut self) -> (r: Result<Statement, ParseError>)
        ensures
            final(self)@ == select(old(self)@).1,
            match r {
                Ok(stmt) => select(old(self)@).0 == Ok::<StatementView, ParseError>(stmt@),
                Err(e) => select(old(self)@).0 == Err::<StatementView, ParseError>(e),
            },
    {
        match self.lex_string("select") {
            Ok(()) => {},
            Err(e) => {
                return Err(e);
            },
        }
        let columns = match self.parse_columns() {
            Ok(columns) => columns,
            Err(e) => {
                return Err(e);
            },
        };
        match self.lex_string("from") {
            Ok(()) => {},
            Err(_) => {
                return Err(ParseError::MissingFrom);
            },
        }
        let table = match self.lex_identifier() {
            Ok(table) => table,
            Err(e) => {
                return Err(e);
            },
        };
        let condition = match self.lex_string("where") {
            Ok(()) => match self.parse_condition() {
                Ok(condition) => Some(condition),
                Err(e) => {
                    return Err(e);
                },
            },
            Err(_) => None,
        };
        Ok(Statement::Select { columns, table, condition })
    }

    /// Takes a `create table` statement off the input.
    fn parse_create_table(&mut self) -> (r: Result<Statement, ParseError>)
        ensures
            final(self)@ == create_table(old(self)@).1,
            match r {
                Ok(stmt) => create_table(old(self)@).0 == Ok::<StatementView, ParseError>(stmt@),
                Err(e) => create_table(old(self)@).0 == Err::<StatementView, ParseError>(e),
            },
    {
        match self.lex_string("create") {
            Ok(()) => {},
            Err(e) => {
                return Err(e);
            },
        }
        match self.lex_string("table") {
            Ok(()) => {},
            Err(e) => {
                return Err(e);
            },
        }
        let table = match self.lex_identifier() {
            Ok(table) => table,
            Err(e) => {
                return Err(e);
            },
        };
        match self.parse_column_pairs() {
            Ok(columns) => Ok(Statement::CreateTable { table, columns }),
            Err(e) => Err(e),
        }
    }

    /// Takes an `insert into` statement off the input.
    fn parse_insert_into(&mut self) -> (r: Result<Statement, ParseError>)
        ensures
            final(self)@ == insert_into(old(self)@).1,
            match r {
                Ok(stmt) => insert_into(old(self)@).0 == Ok::<StatementView, ParseError>(stmt@),
                Err(e) => insert_into(old(self)@).0 == Err::<StatementView, ParseError>(e),
            },
    {
        match self.lex_string("insert") {
            Ok(()) => {},
            Err(e) => {
                return Err(e);
            },
        }
        match self.lex_string("into") {
            Ok(()) => {},
            Err(e) => {
                return Err(e);
            },
        }
        let table = match self.lex_identifier() {
            Ok(table) => table,
            Err(e) => {
                return Err(e);
            },
        };
        match self.lex_string("values") {
            Ok(()) => {},
            Err(e) => {
                return Err(e);
            },
        }
        match self.parse_values() {
            Ok(values) => Ok(Statement::InsertInto { table, values }),
            Err(ParseError::FailedToLex) => Err(ParseError::InvalidValue),
            Err(e) => Err(e),
        }
    }

    /// Takes a statement and its semicolon off the input.
    fn parse_statement(&mut self) -> (r: Result<Statement, ParseError>)
        ensures
            final(self)@ == statement(old(self)@).1,
            match r {
                Ok(stmt) => statement(old(self)@).0 == Ok::<StatementView, ParseError>(stmt@),
                Err(e) => statement(old(self)@).0 == Err::<StatementView, ParseError>(e),
            },
    {
        let first = self.parse_select();
        let second = match first {
            Err(e) => match e.ignore_fail() {
                Ok(()) => self.parse_create_table(),
                Err(e) => Err(e),
            },
            Ok(stmt) => Ok(stmt),
        };
        let third = match second {
            Err(e) => match e.ignore_fail() {
                Ok(()) => self.parse_insert_into(),
                Err(e) => Err(e),
            },
            Ok(stmt) => Ok(stmt),
        };
        let stmt = match third {
            Err(e) => match e.ignore_fail() {
                Ok(()) => {
                    return Err(ParseError::UnrecognizedStatement);
                },
                Err(e) => {
                    return Err(e);
                },
            },
            Ok(stmt) => stmt,
        };
        match self.parse_semicolon() {
            Ok(()) => Ok(stmt),
            Err(e) => Err(e),
        }
    }

    /// Takes a command to the program off the input.
    fn parse_meta_command(&mut self) -> (r: Result<MetaCommand, ParseError>)
        ensures
            (r, final(self)@) == meta_command(old(self)@),
    {
        match self.lex_string(".") {
            Ok(()) => {},
            Err(e) => {
                return Err(e);
            },
        }
        match self.lex_string("exit") {
            Ok(()) => Ok(MetaCommand::Exit),
            Err(e) => match e.ignore_fail() {
                Ok(()) => match self.lex_string("print") {
                    Ok(()) => Ok(MetaCommand::Print),
                    Err(_) => Err(ParseError::UnrecognizedMetaCommand),
                },
                Err(_) => Err(ParseError::UnrecognizedMetaCommand),
            },
        }
    }

    /// Parses one command: the result is what the grammar gives for the
    /// input, and the input that the grammar leaves is left.
    pub fn parse_command(&mut self) -> (r: Result<Command, ParseError>)
        ensures
            final(self)@ == command(old(self)@).1,
            match r {
                Ok(cmd) => command(old(self)@).0 == Ok::<CommandView, ParseError>(cmd@),
                Err(e) => command(old(self)@).0 == Err::<CommandView, ParseError>(e),
            },
    {
        match self.parse_meta_command() {
            Ok(cmd) => Ok(Command::MetaCommand(cmd)),
            Err(e) => match e.ignore_fail() {
                Ok(()) => match self.parse_statement() {
                    Ok(stmt) => Ok(Command::Statement(stmt)),
                    Err(e) => Err(e),
                },
                Err(e) => Err(e),
            },
        }
    }
}

} // verus!
