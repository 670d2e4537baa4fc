//! Recursive-descent parser of the formula language, proved to follow the grammar of
//! `crate::formula`.

use vstd::prelude::*;
use crate::formula::{
    blank_run, identifier_continue, identifier_start, name_run, numeral_run, reports,
    spec_expression, spec_expression_tail, spec_factor, spec_term, spec_term_tail, Expression,
    FormulaError, Operator,
};
use crate::numeral::{finite_numeral, finite_numeral_at, is_digit};
use crate::text::{byte_offset, chars_of, lemma_byte_offset_step, utf8_len, utf8_width, white_space};

verus! {

/// Cursor over the characters of a formula's source text. `position` is the byte offset
/// of the character at `index`.
pub struct Parser<'a> {
    source: &'a str,
    chars: Vec<char>,
    index: usize,
    position: usize,
}

/// Whether `c` may begin an attribute code.
pub fn is_identifier_start(c: char) -> (r: bool)
    ensures
        r == identifier_start(c),
{
    ('a' <= c && c <= 'z') || ('A' <= c && c <= 'Z') || c == '_'
}

/// Whether `c` may continue an attribute code.
pub fn is_identifier_continue(c: char) -> (r: bool)
    ensures
        r == identifier_continue(c),
{
    is_identifier_start(c) || ('0' <= c && c <= '9') || c == '-'
}

impl<'a> Parser<'a> {
    /// The characters of the source text.
    pub closed spec fn text(&self) -> Seq<char> {
        self.chars@
    }

    /// Index of the next character to read.
    pub closed spec fn index(&self) -> int {
        self.index as int
    }

    pub closed spec fn wf(&self) -> bool {
        &&& self.chars@ == self.source@
        &&& self.index <= self.chars@.len()
        &&& self.chars@.len() <= usize::MAX
        &&& self.position == byte_offset(self.chars@, self.index as int)
        &&& utf8_len(self.chars@) <= usize::MAX
    }

    /// A valid cursor stands at or before the end of its text.
    pub proof fn lemma_index_bound(&self)
        requires
            self.wf(),
        ensures
            0 <= self.index() <= self.text().len(),
    {
    }

    pub fn new(source: &'a str) -> (p: Self)
        ensures
            p.wf(),
            p.text() == source@,
            p.index() == 0,
    {
        let chars = chars_of(source);
        let bytes = source.as_bytes();
        let total = bytes.len();
        let count = chars.len();
        proof {
            assert(count == chars@.len());
            assert(chars@.take(0) =~= Seq::<char>::empty());
            assert(total == utf8_len(chars@));
        }
        Parser { source, chars, index: 0, position: 0 }
    }

    /// The next character, if any.
    pub fn peek_char(&self) -> (r: Option<char>)
        requires
            self.wf(),
        ensures
            r == (if self.index() < self.text().len() {
                Some(self.text()[self.index()])
            } else {
                None::<char>
            }),
            r is None <==> self.index() == self.text().len(),
            0 <= self.index() <= self.text().len(),
    {
        if self.index < self.chars.len() {
            Some(self.chars[self.index])
        } else {
            None
        }
    }

    /// Reads the next character, if any.
    pub fn consume_char(&mut self) -> (r: Option<char>)
        requires
            old(self).wf(),
        ensures
            final(self).wf(),
            final(self).text() == old(self).text(),
            r == (if old(self).index() < old(self).text().len() {
                Some(old(self).text()[old(self).index()])
            } else {
                None::<char>
            }),
            final(self).index() == (if old(self).index() < old(self).text().len() {
                old(self).index() + 1
            } else {
                old(self).index()
            }),
    {
        match self.peek_char() {
            None => None,
            Some(c) => {
                proof {
                    lemma_byte_offset_step(self.chars@, self.index as int);
                }
                let width = utf8_width(c);
                self.position = self.position + width;
                self.index = self.index + 1;
                Some(c)
            },
        }
    }

    /// Reads the next character when it is `expected`.
    pub fn consume_if(&mut self, expected: char) -> (r: bool)
        requires
            old(self).wf(),
        ensures
            final(self).wf(),
            final(self).text() == old(self).text(),
            r == (old(self).index() < old(self).text().len() && old(self).text()[old(
                self,
            ).index()] == expected),
            final(self).index() == if r {
                old(self).index() + 1
            } else {
                old(self).index()
            },
    {
        match self.peek_char() {
            Some(c) => {
                if c == expected {
                    self.consume_char();
                    true
                } else {
                    false
                }
            },
            None => false,
        }
    }

    /// Whether every character has been read.
    pub fn at_end(&self) -> (r: bool)
        requires
            self.wf(),
        ensures
            r == (self.index() == self.text().len()),
            0 <= self.index() <= self.text().len(),
    {
        self.index == self.chars.len()
    }

    /// A syntax error at the current position.
    pub fn error(&self, message: &str) -> (r: FormulaError)
        requires
            self.wf(),
        ensures
            r matches FormulaError::InvalidSyntax { position, message: m } && position
                == byte_offset(self.text(), self.index()) && m@ == message@,
    {
        FormulaError::InvalidSyntax { position: self.position, message: message.to_owned() }
    }

    /// Skips the whitespace at the current position.
    pub fn skip_whitespace(&mut self)
        requires
            old(self).wf(),
        ensures
            final(self).wf(),
            final(self).text() == old(self).text(),
            final(self).index() == old(self).index() + blank_run(old(self).text(), old(self).index()),
    {
        let ghost start = self.index as int;
        loop
            invariant
                self.wf(),
                self.text() == old(self).text(),
                start == old(self).index(),
                start <= self.index(),
                blank_run(self.text(), start) == (self.index() - start) + blank_run(
                    self.text(),
                    self.index(),
                ),
            decreases self.text().len() - self.index(),
        {
            match self.peek_char() {
                Some(c) => {
                    if white_space(c) {
                        self.consume_char();
                    } else {
                        return;
                    }
                },
                None => {
                    return;
                },
            }
        }
    }

    /// Reads an attribute code: the current character and the identifier characters after it.
    pub fn identifier(&mut self) -> (r: String)
        requires
            old(self).wf(),
        ensures
            final(self).wf(),
            final(self).text() == old(self).text(),
            final(self).index() == (if old(self).index() < old(self).text().len() {
                old(self).index() + 1 + name_run(old(self).text(), old(self).index() + 1)
            } else {
                old(self).index()
            }),
            r@ == old(self).text().subrange(old(self).index(), final(self).index()),
    {
        let start = self.index;
        if self.consume_char().is_none() {
            assert(self.text().subrange(start as int, start as int) =~= Seq::<char>::empty());
            return self.source.substring_char(start, start).to_owned();
        }
        loop
            invariant
                self.wf(),
                self.text() == old(self).text(),
                start == old(self).index(),
                start < old(self).text().len(),
                start + 1 <= self.index(),
                name_run(self.text(), start + 1) == (self.index() - start - 1) + name_run(
                    self.text(),
                    self.index(),
                ),
            ensures
                name_run(self.text(), self.index()) == 0,
            decreases self.text().len() - self.index(),
        {
            match self.peek_char() {
                Some(c) => {
                    if is_identifier_continue(c) {
                        self.consume_char();
                    } else {
                        break;
                    }
                },
                None => {
                    break;
                },
            }
        }
        self.source.substring_char(start, self.index).to_owned()
    }

    /// Reads a numeric literal: the run of digits and dots at the current position.
    pub fn number(&mut self) -> (r: Result<Expression, FormulaError>)
        requires
            old(self).wf(),
        ensures
            final(self).wf(),
            final(self).text() == old(self).text(),
            ({
                let s = old(self).text();
                let i = old(self).index();
                let end = i + numeral_run(s, i);
                let literal = s.subrange(i, end);
                &&& final(self).index() == end
                &&& if finite_numeral(literal) {
                    r matches Ok(Expression::Number(x)) && x@ == literal
                } else {
                    r matches Err(FormulaError::InvalidSyntax { position, message })
                        && position == byte_offset(s, end) && message@ == "invalid number"@
                }
            }),
    {
        let start = self.index;
        loop
            invariant
                self.wf(),
                self.text() == old(self).text(),
                start == old(self).index(),
                start <= self.index(),
                numeral_run(self.text(), start as int) == (self.index() - start) + numeral_run(
                    self.text(),
                    self.index(),
                ),
                forall|k: int|
                    start <= k < self.index() ==> is_digit(self.text()[k]) || self.text()[k]
                        == '.',
            ensures
                numeral_run(self.text(), self.index()) == 0,
            decreases self.text().len() - self.index(),
        {
            match self.peek_char() {
                Some(c) => {
                    if ('0' <= c && c <= '9') || c == '.' {
                        self.consume_char();
                    } else {
                        break;
                    }
                },
                None => {
                    break;
                },
            }
        }
        if finite_numeral_at(&self.chars, start, self.index) {
            Ok(Expression::Number(self.source.substring_char(start, self.index).to_owned()))
        } else {
            Err(self.error("invalid number"))
        }
    }

    /// factor := '-' factor | '(' expression ')' | numeral | identifier
    pub fn factor(&mut self) -> (r: Result<Expression, FormulaError>)
        requires
            old(self).wf(),
        ensures
            final(self).wf(),
            final(self).text() == old(self).text(),
            reports(
                r,
                spec_factor(old(self).text(), old(self).index()),
                old(self).text(),
                old(self).index(),
                final(self).index(),
            ),
        decreases old(self).text().len() - old(self).index(), 0nat,
    {
        let ghost s = self.text();
        let ghost i = self.index();
        self.skip_whitespace();
        if self.consume_if('-') {
            return match self.factor() {
                Ok(inner) => Ok(Expression::UnaryMinus(Box::new(inner))),
                Err(e) => Err(e),
            };
        }
        if self.consume_if('(') {
            let inner = match self.expression() {
                Ok(inner) => inner,
                Err(e) => {
                    return Err(e);
                },
            };
            self.skip_whitespace();
            if !self.consume_if(')') {
                return Err(self.error("expected `)`"));
            }
            return Ok(inner);
        }
        match self.peek_char() {
            Some(c) => {
                if ('0' <= c && c <= '9') || c == '.' {
                    return self.number();
                }
                if is_identifier_start(c) {
                    return Ok(Expression::Attribute(self.identifier()));
                }
            },
            None => {},
        }
        Err(self.error("expected a number, attribute reference, or `(`"))
    }

    /// term := factor (('*' | '/') factor)*
    pub fn term(&mut self) -> (r: Result<Expression, FormulaError>)
        requires
            old(self).wf(),
        ensures
            final(self).wf(),
            final(self).text() == old(self).text(),
            reports(
                r,
                spec_term(old(self).text(), old(self).index()),
                old(self).text(),
                old(self).index(),
                final(self).index(),
            ),
        decreases old(self).text().len() - old(self).index(), 2nat,
    {
        let ghost s = self.text();
        let ghost start = self.index();
        let mut left = match self.factor() {
            Ok(e) => e,
            Err(e) => {
                return Err(e);
            },
        };
        loop
            invariant
                self.wf(),
                self.text() == s,
                s == old(self).text(),
                start == old(self).index(),
                start <= self.index() <= s.len(),
                spec_term(s, start) == spec_term_tail(s, left@, start, self.index()),
            decreases s.len() - self.index(),
        {
            self.skip_whitespace();
            let operator = match self.peek_char() {
                Some(c) => {
                    if c == '*' {
                        Operator::Multiply
                    } else if c == '/' {
                        Operator::Divide
                    } else {
                        return Ok(left);
                    }
                },
                None => {
                    return Ok(left);
                },
            };
            self.consume_char();
            let right = match self.factor() {
                Ok(e) => e,
                Err(e) => {
                    return Err(e);
                },
            };
            left = Expression::Binary { operator, left: Box::new(left), right: Box::new(right) };
        }
    }

    /// expression := term (('+' | '-') term)*
    pub fn expression(&mut self) -> (r: Result<Expression, FormulaError>)
        requires
            old(self).wf(),
        ensures
            final(self).wf(),
            final(self).text() == old(self).text(),
            reports(
                r,
                spec_expression(old(self).text(), old(self).index()),
                old(self).text(),
                old(self).index(),
                final(self).index(),
            ),
        decreases old(self).text().len() - old(self).index(), 4nat,
    {
        let ghost s = self.text();
        let ghost start = self.index();
        let mut left = match self.term() {
            Ok(e) => e,
            Err(e) => {
                return Err(e);
            },
        };
        loop
            invariant
                self.wf(),
                self.text() == s,
                s == old(self).text(),
                start == old(self).index(),
                start <= self.index() <= s.len(),
                spec_expression(s, start) == spec_expression_tail(s, left@, start, self.index()),
            decreases s.len() - self.index(),
        {
            self.skip_whitespace();
            let operator = match self.peek_char() {
                Some(c) => {
                    if c == '+' {
                        Operator::Add
                    } else if c == '-' {
                        Operator::Subtract
                    } else {
                        return Ok(left);
                    }
                },
                None => {
                    return Ok(left);
                },
            };
            self.consume_char();
            let right = match self.term() {
                Ok(e) => e,
                Err(e) => {
                    return Err(e);
                },
            };
            left = Expression::Binary { operator, left: Box::new(left), right: Box::new(right) };
        }
    }
}

} // verus!
