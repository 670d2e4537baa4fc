//! The formula language: its syntax tree, its errors, and the grammar that `Formula::parse`
//! follows, written as recursive spec functions over the characters of the source text.
//!
//! Grammar (whitespace may precede every token):
//!   expression := term (('+' | '-') term)*
//!   term       := factor (('*' | '/') factor)*
//!   factor     := '-' factor | '(' expression ')' | numeral | identifier
//!   numeral    := a maximal run of digits and dots that reads as a finite `f64`
//!   identifier := [A-Za-z_] [A-Za-z0-9_-]*
//!
//! Each rule below takes the start index and yields the parsed tree with the number of
//! characters it consumed, or the index and kind of the first syntax error.

use vstd::prelude::*;
use crate::numeral::{finite_numeral, is_digit};
use crate::parser::Parser;
use crate::text::{byte_offset, decimal_string, decimal_text, insert_sorted, lemma_sorted_listing, lemma_sorted_texts, sorted_texts, is_white_space, strictly_sorted, texts};

verus! {

/// Errors of parsing and of evaluating a formula.
#[derive(Debug, Clone, PartialEq, Eq)]
pub enum FormulaError {
    /// The text is not a formula; `position` is a byte offset into it.
    InvalidSyntax { position: usize, message: String },
    /// The formula names an attribute for which no value was supplied.
    UnknownAttribute(String),
    /// The attribute was supplied but has no value in the requested context.
    MissingValue(String),
    /// A divisor evaluated to zero.
    DivisionByZero,
}

#[derive(Debug, Clone, Copy, PartialEq, Eq, Structural)]
pub enum Operator {
    Add,
    Subtract,
    Multiply,
    Divide,
}

/// Syntax tree of a formula. A number keeps the text of its literal, which reads as a
/// finite `f64`.
#[derive(Debug, PartialEq)]
pub enum Expression {
    Number(String),
    Attribute(String),
    UnaryMinus(Box<Expression>),
    Binary { operator: Operator, left: Box<Expression>, right: Box<Expression> },
}

/// The mathematical model of a syntax tree.
pub enum Expr {
    Number(Seq<char>),
    Attribute(Seq<char>),
    UnaryMinus(Box<Expr>),
    Binary(Operator, Box<Expr>, Box<Expr>),
}

impl View for Expression {
    type V = Expr;

    open spec fn view(&self) -> Expr
        decreases self,
    {
        match self {
            Expression::Number(text) => Expr::Number(text@),
            Expression::Attribute(name) => Expr::Attribute(name@),
            Expression::UnaryMinus(inner) => Expr::UnaryMinus(Box::new((**inner).view())),
            Expression::Binary { operator, left, right } => Expr::Binary(
                *operator,
                Box::new((**left).view()),
                Box::new((**right).view()),
            ),
        }
    }
}

/// A parsed formula.
#[derive(Debug, PartialEq)]
pub struct Formula {
    root: Expression,
}

impl View for Formula {
    type V = Expr;

    closed spec fn view(&self) -> Expr {
        self.root@
    }
}

impl Clone for Expression {
    fn clone(&self) -> (r: Self)
        ensures
            r@ == self@,
        decreases self,
    {
        match self {
            Expression::Number(text) => Expression::Number(text.clone()),
            Expression::Attribute(name) => Expression::Attribute(name.clone()),
            Expression::UnaryMinus(inner) => Expression::UnaryMinus(Box::new((**inner).clone())),
            Expression::Binary { operator, left, right } => Expression::Binary {
                operator: *operator,
                left: Box::new((**left).clone()),
                right: Box::new((**right).clone()),
            },
        }
    }
}

impl Clone for Formula {
    fn clone(&self) -> (r: Self)
        ensures
            r@ == self@,
    {
        Formula { root: self.root.clone() }
    }
}

/// The attribute codes that occur in a syntax tree.
pub open spec fn attribute_names(e: Expr) -> Set<Seq<char>>
    decreases e,
{
    match e {
        Expr::Number(_) => Set::empty(),
        Expr::Attribute(name) => Set::empty().insert(name),
        Expr::UnaryMinus(inner) => attribute_names(*inner),
        Expr::Binary(_, left, right) => attribute_names(*left).union(attribute_names(*right)),
    }
}

/// The attribute codes of a syntax tree, from left to right, with repetitions.
pub open spec fn attribute_list(e: Expr) -> Seq<Seq<char>>
    decreases e,
{
    match e {
        Expr::Number(_) => Seq::empty(),
        Expr::Attribute(name) => seq![name],
        Expr::UnaryMinus(inner) => attribute_list(*inner),
        Expr::Binary(_, left, right) => attribute_list(*left) + attribute_list(*right),
    }
}

pub proof fn lemma_attribute_list(e: Expr)
    ensures
        attribute_list(e).to_set() == attribute_names(e),
    decreases e,
{
    match e {
        Expr::Number(_) => {
            assert(attribute_list(e).to_set() =~= attribute_names(e));
        },
        Expr::Attribute(name) => {
            assert(attribute_list(e).to_set() =~= attribute_names(e)) by {
                assert(attribute_list(e)[0] == name);
            }
        },
        Expr::UnaryMinus(inner) => {
            lemma_attribute_list(*inner);
        },
        Expr::Binary(_, left, right) => {
            lemma_attribute_list(*left);
            lemma_attribute_list(*right);
            let a = attribute_list(*left);
            let b = attribute_list(*right);
            assert forall|x: Seq<char>| (a + b).to_set().contains(x) <==> attribute_names(e).contains(x) by {
                if (a + b).to_set().contains(x) {
                    let k = choose|k: int| 0 <= k < (a + b).len() && (a + b)[k] == x;
                    if k < a.len() {
                        assert(a[k] == x);
                        assert(a.to_set().contains(x));
                    } else {
                        assert(b[k - a.len()] == x);
                        assert(b.to_set().contains(x));
                    }
                }
                if a.to_set().contains(x) {
                    let k = choose|k: int| 0 <= k < a.len() && a[k] == x;
                    assert((a + b)[k] == x);
                }
                if b.to_set().contains(x) {
                    let k = choose|k: int| 0 <= k < b.len() && b[k] == x;
                    assert((a + b)[a.len() + k] == x);
                }
            }
            assert((a + b).to_set() =~= attribute_names(e));
        },
    }
}

/// Law: the attribute codes a tree reads are those of its leaves, wherever they stand: a
/// number reads none, an attribute reads itself, a negation reads what its operand reads,
/// and an operation reads what either operand reads.
pub proof fn lemma_attribute_names_of_parts(text: Seq<char>, name: Seq<char>, op: Operator, a: Expr, b: Expr)
    ensures
        attribute_names(Expr::Number(text)) == Set::<Seq<char>>::empty(),
        attribute_names(Expr::Attribute(name)) == set![name],
        attribute_names(Expr::UnaryMinus(Box::new(a))) == attribute_names(a),
        attribute_names(Expr::Binary(op, Box::new(a), Box::new(b))) == attribute_names(a).union(
            attribute_names(b),
        ),
        forall|x: Seq<char>| #[trigger] attribute_names(Expr::UnaryMinus(Box::new(a))).contains(x)
            <==> attribute_names(a).contains(x),
{
    assert(attribute_names(Expr::Attribute(name)) =~= set![name]);
}

/// The attribute codes of a tree, each once, in lexicographic order.
pub proof fn lemma_sorted_names(e: Expr)
    ensures
        strictly_sorted(sorted_texts(attribute_names(e))),
        sorted_texts(attribute_names(e)).to_set() == attribute_names(e),
{
    let items = attribute_list(e);
    let keep = |d: Seq<char>| true;
    lemma_sorted_listing(items, keep);
    lemma_attribute_list(e);
    assert(Set::new(|d: Seq<char>| items.contains(d) && keep(d)) =~= attribute_names(e));
}

/// What went wrong at the position of a syntax error.
#[derive(Debug, Clone, Copy, PartialEq, Eq, Structural)]
pub enum SyntaxIssue {
    ExpectedOperator,
    ExpectedClosingParen,
    ExpectedOperand,
    InvalidNumber,
}

/// The message that a syntax error carries.
pub open spec fn issue_text(issue: SyntaxIssue) -> Seq<char> {
    match issue {
        SyntaxIssue::ExpectedOperator => "expected an operator"@,
        SyntaxIssue::ExpectedClosingParen => "expected `)`"@,
        SyntaxIssue::ExpectedOperand => "expected a number, attribute reference, or `(`"@,
        SyntaxIssue::InvalidNumber => "invalid number"@,
    }
}

/// Outcome of a grammar rule: the tree and the number of characters consumed, or the
/// character index and kind of the first syntax error.
pub type Parsed = Result<(Expr, nat), (int, SyntaxIssue)>;

pub open spec fn identifier_start(c: char) -> bool {
    ('a' <= c && c <= 'z') || ('A' <= c && c <= 'Z') || c == '_'
}

pub open spec fn identifier_continue(c: char) -> bool {
    identifier_start(c) || is_digit(c) || c == '-'
}

/// Number of whitespace characters from index `i` on.
pub open spec fn blank_run(s: Seq<char>, i: int) -> nat
    decreases s.len() - i,
{
    if 0 <= i < s.len() && is_white_space(s[i]) {
        1 + blank_run(s, i + 1)
    } else {
        0
    }
}

/// Number of digits and dots from index `i` on.
pub open spec fn numeral_run(s: Seq<char>, i: int) -> nat
    decreases s.len() - i,
{
    if 0 <= i < s.len() && (is_digit(s[i]) || s[i] == '.') {
        1 + numeral_run(s, i + 1)
    } else {
        0
    }
}

/// Number of identifier characters from index `i` on.
pub open spec fn name_run(s: Seq<char>, i: int) -> nat
    decreases s.len() - i,
{
    if 0 <= i < s.len() && identifier_continue(s[i]) {
        1 + name_run(s, i + 1)
    } else {
        0
    }
}

/// Characters left after index `i`.
pub open spec fn remaining(s: Seq<char>, i: int) -> nat {
    if i <= s.len() {
        (s.len() - i) as nat
    } else {
        0
    }
}

pub open spec fn spec_factor(s: Seq<char>, i: int) -> Parsed
    decreases remaining(s, i), 0nat,
{
    let j = i + blank_run(s, i);
    if j < s.len() && s[j] == '-' {
        match spec_factor(s, j + 1) {
            Ok((e, n)) => Ok((Expr::UnaryMinus(Box::new(e)), (j + 1 + n - i) as nat)),
            Err(f) => Err(f),
        }
    } else if j < s.len() && s[j] == '(' {
        match spec_expression(s, j + 1) {
            Ok((e, n)) => {
                let k = j + 1 + n;
                let close = k + blank_run(s, k);
                if close < s.len() && s[close] == ')' {
                    Ok((e, (close + 1 - i) as nat))
                } else {
                    Err((close, SyntaxIssue::ExpectedClosingParen))
                }
            },
            Err(f) => Err(f),
        }
    } else if j < s.len() && (is_digit(s[j]) || s[j] == '.') {
        let n = numeral_run(s, j);
        let text = s.subrange(j, j + n);
        if finite_numeral(text) {
            Ok((Expr::Number(text), (j + n - i) as nat))
        } else {
            Err((j + n, SyntaxIssue::InvalidNumber))
        }
    } else if j < s.len() && identifier_start(s[j]) {
        let n = 1 + name_run(s, j + 1);
        Ok((Expr::Attribute(s.subrange(j, j + n)), (j + n - i) as nat))
    } else {
        Err((j, SyntaxIssue::ExpectedOperand))
    }
}

/// The rest of a term after `left`, which spans `start..k`.
pub open spec fn spec_term_tail(s: Seq<char>, left: Expr, start: int, k: int) -> Parsed
    decreases remaining(s, k), 1nat,
{
    let j = k + blank_run(s, k);
    if j < s.len() && (s[j] == '*' || s[j] == '/') {
        let operator = if s[j] == '*' {
            Operator::Multiply
        } else {
            Operator::Divide
        };
        match spec_factor(s, j + 1) {
            Ok((right, n)) => spec_term_tail(
                s,
                Expr::Binary(operator, Box::new(left), Box::new(right)),
                start,
                j + 1 + n,
            ),
            Err(f) => Err(f),
        }
    } else {
        Ok((left, (j - start) as nat))
    }
}

pub open spec fn spec_term(s: Seq<char>, i: int) -> Parsed
    decreases remaining(s, i), 2nat,
{
    match spec_factor(s, i) {
        Ok((left, n)) => spec_term_tail(s, left, i, i + n),
        Err(f) => Err(f),
    }
}

/// The rest of an expression after `left`, which spans `start..k`.
pub open spec fn spec_expression_tail(s: Seq<char>, left: Expr, start: int, k: int) -> Parsed
    decreases remaining(s, k), 3nat,
{
    let j = k + blank_run(s, k);
    if j < s.len() && (s[j] == '+' || s[j] == '-') {
        let operator = if s[j] == '+' {
            Operator::Add
        } else {
            Operator::Subtract
        };
        match spec_term(s, j + 1) {
            Ok((right, n)) => spec_expression_tail(
                s,
                Expr::Binary(operator, Box::new(left), Box::new(right)),
                start,
                j + 1 + n,
            ),
            Err(f) => Err(f),
        }
    } else {
        Ok((left, (j - start) as nat))
    }
}

pub open spec fn spec_expression(s: Seq<char>, i: int) -> Parsed
    decreases remaining(s, i), 4nat,
{
    match spec_term(s, i) {
        Ok((left, n)) => spec_expression_tail(s, left, i, i + n),
        Err(f) => Err(f),
    }
}

/// A whole text read as a formula: an expression followed by nothing but whitespace.
pub open spec fn parse_formula(s: Seq<char>) -> Result<Expr, (int, SyntaxIssue)> {
    match spec_expression(s, 0) {
        Ok((e, n)) => {
            let k = n + blank_run(s, n as int);
            if k == s.len() {
                Ok(e)
            } else {
                Err((k as int, SyntaxIssue::ExpectedOperator))
            }
        },
        Err(f) => Err(f),
    }
}

/// `r` is the outcome that a rule's outcome `p` prescribes, for a rule started at `start`
/// and left at `end`; error positions are byte offsets into `s`.
pub open spec fn reports(r: Result<Expression, FormulaError>, p: Parsed, s: Seq<char>, start: int, end: int) -> bool {
    match p {
        Ok((e, n)) => r matches Ok(x) && x@ == e && end == start + n,
        Err((at, issue)) => r matches Err(FormulaError::InvalidSyntax { position, message })
            && position == byte_offset(s, at) && message@ == issue_text(issue),
    }
}


/// The human-readable text of an error.
pub open spec fn error_text(e: FormulaError) -> Seq<char> {
    match e {
        FormulaError::InvalidSyntax { position, message } => "Invalid formula at character "@
            + decimal_text(position as nat) + ": "@ + message@,
        FormulaError::UnknownAttribute(attribute) => "Unknown attribute `"@ + attribute@ + "`."@,
        FormulaError::MissingValue(attribute) => "Attribute `"@ + attribute@
            + "` has no value in this context."@,
        FormulaError::DivisionByZero => "Cannot divide by zero."@,
    }
}

impl FormulaError {
    /// The human-readable text of the error.
    pub fn message(&self) -> (r: String)
        ensures
            r@ == error_text(*self),
    {
        match self {
            FormulaError::InvalidSyntax { position, message } => {
                let mut text = String::from_str("Invalid formula at character ");
                text.append(decimal_string(*position).as_str());
                text.append(": ");
                text.append(message.as_str());
                text
            },
            FormulaError::UnknownAttribute(attribute) => {
                let mut text = String::from_str("Unknown attribute `");
                text.append(attribute.as_str());
                text.append("`.");
                text
            },
            FormulaError::MissingValue(attribute) => {
                let mut text = String::from_str("Attribute `");
                text.append(attribute.as_str());
                text.append("` has no value in this context.");
                text
            },
            FormulaError::DivisionByZero => String::from_str("Cannot divide by zero."),
        }
    }
}

/// An attribute code: a letter or underscore, then letters, digits, underscores and hyphens.
pub open spec fn is_identifier(t: Seq<char>) -> bool {
    &&& t.len() >= 1
    &&& identifier_start(t[0])
    &&& forall|m: int| 1 <= m < t.len() ==> #[trigger] identifier_continue(t[m])
}

/// A tree whose numbers read as finite `f64` values and whose attributes are codes.
pub open spec fn well_formed_expr(e: Expr) -> bool
    decreases e,
{
    match e {
        Expr::Number(text) => finite_numeral(text),
        Expr::Attribute(name) => is_identifier(name),
        Expr::UnaryMinus(inner) => well_formed_expr(*inner),
        Expr::Binary(_, left, right) => well_formed_expr(*left) && well_formed_expr(*right),
    }
}

pub proof fn lemma_name_run(s: Seq<char>, i: int)
    requires
        0 <= i,
    ensures
        i + name_run(s, i) <= s.len() || name_run(s, i) == 0,
        forall|m: int| i <= m < i + name_run(s, i) ==> #[trigger] identifier_continue(s[m]),
    decreases s.len() - i,
{
    if 0 <= i < s.len() && identifier_continue(s[i]) {
        lemma_name_run(s, i + 1);
    }
}

pub proof fn lemma_factor_well_formed(s: Seq<char>, i: int)
    requires
        0 <= i,
    ensures
        spec_factor(s, i) matches Ok((e, _)) ==> well_formed_expr(e),
    decreases remaining(s, i), 0nat,
{
    let j = i + blank_run(s, i);
    if j < s.len() && s[j] == '-' {
        lemma_factor_well_formed(s, j + 1);
    } else if j < s.len() && s[j] == '(' {
        lemma_expression_well_formed(s, j + 1);
    } else if j < s.len() && (is_digit(s[j]) || s[j] == '.') {
    } else if j < s.len() && identifier_start(s[j]) {
        lemma_name_run(s, j + 1);
        let n = 1 + name_run(s, j + 1);
        let t = s.subrange(j, j + n);
        assert forall|m: int| 1 <= m < t.len() implies #[trigger] identifier_continue(t[m]) by {
            assert(t[m] == s[j + m]);
        }
    }
}

pub proof fn lemma_term_tail_well_formed(s: Seq<char>, left: Expr, start: int, k: int)
    requires
        0 <= k,
        well_formed_expr(left),
    ensures
        spec_term_tail(s, left, start, k) matches Ok((e, _)) ==> well_formed_expr(e),
    decreases remaining(s, k), 1nat,
{
    let j = k + blank_run(s, k);
    if j < s.len() && (s[j] == '*' || s[j] == '/') {
        let operator = if s[j] == '*' {
            Operator::Multiply
        } else {
            Operator::Divide
        };
        lemma_factor_well_formed(s, j + 1);
        match spec_factor(s, j + 1) {
            Ok((right, n)) => {
                lemma_term_tail_well_formed(
                    s,
                    Expr::Binary(operator, Box::new(left), Box::new(right)),
                    start,
                    j + 1 + n,
                );
            },
            Err(_) => {},
        }
    }
}

pub proof fn lemma_term_well_formed(s: Seq<char>, i: int)
    requires
        0 <= i,
    ensures
        spec_term(s, i) matches Ok((e, _)) ==> well_formed_expr(e),
    decreases remaining(s, i), 2nat,
{
    lemma_factor_well_formed(s, i);
    match spec_factor(s, i) {
        Ok((left, n)) => {
            lemma_term_tail_well_formed(s, left, i, i + n);
        },
        Err(_) => {},
    }
}

pub proof fn lemma_expression_tail_well_formed(s: Seq<char>, left: Expr, start: int, k: int)
    requires
        0 <= k,
        well_formed_expr(left),
    ensures
        spec_expression_tail(s, left, start, k) matches Ok((e, _)) ==> well_formed_expr(e),
    decreases remaining(s, k), 3nat,
{
    let j = k + blank_run(s, k);
    if j < s.len() && (s[j] == '+' || s[j] == '-') {
        let operator = if s[j] == '+' {
            Operator::Add
        } else {
            Operator::Subtract
        };
        lemma_term_well_formed(s, j + 1);
        match spec_term(s, j + 1) {
            Ok((right, n)) => {
                lemma_expression_tail_well_formed(
                    s,
                    Expr::Binary(operator, Box::new(left), Box::new(right)),
                    start,
                    j + 1 + n,
                );
            },
            Err(_) => {},
        }
    }
}

pub proof fn lemma_expression_well_formed(s: Seq<char>, i: int)
    requires
        0 <= i,
    ensures
        spec_expression(s, i) matches Ok((e, _)) ==> well_formed_expr(e),
    decreases remaining(s, i), 4nat,
{
    lemma_term_well_formed(s, i);
    match spec_term(s, i) {
        Ok((left, n)) => {
            lemma_expression_tail_well_formed(s, left, i, i + n);
        },
        Err(_) => {},
    }
}

/// The attributes of a well-formed tree are attribute codes.
pub proof fn lemma_names_are_codes(e: Expr)
    requires
        well_formed_expr(e),
    ensures
        forall|x: Seq<char>| attribute_names(e).contains(x) ==> is_identifier(x),
    decreases e,
{
    match e {
        Expr::UnaryMinus(inner) => lemma_names_are_codes(*inner),
        Expr::Binary(_, left, right) => {
            lemma_names_are_codes(*left);
            lemma_names_are_codes(*right);
        },
        _ => {},
    }
}

/// Law: every number of a parsed formula reads as a finite `f64`, and every attribute it
/// names is an attribute code (so are all of its dependencies).
pub proof fn lemma_parsed_well_formed(s: Seq<char>)
    requires
        parse_formula(s) is Ok,
    ensures
        well_formed_expr(parse_formula(s)->Ok_0),
        forall|x: Seq<char>| attribute_names(parse_formula(s)->Ok_0).contains(x) ==> is_identifier(x),
{
    lemma_expression_well_formed(s, 0);
    lemma_names_are_codes(parse_formula(s)->Ok_0);
}

/// `r` is what `Formula::parse` owes for the text `s`.
pub open spec fn parse_outcome(r: Result<Formula, FormulaError>, s: Seq<char>) -> bool {
    match parse_formula(s) {
        Ok(e) => r matches Ok(f) && f@ == e,
        Err((at, issue)) => r matches Err(FormulaError::InvalidSyntax { position, message })
            && position == byte_offset(s, at) && message@ == issue_text(issue),
    }
}

impl Formula {
    /// Parses formula text. A syntax error reports the byte offset at which it was found.
    pub fn parse(expression: &str) -> (r: Result<Self, FormulaError>)
        ensures
            parse_outcome(r, expression@),
    {
        let mut parser = Parser::new(expression);
        let root = match parser.expression() {
            Ok(root) => root,
            Err(e) => {
                return Err(e);
            },
        };
        parser.skip_whitespace();
        if !parser.at_end() {
            return Err(parser.error("expected an operator"));
        }
        Ok(Formula { root })
    }

    /// The syntax tree of the formula.
    pub fn root(&self) -> (r: &Expression)
        ensures
            r@ == self@,
    {
        &self.root
    }

    /// The attribute codes that the formula reads, each once, in lexicographic order.
    pub fn dependencies(&self) -> (r: Vec<String>)
        ensures
            strictly_sorted(texts(r@)),
            texts(r@).to_set() == attribute_names(self@),
            texts(r@) == sorted_texts(attribute_names(self@)),
    {
        let mut dependencies: Vec<String> = Vec::new();
        proof {
            assert(texts(dependencies@).to_set() =~= Set::empty());
        }
        self.root.collect_dependencies(&mut dependencies);
        proof {
            assert(texts(dependencies@).to_set() =~= attribute_names(self@));
            lemma_sorted_texts(texts(dependencies@));
        }
        dependencies
    }
}

impl Expression {
    /// Adds the attribute codes of this tree to a sorted list of codes.
    pub fn collect_dependencies(&self, dependencies: &mut Vec<String>)
        requires
            strictly_sorted(texts(old(dependencies)@)),
        ensures
            strictly_sorted(texts(final(dependencies)@)),
            texts(final(dependencies)@).to_set() == texts(old(dependencies)@).to_set().union(
                attribute_names(self@),
            ),
        decreases self,
    {
        match self {
            Expression::Attribute(name) => {
                insert_sorted(dependencies, name.clone());
                proof {
                    assert(texts(dependencies@).to_set() =~= texts(old(dependencies)@).to_set().union(
                        attribute_names(self@),
                    ));
                }
            },
            Expression::UnaryMinus(inner) => {
                (**inner).collect_dependencies(dependencies);
            },
            Expression::Binary { left, right, .. } => {
                (**left).collect_dependencies(dependencies);
                (**right).collect_dependencies(dependencies);
                proof {
                    assert(texts(dependencies@).to_set() =~= texts(old(dependencies)@).to_set().union(
                        attribute_names(self@),
                    ));
                }
            },
            Expression::Number(_) => {
                proof {
                    assert(texts(dependencies@).to_set() =~= texts(old(dependencies)@).to_set().union(
                        attribute_names(self@),
                    ));
                }
            },
        }
    }
}

} // verus!
