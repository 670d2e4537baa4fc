//! How the grammar groups operations: `*` and `/` bind tighter than `+` and `-`, and
//! operators of the same strength group from the left, as in `(a / b) * c` and
//! `(a - b) + c`; parentheses group first; negation binds tightest;
//! and a negated attribute is still read by the formula.

use vstd::prelude::*;
use crate::formula::{
    attribute_names, blank_run, identifier_continue, identifier_start, is_identifier, name_run, parse_formula,
    spec_expression, spec_expression_tail, spec_factor, spec_term, spec_term_tail, Expr, Operator, SyntaxIssue,
};
use crate::numeral::is_digit;
use crate::text::is_white_space;

verus! {

/// The character that writes an operator.
pub open spec fn operator_char(o: Operator) -> char {
    match o {
        Operator::Add => '+',
        Operator::Subtract => '-',
        Operator::Multiply => '*',
        Operator::Divide => '/',
    }
}

/// `*` and `/`, which bind tighter than `+` and `-`.
pub open spec fn is_multiplicative(o: Operator) -> bool {
    o is Multiply || o is Divide
}

/// The text `x o1 y o2 z`, with one space on each side of each operator.
pub open spec fn two_operations(x: Seq<char>, o1: Operator, y: Seq<char>, o2: Operator, z: Seq<char>) -> Seq<char> {
    x + seq![' ', operator_char(o1), ' '] + y + seq![' ', operator_char(o2), ' '] + z
}

pub open spec fn binary(o: Operator, a: Expr, b: Expr) -> Expr {
    Expr::Binary(o, Box::new(a), Box::new(b))
}

proof fn lemma_no_blank(s: Seq<char>, i: int)
    requires
        0 <= i,
        i >= s.len() || !is_white_space(s[i]),
    ensures
        blank_run(s, i) == 0,
{
}

proof fn lemma_one_blank(s: Seq<char>, i: int)
    requires
        0 <= i,
        i + 1 < s.len(),
        s[i] == ' ',
        !is_white_space(s[i + 1]),
    ensures
        blank_run(s, i) == 1,
{
    lemma_no_blank(s, i + 1);
}

proof fn lemma_name_run_exact(s: Seq<char>, i: int, n: int)
    requires
        0 <= i,
        0 <= n,
        i + n <= s.len(),
        forall|m: int| i <= m < i + n ==> #[trigger] identifier_continue(s[m]),
        i + n == s.len() || !identifier_continue(s[i + n]),
    ensures
        name_run(s, i) == n,
    decreases n,
{
    if n > 0 {
        lemma_name_run_exact(s, i + 1, n - 1);
    }
}

/// A factor that is an attribute code `s[j..j + n]`, after `j - i` blanks.
proof fn lemma_factor_name(s: Seq<char>, i: int, j: int, n: int)
    requires
        0 <= i <= j,
        blank_run(s, i) == j - i,
        1 <= n,
        j + n <= s.len(),
        identifier_start(s[j]),
        forall|m: int| j < m < j + n ==> #[trigger] identifier_continue(s[m]),
        j + n == s.len() || !identifier_continue(s[j + n]),
    ensures
        spec_factor(s, i) == Ok::<(Expr, nat), (int, SyntaxIssue)>(
            (Expr::Attribute(s.subrange(j, j + n)), (j + n - i) as nat),
        ),
{
    assert(!is_digit(s[j]) && s[j] != '.' && s[j] != '-' && s[j] != '(');
    lemma_name_run_exact(s, j + 1, n - 1);
}

/// The shape of `x o1 y o2 z` as the grammar rules see it: three operands, each a factor
/// read after the blanks before it, and the two operator characters between them.
pub open spec fn laid_out(s: Seq<char>, a: int, b: int, l: int, c1: char, c2: char, xe: Expr, ye: Expr, ze: Expr) -> bool {
    &&& 0 < a && a + 3 < b && b + 3 < l && l == s.len()
    &&& spec_factor(s, 0) == Ok::<(Expr, nat), (int, SyntaxIssue)>((xe, a as nat))
    &&& spec_factor(s, a + 2) == Ok::<(Expr, nat), (int, SyntaxIssue)>((ye, (b - a - 2) as nat))
    &&& spec_factor(s, b + 2) == Ok::<(Expr, nat), (int, SyntaxIssue)>((ze, (l - b - 2) as nat))
    &&& blank_run(s, a) == 1 && blank_run(s, b) == 1
    &&& blank_run(s, a + 1) == 0 && blank_run(s, b + 1) == 0 && blank_run(s, l) == 0
    &&& s[a + 1] == c1 && s[b + 1] == c2
}

#[verifier::rlimit(50)]
proof fn lemma_layout(x: Seq<char>, o1: Operator, y: Seq<char>, o2: Operator, z: Seq<char>)
    requires
        is_identifier(x),
        is_identifier(y),
        is_identifier(z),
    ensures
        laid_out(
            two_operations(x, o1, y, o2, z),
            x.len() as int,
            (x.len() + 3 + y.len()) as int,
            (x.len() + 3 + y.len() + 3 + z.len()) as int,
            operator_char(o1),
            operator_char(o2),
            Expr::Attribute(x),
            Expr::Attribute(y),
            Expr::Attribute(z),
        ),
{
    let s = two_operations(x, o1, y, o2, z);
    let a = x.len() as int;
    let b = a + 3 + y.len();
    let l = b + 3 + z.len();
    let c1 = operator_char(o1);
    let c2 = operator_char(o2);
    assert(s.len() == l);
    assert(s[a] == ' ' && s[a + 1] == c1 && s[a + 2] == ' ');
    assert(s[b] == ' ' && s[b + 1] == c2 && s[b + 2] == ' ');
    assert(s.subrange(0, a) =~= x);
    assert(s.subrange(a + 3, b) =~= y);
    assert(s.subrange(b + 3, l) =~= z);
    assert(s[0] == x[0] && s[a + 3] == y[0] && s[b + 3] == z[0]);
    lemma_no_blank(s, 0);
    assert forall|m: int| 0 < m < a implies #[trigger] identifier_continue(s[m]) by {
        assert(s[m] == x[m]);
    }
    lemma_factor_name(s, 0, 0, a);
    lemma_one_blank(s, a + 2);
    assert forall|m: int| a + 3 < m < b implies #[trigger] identifier_continue(s[m]) by {
        assert(s[m] == y[m - (a + 3)]);
    }
    lemma_factor_name(s, a + 2, a + 3, y.len() as int);
    lemma_one_blank(s, b + 2);
    assert forall|m: int| b + 3 < m < l implies #[trigger] identifier_continue(s[m]) by {
        assert(s[m] == z[m - (b + 3)]);
    }
    lemma_factor_name(s, b + 2, b + 3, z.len() as int);
    lemma_one_blank(s, a);
    lemma_one_blank(s, b);
    lemma_no_blank(s, a + 1);
    lemma_no_blank(s, b + 1);
    lemma_no_blank(s, l);
}

/// `x * y * z`-like texts: both operations inside one term.
proof fn lemma_both_tight(s: Seq<char>, a: int, b: int, l: int, o1: Operator, o2: Operator, xe: Expr, ye: Expr, ze: Expr)
    requires
        laid_out(s, a, b, l, operator_char(o1), operator_char(o2), xe, ye, ze),
        is_multiplicative(o1),
        is_multiplicative(o2),
    ensures
        spec_expression(s, 0) == Ok::<(Expr, nat), (int, SyntaxIssue)>((binary(o2, binary(o1, xe, ye), ze), l as nat)),
{
    let e1 = binary(o1, xe, ye);
    let e2 = binary(o2, e1, ze);
    assert(spec_term(s, 0) == spec_term_tail(s, xe, 0, a));
    assert(spec_term_tail(s, xe, 0, a) == spec_term_tail(s, e1, 0, b));
    assert(spec_term_tail(s, e1, 0, b) == spec_term_tail(s, e2, 0, l));
    assert(spec_term_tail(s, e2, 0, l) == Ok::<(Expr, nat), (int, SyntaxIssue)>((e2, l as nat)));
    assert(spec_expression_tail(s, e2, 0, l) == Ok::<(Expr, nat), (int, SyntaxIssue)>((e2, l as nat)));
}

/// `x * y + z`-like texts.
proof fn lemma_tight_then_loose(s: Seq<char>, a: int, b: int, l: int, o1: Operator, o2: Operator, xe: Expr, ye: Expr, ze: Expr)
    requires
        laid_out(s, a, b, l, operator_char(o1), operator_char(o2), xe, ye, ze),
        is_multiplicative(o1),
        !is_multiplicative(o2),
    ensures
        spec_expression(s, 0) == Ok::<(Expr, nat), (int, SyntaxIssue)>((binary(o2, binary(o1, xe, ye), ze), l as nat)),
{
    let e1 = binary(o1, xe, ye);
    let e2 = binary(o2, e1, ze);
    assert(spec_term(s, 0) == spec_term_tail(s, xe, 0, a));
    assert(spec_term_tail(s, xe, 0, a) == spec_term_tail(s, e1, 0, b));
    assert(spec_term_tail(s, e1, 0, b) == Ok::<(Expr, nat), (int, SyntaxIssue)>((e1, (b + 1) as nat)));
    assert(spec_term_tail(s, ze, b + 2, l) == Ok::<(Expr, nat), (int, SyntaxIssue)>((ze, (l - b - 2) as nat)));
    assert(spec_term(s, b + 2) == Ok::<(Expr, nat), (int, SyntaxIssue)>((ze, (l - b - 2) as nat)));
    assert(spec_expression_tail(s, e1, 0, b + 1) == spec_expression_tail(s, e2, 0, l));
    assert(spec_expression_tail(s, e2, 0, l) == Ok::<(Expr, nat), (int, SyntaxIssue)>((e2, l as nat)));
}

/// `x + y * z`-like texts: the second operation binds first.
proof fn lemma_loose_then_tight(s: Seq<char>, a: int, b: int, l: int, o1: Operator, o2: Operator, xe: Expr, ye: Expr, ze: Expr)
    requires
        laid_out(s, a, b, l, operator_char(o1), operator_char(o2), xe, ye, ze),
        !is_multiplicative(o1),
        is_multiplicative(o2),
    ensures
        spec_expression(s, 0) == Ok::<(Expr, nat), (int, SyntaxIssue)>((binary(o1, xe, binary(o2, ye, ze)), l as nat)),
{
    let e2 = binary(o2, ye, ze);
    let e1 = binary(o1, xe, e2);
    assert(spec_term(s, 0) == spec_term_tail(s, xe, 0, a));
    assert(spec_term_tail(s, xe, 0, a) == Ok::<(Expr, nat), (int, SyntaxIssue)>((xe, (a + 1) as nat)));
    assert(spec_term(s, a + 2) == spec_term_tail(s, ye, a + 2, b));
    assert(spec_term_tail(s, ye, a + 2, b) == spec_term_tail(s, e2, a + 2, l));
    assert(spec_term_tail(s, e2, a + 2, l) == Ok::<(Expr, nat), (int, SyntaxIssue)>((e2, (l - a - 2) as nat)));
    assert(spec_expression_tail(s, xe, 0, a + 1) == spec_expression_tail(s, e1, 0, l));
    assert(spec_expression_tail(s, e1, 0, l) == Ok::<(Expr, nat), (int, SyntaxIssue)>((e1, l as nat)));
}

/// `x + y - z`-like texts: both operations in the expression, from the left.
proof fn lemma_both_loose(s: Seq<char>, a: int, b: int, l: int, o1: Operator, o2: Operator, xe: Expr, ye: Expr, ze: Expr)
    requires
        laid_out(s, a, b, l, operator_char(o1), operator_char(o2), xe, ye, ze),
        !is_multiplicative(o1),
        !is_multiplicative(o2),
    ensures
        spec_expression(s, 0) == Ok::<(Expr, nat), (int, SyntaxIssue)>((binary(o2, binary(o1, xe, ye), ze), l as nat)),
{
    let e1 = binary(o1, xe, ye);
    let e2 = binary(o2, e1, ze);
    assert(spec_term(s, 0) == spec_term_tail(s, xe, 0, a));
    assert(spec_term_tail(s, xe, 0, a) == Ok::<(Expr, nat), (int, SyntaxIssue)>((xe, (a + 1) as nat)));
    assert(spec_term(s, a + 2) == spec_term_tail(s, ye, a + 2, b));
    assert(spec_term_tail(s, ye, a + 2, b) == Ok::<(Expr, nat), (int, SyntaxIssue)>((ye, (b - 1 - a) as nat)));
    assert(spec_expression_tail(s, xe, 0, a + 1) == spec_expression_tail(s, e1, 0, b + 1));
    assert(spec_term_tail(s, ze, b + 2, l) == Ok::<(Expr, nat), (int, SyntaxIssue)>((ze, (l - b - 2) as nat)));
    assert(spec_term(s, b + 2) == Ok::<(Expr, nat), (int, SyntaxIssue)>((ze, (l - b - 2) as nat)));
    assert(spec_expression_tail(s, e1, 0, b + 1) == spec_expression_tail(s, e2, 0, l));
    assert(spec_expression_tail(s, e2, 0, l) == Ok::<(Expr, nat), (int, SyntaxIssue)>((e2, l as nat)));
}

/// Law: in `x o1 y o2 z`, where `x`, `y`, `z` are attribute codes, the second operation
/// applies to the result of the first, unless the first is `+` or `-` and the second is
/// `*` or `/`, in which case the second binds `y` and `z` first. So `a / b * c` reads as
/// `(a / b) * c`, `a / b / c` as `(a / b) / c`, `a - b + c` as `(a - b) + c`, and
/// `a + b * c` as `a + (b * c)`.
pub proof fn lemma_two_operations(x: Seq<char>, o1: Operator, y: Seq<char>, o2: Operator, z: Seq<char>)
    requires
        is_identifier(x),
        is_identifier(y),
        is_identifier(z),
    ensures
        parse_formula(two_operations(x, o1, y, o2, z)) == Ok::<Expr, (int, SyntaxIssue)>(
            if !is_multiplicative(o1) && is_multiplicative(o2) {
                binary(o1, Expr::Attribute(x), binary(o2, Expr::Attribute(y), Expr::Attribute(z)))
            } else {
                binary(o2, binary(o1, Expr::Attribute(x), Expr::Attribute(y)), Expr::Attribute(z))
            },
        ),
{
    let s = two_operations(x, o1, y, o2, z);
    let a = x.len() as int;
    let b = a + 3 + y.len();
    let l = b + 3 + z.len();
    let xe = Expr::Attribute(x);
    let ye = Expr::Attribute(y);
    let ze = Expr::Attribute(z);
    lemma_layout(x, o1, y, o2, z);
    if is_multiplicative(o1) {
        if is_multiplicative(o2) {
            lemma_both_tight(s, a, b, l, o1, o2, xe, ye, ze);
        } else {
            lemma_tight_then_loose(s, a, b, l, o1, o2, xe, ye, ze);
        }
    } else {
        if is_multiplicative(o2) {
            lemma_loose_then_tight(s, a, b, l, o1, o2, xe, ye, ze);
        } else {
            lemma_both_loose(s, a, b, l, o1, o2, xe, ye, ze);
        }
    }
}

/// Law: `-x`, for an attribute code `x`, reads as the negation of `x`, and the formula
/// still reads `x`.
pub proof fn lemma_negated_name(x: Seq<char>)
    requires
        is_identifier(x),
    ensures
        parse_formula(seq!['-'] + x) == Ok::<Expr, (int, SyntaxIssue)>(
            Expr::UnaryMinus(Box::new(Expr::Attribute(x))),
        ),
        attribute_names(parse_formula(seq!['-'] + x)->Ok_0) == set![x],
{
    let s = seq!['-'] + x;
    let l = s.len() as int;
    let xe = Expr::Attribute(x);
    let ne = Expr::UnaryMinus(Box::new(xe));
    assert(s[0] == '-');
    assert(s.subrange(1, l) =~= x);
    assert(s[1] == x[0]);
    lemma_no_blank(s, 0);
    lemma_no_blank(s, 1);
    lemma_no_blank(s, l);
    assert forall|m: int| 1 < m < l implies #[trigger] identifier_continue(s[m]) by {
        assert(s[m] == x[m - 1]);
    }
    lemma_factor_name(s, 1, 1, x.len() as int);
    assert(spec_factor(s, 0) == Ok::<(Expr, nat), (int, SyntaxIssue)>((ne, l as nat)));
    assert(spec_term(s, 0) == spec_term_tail(s, ne, 0, l));
    assert(spec_term_tail(s, ne, 0, l) == Ok::<(Expr, nat), (int, SyntaxIssue)>((ne, l as nat)));
    assert(spec_expression_tail(s, ne, 0, l) == Ok::<(Expr, nat), (int, SyntaxIssue)>((ne, l as nat)));
    assert(attribute_names(xe) =~= set![x]);
    assert(attribute_names(ne) == attribute_names(xe));
}

/// The text `x o1 (y o2 z)`.
pub open spec fn grouped_right(x: Seq<char>, o1: Operator, y: Seq<char>, o2: Operator, z: Seq<char>) -> Seq<char> {
    x + seq![' ', operator_char(o1), ' ', '('] + y + seq![' ', operator_char(o2), ' '] + z + seq![')']
}

/// The shape of `x o1 (y o2 z)`: `x` at `0..a`, `y` from `a + 4` to `b`, `z` from `b + 3`
/// to `e`, and the closing parenthesis at `e`.
pub open spec fn laid_out_grouped(s: Seq<char>, a: int, b: int, e: int, c1: char, c2: char, xe: Expr, ye: Expr, ze: Expr) -> bool {
    &&& 0 < a && a + 4 < b && b + 3 < e && e + 1 == s.len()
    &&& spec_factor(s, 0) == Ok::<(Expr, nat), (int, SyntaxIssue)>((xe, a as nat))
    &&& spec_factor(s, a + 4) == Ok::<(Expr, nat), (int, SyntaxIssue)>((ye, (b - a - 4) as nat))
    &&& spec_factor(s, b + 2) == Ok::<(Expr, nat), (int, SyntaxIssue)>((ze, (e - b - 2) as nat))
    &&& blank_run(s, a) == 1 && blank_run(s, b) == 1 && blank_run(s, a + 2) == 1
    &&& blank_run(s, a + 1) == 0 && blank_run(s, b + 1) == 0 && blank_run(s, e) == 0
    &&& blank_run(s, e + 1) == 0
    &&& s[a + 1] == c1 && s[b + 1] == c2 && s[a + 3] == '(' && s[e] == ')'
}

#[verifier::rlimit(50)]
proof fn lemma_layout_grouped(x: Seq<char>, o1: Operator, y: Seq<char>, o2: Operator, z: Seq<char>)
    requires
        is_identifier(x),
        is_identifier(y),
        is_identifier(z),
    ensures
        laid_out_grouped(
            grouped_right(x, o1, y, o2, z),
            x.len() as int,
            (x.len() + 4 + y.len()) as int,
            (x.len() + 4 + y.len() + 3 + z.len()) as int,
            operator_char(o1),
            operator_char(o2),
            Expr::Attribute(x),
            Expr::Attribute(y),
            Expr::Attribute(z),
        ),
{
    let s = grouped_right(x, o1, y, o2, z);
    let a = x.len() as int;
    let b = a + 4 + y.len();
    let e = b + 3 + z.len();
    let c1 = operator_char(o1);
    let c2 = operator_char(o2);
    assert(s.len() == e + 1);
    assert(s[a] == ' ' && s[a + 1] == c1 && s[a + 2] == ' ' && s[a + 3] == '(');
    assert(s[b] == ' ' && s[b + 1] == c2 && s[b + 2] == ' ' && s[e] == ')');
    assert(s.subrange(0, a) =~= x);
    assert(s.subrange(a + 4, b) =~= y);
    assert(s.subrange(b + 3, e) =~= z);
    assert(s[0] == x[0] && s[a + 4] == y[0] && s[b + 3] == z[0]);
    lemma_no_blank(s, 0);
    assert forall|m: int| 0 < m < a implies #[trigger] identifier_continue(s[m]) by {
        assert(s[m] == x[m]);
    }
    lemma_factor_name(s, 0, 0, a);
    lemma_no_blank(s, a + 4);
    assert forall|m: int| a + 4 < m < b implies #[trigger] identifier_continue(s[m]) by {
        assert(s[m] == y[m - (a + 4)]);
    }
    lemma_factor_name(s, a + 4, a + 4, y.len() as int);
    lemma_one_blank(s, b + 2);
    assert forall|m: int| b + 3 < m < e implies #[trigger] identifier_continue(s[m]) by {
        assert(s[m] == z[m - (b + 3)]);
    }
    lemma_factor_name(s, b + 2, b + 3, z.len() as int);
    lemma_one_blank(s, a);
    lemma_one_blank(s, b);
    lemma_one_blank(s, a + 2);
    lemma_no_blank(s, a + 1);
    lemma_no_blank(s, b + 1);
    lemma_no_blank(s, e);
    lemma_no_blank(s, e + 1);
}

/// The parenthesised part of `x o1 (y o2 z)` reads as `y o2 z` and ends at the `)`.
proof fn lemma_grouped_inner(s: Seq<char>, a: int, b: int, e: int, o1: Operator, o2: Operator, xe: Expr, ye: Expr, ze: Expr)
    requires
        laid_out_grouped(s, a, b, e, operator_char(o1), operator_char(o2), xe, ye, ze),
    ensures
        spec_factor(s, a + 2) == Ok::<(Expr, nat), (int, SyntaxIssue)>((binary(o2, ye, ze), (e + 1 - a - 2) as nat)),
{
    let inner = binary(o2, ye, ze);
    assert(spec_term(s, a + 4) == spec_term_tail(s, ye, a + 4, b));
    if is_multiplicative(o2) {
        assert(spec_term_tail(s, ye, a + 4, b) == spec_term_tail(s, inner, a + 4, e));
        assert(spec_term_tail(s, inner, a + 4, e) == Ok::<(Expr, nat), (int, SyntaxIssue)>((inner, (e - a - 4) as nat)));
        assert(spec_expression(s, a + 4) == spec_expression_tail(s, inner, a + 4, e));
    } else {
        assert(spec_term_tail(s, ye, a + 4, b) == Ok::<(Expr, nat), (int, SyntaxIssue)>((ye, (b + 1 - a - 4) as nat)));
        assert(spec_expression(s, a + 4) == spec_expression_tail(s, ye, a + 4, b + 1));
        assert(spec_term_tail(s, ze, b + 2, e) == Ok::<(Expr, nat), (int, SyntaxIssue)>((ze, (e - b - 2) as nat)));
        assert(spec_term(s, b + 2) == Ok::<(Expr, nat), (int, SyntaxIssue)>((ze, (e - b - 2) as nat)));
        assert(spec_expression_tail(s, ye, a + 4, b + 1) == spec_expression_tail(s, inner, a + 4, e));
    }
    assert(spec_expression_tail(s, inner, a + 4, e) == Ok::<(Expr, nat), (int, SyntaxIssue)>((inner, (e - a - 4) as nat)));
    assert(spec_expression(s, a + 4) == Ok::<(Expr, nat), (int, SyntaxIssue)>((inner, (e - a - 4) as nat)));
}

/// Law: parentheses group first: `x o1 (y o2 z)`, for attribute codes `x`, `y`, `z` and any
/// operators, reads as `o1` applied to `x` and to `y o2 z`.
pub proof fn lemma_parenthesised_operand(x: Seq<char>, o1: Operator, y: Seq<char>, o2: Operator, z: Seq<char>)
    requires
        is_identifier(x),
        is_identifier(y),
        is_identifier(z),
    ensures
        parse_formula(grouped_right(x, o1, y, o2, z)) == Ok::<Expr, (int, SyntaxIssue)>(
            binary(o1, Expr::Attribute(x), binary(o2, Expr::Attribute(y), Expr::Attribute(z))),
        ),
{
    let s = grouped_right(x, o1, y, o2, z);
    let a = x.len() as int;
    let b = a + 4 + y.len();
    let e = b + 3 + z.len();
    let l = e + 1;
    let xe = Expr::Attribute(x);
    let ye = Expr::Attribute(y);
    let ze = Expr::Attribute(z);
    lemma_layout_grouped(x, o1, y, o2, z);
    lemma_grouped_inner(s, a, b, e, o1, o2, xe, ye, ze);
    let inner = binary(o2, ye, ze);
    let whole = binary(o1, xe, inner);
    assert(spec_term(s, 0) == spec_term_tail(s, xe, 0, a));
    if is_multiplicative(o1) {
        assert(spec_term_tail(s, xe, 0, a) == spec_term_tail(s, whole, 0, l));
        assert(spec_term_tail(s, whole, 0, l) == Ok::<(Expr, nat), (int, SyntaxIssue)>((whole, l as nat)));
    } else {
        assert(spec_term_tail(s, xe, 0, a) == Ok::<(Expr, nat), (int, SyntaxIssue)>((xe, (a + 1) as nat)));
        assert(spec_term(s, a + 2) == spec_term_tail(s, inner, a + 2, l));
        assert(spec_term_tail(s, inner, a + 2, l) == Ok::<(Expr, nat), (int, SyntaxIssue)>((inner, (l - a - 2) as nat)));
        assert(spec_expression_tail(s, xe, 0, a + 1) == spec_expression_tail(s, whole, 0, l));
    }
    assert(spec_expression_tail(s, whole, 0, l) == Ok::<(Expr, nat), (int, SyntaxIssue)>((whole, l as nat)));
}

/// Law: negation binds tighter than any operator: `-x o y`, for attribute codes `x` and
/// `y`, reads as `o` applied to `-x` and `y`.
#[verifier::rlimit(50)]
pub proof fn lemma_negation_binds_first(x: Seq<char>, o: Operator, y: Seq<char>)
    requires
        is_identifier(x),
        is_identifier(y),
    ensures
        parse_formula(seq!['-'] + x + seq![' ', operator_char(o), ' '] + y) == Ok::<Expr, (int, SyntaxIssue)>(
            binary(o, Expr::UnaryMinus(Box::new(Expr::Attribute(x))), Expr::Attribute(y)),
        ),
{
    let s = seq!['-'] + x + seq![' ', operator_char(o), ' '] + y;
    let a = x.len() + 1int;
    let l = a + 3 + y.len();
    let c = operator_char(o);
    let xe = Expr::Attribute(x);
    let ye = Expr::Attribute(y);
    let ne = Expr::UnaryMinus(Box::new(xe));
    let whole = binary(o, ne, ye);
    assert(s.len() == l);
    assert(s[0] == '-' && s[a] == ' ' && s[a + 1] == c && s[a + 2] == ' ');
    assert(s.subrange(1, a) =~= x);
    assert(s.subrange(a + 3, l) =~= y);
    assert(s[1] == x[0] && s[a + 3] == y[0]);
    lemma_no_blank(s, 0);
    lemma_no_blank(s, 1);
    assert forall|m: int| 1 < m < a implies #[trigger] identifier_continue(s[m]) by {
        assert(s[m] == x[m - 1]);
    }
    lemma_factor_name(s, 1, 1, x.len() as int);
    lemma_one_blank(s, a + 2);
    assert forall|m: int| a + 3 < m < l implies #[trigger] identifier_continue(s[m]) by {
        assert(s[m] == y[m - (a + 3)]);
    }
    lemma_factor_name(s, a + 2, a + 3, y.len() as int);
    lemma_one_blank(s, a);
    lemma_no_blank(s, a + 1);
    lemma_no_blank(s, l);
    assert(spec_factor(s, 0) == Ok::<(Expr, nat), (int, SyntaxIssue)>((ne, a as nat)));
    assert(spec_term(s, 0) == spec_term_tail(s, ne, 0, a));
    if is_multiplicative(o) {
        assert(spec_term_tail(s, ne, 0, a) == spec_term_tail(s, whole, 0, l));
        assert(spec_term_tail(s, whole, 0, l) == Ok::<(Expr, nat), (int, SyntaxIssue)>((whole, l as nat)));
    } else {
        assert(spec_term_tail(s, ne, 0, a) == Ok::<(Expr, nat), (int, SyntaxIssue)>((ne, (a + 1) as nat)));
        assert(spec_term_tail(s, ye, a + 2, l) == Ok::<(Expr, nat), (int, SyntaxIssue)>((ye, (l - a - 2) as nat)));
        assert(spec_term(s, a + 2) == Ok::<(Expr, nat), (int, SyntaxIssue)>((ye, (l - a - 2) as nat)));
        assert(spec_expression_tail(s, ne, 0, a + 1) == spec_expression_tail(s, whole, 0, l));
    }
    assert(spec_expression_tail(s, whole, 0, l) == Ok::<(Expr, nat), (int, SyntaxIssue)>((whole, l as nat)));
}

} // verus!
