use attricat_formula::formula::{Expression, Formula, FormulaError, Operator};
use attricat_formula::numeral::FLOAT_LIMIT;
use attricat_formula::text::white_space;

fn syntax_error(position: usize, message: &str) -> FormulaError {
    FormulaError::InvalidSyntax { position, message: message.to_string() }
}

fn attribute(name: &str) -> Expression {
    Expression::Attribute(name.to_string())
}

fn number(text: &str) -> Expression {
    Expression::Number(text.to_string())
}

fn binary(operator: Operator, left: Expression, right: Expression) -> Expression {
    Expression::Binary { operator, left: Box::new(left), right: Box::new(right) }
}

#[test]
fn extracts_unique_dependencies_in_stable_order() {
    let formula = Formula::parse("price_net * (1 + vat_rate) + price_net").unwrap();
    assert_eq!(formula.dependencies(), ["price_net", "vat_rate"]);
}

#[test]
fn multiplication_binds_tighter_than_addition() {
    let formula = Formula::parse("price_net * (1 + vat_rate)").unwrap();
    assert_eq!(
        formula.root(),
        &binary(
            Operator::Multiply,
            attribute("price_net"),
            binary(Operator::Add, number("1"), attribute("vat_rate"))
        )
    );
    let formula = Formula::parse("a + b * c - d / e").unwrap();
    assert_eq!(
        formula.root(),
        &binary(
            Operator::Subtract,
            binary(Operator::Add, attribute("a"), binary(Operator::Multiply, attribute("b"), attribute("c"))),
            binary(Operator::Divide, attribute("d"), attribute("e"))
        )
    );
}

#[test]
fn operators_associate_to_the_left_and_minus_is_unary_too() {
    let formula = Formula::parse("a - b - c").unwrap();
    assert_eq!(
        formula.root(),
        &binary(
            Operator::Subtract,
            binary(Operator::Subtract, attribute("a"), attribute("b")),
            attribute("c")
        )
    );
    let formula = Formula::parse("--x * -2").unwrap();
    assert_eq!(
        formula.root(),
        &binary(
            Operator::Multiply,
            Expression::UnaryMinus(Box::new(Expression::UnaryMinus(Box::new(attribute("x"))))),
            Expression::UnaryMinus(Box::new(number("2")))
        )
    );
}

#[test]
fn identifiers_take_letters_digits_underscores_and_hyphens() {
    let formula = Formula::parse(" _net-2x ").unwrap();
    assert_eq!(formula.root(), &attribute("_net-2x"));
    assert!(formula.dependencies() == ["_net-2x"]);
    assert!(Formula::parse("(12.5)").unwrap().dependencies().is_empty());
}

#[test]
fn rejects_invalid_syntax_and_division_by_zero() {
    assert!(matches!(Formula::parse("price_net * ("), Err(FormulaError::InvalidSyntax { .. })));
}

#[test]
fn rejects_invalid_syntax_with_byte_positions() {
    assert_eq!(
        Formula::parse("price_net * ("),
        Err(syntax_error(13, "expected a number, attribute reference, or `(`"))
    );
    assert_eq!(Formula::parse("1 2"), Err(syntax_error(2, "expected an operator")));
    assert_eq!(Formula::parse("(1"), Err(syntax_error(2, "expected `)`")));
    assert_eq!(Formula::parse(""), Err(syntax_error(0, "expected a number, attribute reference, or `(`")));
    assert_eq!(Formula::parse("a $ b"), Err(syntax_error(2, "expected an operator")));
    // U+3000 is whitespace three bytes long.
    assert_eq!(Formula::parse("\u{3000}1 2"), Err(syntax_error(5, "expected an operator")));
    assert_eq!(Formula::parse("é"), Err(syntax_error(0, "expected a number, attribute reference, or `(`")));
}

#[test]
fn numbers_must_read_as_finite_floats() {
    assert_eq!(Formula::parse("1..2"), Err(syntax_error(4, "invalid number")));
    assert_eq!(Formula::parse("."), Err(syntax_error(1, "invalid number")));
    assert_eq!(Formula::parse("x * 1.2.3"), Err(syntax_error(9, "invalid number")));
    assert_eq!(Formula::parse(".5").unwrap().root(), &number(".5"));
    assert_eq!(Formula::parse("5.").unwrap().root(), &number("5."));
    let limit = FLOAT_LIMIT.to_string();
    assert_eq!(Formula::parse(&limit), Err(syntax_error(309, "invalid number")));
    let below = "179769313486231580793728971405303415079934132710037826936173778980444968292764750946649017977587207096330286416692887910946555547851940402630657488671505820681908902000708383676273854845817711531764475730270069855571366959622842914819860834936475292719074168444365510704342711559699508093042880177904174497791.9";
    assert!(Formula::parse(below).is_ok());
    assert!(below.parse::<f64>().unwrap().is_finite());
    assert!(limit.parse::<f64>().unwrap().is_infinite());
    let long = format!("000{}", "9".repeat(308));
    assert!(Formula::parse(&long).is_ok());
    let longer = format!("1{}", "0".repeat(309));
    assert_eq!(Formula::parse(&longer), Err(syntax_error(310, "invalid number")));
}

#[test]
fn error_messages_read_as_sentences() {
    assert_eq!(
        syntax_error(7, "expected `)`").message(),
        "Invalid formula at character 7: expected `)`"
    );
    assert_eq!(
        syntax_error(1234567, "invalid number").message(),
        "Invalid formula at character 1234567: invalid number"
    );
    assert_eq!(FormulaError::UnknownAttribute("net".into()).message(), "Unknown attribute `net`.");
    assert_eq!(
        FormulaError::MissingValue("vat".into()).message(),
        "Attribute `vat` has no value in this context."
    );
    assert_eq!(FormulaError::DivisionByZero.message(), "Cannot divide by zero.");
}

#[test]
fn whitespace_agrees_with_the_standard_library_on_every_character() {
    for code in 0u32..=0x10FFFF {
        if let Some(c) = char::from_u32(code) {
            assert_eq!(white_space(c), c.is_whitespace(), "U+{code:04X}");
        }
    }
}
