use dbc::calc::evaluate_with_prices;
use dbc::evaluate;
use dbc::format::parse_number;
use dbc::lexer::Quote;
use dbc::number::Num;
use dbc::value::Value;

fn finite(v: &Value) -> &Num {
    match v {
        Value::Finite(n) => n,
        _ => panic!("not a finite number"),
    }
}

#[test]
fn test_sqrt() {
    assert_eq!(evaluate("sqrt(9)").unwrap(), "3");
    assert_eq!(evaluate("sqrt($16)").unwrap(), "$4");
}

#[test]
fn test_pow() {
    assert_eq!(evaluate("pow(2, 3)").unwrap(), "8");
}

#[test]
fn test_max_min() {
    assert_eq!(evaluate("max(10, 20)").unwrap(), "20");
    assert_eq!(evaluate("min($10, $20)").unwrap(), "$10");
    assert_eq!(evaluate("max(1, 2)").unwrap(), "2");
    assert_eq!(evaluate("max(1,2)").unwrap(), "2");
}

#[test]
fn test_complex_func() {
    assert_eq!(evaluate("sqrt(pow(3, 2) + pow(4, 2))").unwrap(), "5");
}

#[test]
fn test_parse_with_dollar_and_commas() {
    let (val, fmt) = parse_number("$1,420,368.94").unwrap();
    assert!(!finite(&val).is_negative());
    assert_eq!(finite(&val).units().unwrap() as f64 / 1e9, 1420368.94);
    assert!(fmt.has_dollar);
    assert!(fmt.has_commas);
    assert_eq!(fmt.decimal_places, 2);
}

#[test]
fn test_addition() {
    let result = evaluate("$1,420,368.94 + $1").unwrap();
    assert_eq!(result, "$1,420,369.94");
}

#[test]
fn test_simple_parentheses() {
    let result = evaluate("(1 + 2) * 3").unwrap();
    assert_eq!(result, "9");
}

fn err(input: &str) -> String {
    evaluate(input).unwrap_err()
}

#[test]
fn readme_examples() {
    assert_eq!(evaluate("400 * 5%").unwrap(), "20");
    assert_eq!(evaluate("400 * 4%").unwrap(), "16");
    assert_eq!(evaluate("$100.00 - $50").unwrap(), "$50.00");
    assert_eq!(evaluate("420368.94 + $2").unwrap(), "420370.94");
}

#[test]
fn readme_number_formats() {
    for text in ["$1,420,368.94", "1,420,368.94", "1420368.94"] {
        let (val, _) = parse_number(text).unwrap();
        assert_eq!(finite(&val).units(), Some(1_420_368_940_000_000));
    }
}

#[test]
fn format_follows_first_number() {
    assert_eq!(evaluate("$1000000 * 2").unwrap(), "$2000000");
    assert_eq!(evaluate("1,000 * 1000").unwrap(), "1,000,000");
    assert_eq!(evaluate("max(1000,2000)").unwrap(), "2000");
    assert_eq!(evaluate("max(1, 2000)").unwrap(), "2000");
    assert_eq!(evaluate("max($1.5,2.5)").unwrap(), "$2.5");
    assert_eq!(evaluate("max(1,000, 2000)").unwrap(), "2,000");
    assert_eq!(evaluate("1.234 + 1").unwrap(), "2.234");
    assert_eq!(evaluate("5% * 400").unwrap(), "20");
    assert_eq!(evaluate("sqrt(4) + 1.5").unwrap(), "4");
    assert_eq!(evaluate("2.000 / 3").unwrap(), "0.667");
    assert_eq!(evaluate("1.00 / 3").unwrap(), "0.33");
    assert_eq!(evaluate("1 / 3").unwrap(), "0");
    assert_eq!(evaluate("abs($5)").unwrap(), "$5");
}

#[test]
fn signs_and_rounding() {
    assert_eq!(evaluate("1 - 3").unwrap(), "-2");
    assert_eq!(evaluate("$1 - $3").unwrap(), "-$2");
    assert_eq!(evaluate("0.001 - 0.002").unwrap(), "-0.001");
    assert_eq!(evaluate("0.0 - 0.04").unwrap(), "-0.0");
    assert_eq!(evaluate("1 * 2.5").unwrap(), "3");
    assert_eq!(evaluate("1 * 2.4").unwrap(), "2");
    assert_eq!(evaluate("0.1 + 0.2").unwrap(), "0.3");
    assert_eq!(evaluate("7 % 3").unwrap(), "1");
    assert_eq!(evaluate("0 - 7 % 3").unwrap(), "-1");
    assert_eq!(evaluate("(0 - 7) % 3").unwrap(), "-1");
}

#[test]
fn precedence_and_functions() {
    assert_eq!(evaluate("1 + 2 * 3").unwrap(), "7");
    assert_eq!(evaluate("10 - 4 - 3").unwrap(), "3");
    assert_eq!(evaluate("SQRT(4)").unwrap(), "2");
    assert_eq!(evaluate("sqrt(2.00)").unwrap(), "1.41");
    assert_eq!(evaluate("pow(2, 0 - 1)").unwrap(), "1");
    assert_eq!(evaluate("pow(2.0, 0 - 2)").unwrap(), "0.3");
    assert_eq!(evaluate("pow(1.5, 3)").unwrap(), "3.4");
    assert_eq!(evaluate("pow(1.500, 3)").unwrap(), "3.375");
    assert_eq!(evaluate("pow(2, 0.5)").unwrap(), "1");
    assert_eq!(evaluate("pow(2.00, 0.5)").unwrap(), "1.41");
    assert_eq!(evaluate("pow(8, 1.5)").unwrap(), "23");
    assert_eq!(evaluate("pow(0, 0.5)").unwrap(), "0");
    assert_eq!(evaluate("pow(0 - 8, 0.5)").unwrap(), "0");
    assert_eq!(evaluate("pow(0.0 - 8, 0.5)").unwrap(), "0.NaN");
    assert_eq!(evaluate("min(3, max(1, 2))").unwrap(), "2");
    assert_eq!(evaluate("  \t 2 + 2 \n").unwrap(), "4");
}

#[test]
fn reading_errors() {
    assert_eq!(err("$"), "Invalid number");
    assert_eq!(err("$AAPL"), "Price data unavailable for 'AAPL'");
    assert_eq!(err("$,"), "Invalid number");
    assert_eq!(err("1.2.3"), "Invalid number");
    assert_eq!(err("1 @ 2"), "Unexpected character: @");
    assert_eq!(err(""), "Empty expression");
    assert_eq!(err("   "), "Empty expression");
    assert_eq!(evaluate("100000000000000000000").unwrap(), "18446744073709551615");
}

#[test]
fn conversion_errors() {
    assert_eq!(err("(1 + 2"), "Mismatched parentheses");
    assert_eq!(err("1 + 2)"), "Mismatched parentheses");
    assert_eq!(err("1, 2"), "Comma misplaced or mismatched parentheses");
}

#[test]
fn evaluation_errors() {
    assert_eq!(err("1 +"), "Invalid expression");
    assert_eq!(err("1 2"), "Invalid expression");
    assert_eq!(err("-5"), "Invalid expression");
    assert_eq!(err("1 / 0"), "Division by zero");
    assert_eq!(evaluate("5 % 0").unwrap(), "0");
    assert_eq!(evaluate("5.5 % 0").unwrap(), "0.NaN");
    assert_eq!(evaluate("$5 % 0 + 1").unwrap(), "$0");
    assert_eq!(evaluate("pow(0, 0 - 1)").unwrap(), "18446744073709551615");
    assert_eq!(err("foo(1)"), "Unknown function: foo");
    assert_eq!(err("sqrt()"), "sqrt requires 1 argument");
    assert_eq!(err("abs()"), "abs requires 1 argument");
    assert_eq!(err("pow(2)"), "pow requires 2 arguments");
    assert_eq!(err("max(2)"), "max requires at least 2 arguments");
    assert_eq!(err("min(2)"), "min requires at least 2 arguments");
    assert_eq!(evaluate("sqrt(0 - 4)").unwrap(), "0");
    assert_eq!(evaluate("pow(0, 0 - 0.5)").unwrap(), "18446744073709551615");
    assert_eq!(evaluate("pow(10, 20)").unwrap(), "18446744073709551615");
    assert_eq!(evaluate("10000000000 * 10000000000").unwrap(), "18446744073709551615");
}

#[test]
fn names_and_results_as_input() {
    assert_eq!(err("log2(8)"), "Unknown function: log2");
    assert_eq!(err("my_fn(8)"), "Unknown function: my_fn");
    let first = evaluate("$1,234.5678 * 1").unwrap();
    assert_eq!(first, "$1,234.5678");
    assert_eq!(evaluate(&first).unwrap(), "$1,234.5678");
    let first = evaluate("$1,234.56 * 1.5").unwrap();
    assert_eq!(first, "$1,851.84");
    assert_eq!(evaluate(&first).unwrap(), first);
}

fn price(symbol: &str, units: u128) -> Quote {
    Quote { symbol: symbol.to_string(), price: Num::from_units(false, units) }
}

#[test]
fn stock_prices() {
    let quotes = vec![price("AAPL", 187_500_000_000), price("TSLA", 250_250_000_000)];
    assert_eq!(evaluate_with_prices("$100 + $AAPL", &quotes).unwrap(), "$288");
    assert_eq!(evaluate_with_prices("$AAPL * 2", &quotes).unwrap(), "$375.00");
    assert_eq!(evaluate_with_prices("$1,000.00 - $TSLA", &quotes).unwrap(), "$749.75");
    assert_eq!(evaluate_with_prices("max($AAPL, $TSLA) - 0.25", &quotes).unwrap(), "$250.00");
    assert_eq!(
        evaluate_with_prices("$100 + $MSFT", &quotes).unwrap_err(),
        "Price data unavailable for 'MSFT'"
    );
    assert_eq!(evaluate("$100 + $AAPL").unwrap_err(), "Price data unavailable for 'AAPL'");
}

#[test]
fn precedence_association_and_grouping() {
    // higher precedence first, equal precedence from the left
    assert_eq!(evaluate("2 + 3 * 4").unwrap(), "14");
    assert_eq!(evaluate("2 * 3 + 4").unwrap(), "10");
    assert_eq!(evaluate("8 / 4 / 2").unwrap(), "1");
    assert_eq!(evaluate("9 - 3 + 2").unwrap(), "8");
    assert_eq!(evaluate("7 % 4 * 2").unwrap(), "6");
    assert_eq!(evaluate("10 - 4 - 3 - 2").unwrap(), "1");
    assert_eq!(evaluate("64 / 4 / 2 / 2").unwrap(), "4");
    assert_eq!(evaluate("2 * 3 % 4 * 5").unwrap(), "10");
    assert_eq!(evaluate("1 - 2 + 3 - 4 + 5").unwrap(), "3");
    // parentheses group whatever the precedence
    assert_eq!(evaluate("8 / (4 / 2)").unwrap(), "4");
    assert_eq!(evaluate("2 * (3 + 4)").unwrap(), "14");
    assert_eq!(evaluate("9 - (3 + 2)").unwrap(), "4");
}

#[test]
fn large_values_and_infinity() {
    // values past 2^64 are computed, and written with the largest whole part
    assert_eq!(evaluate("20000000000000000000 - 1").unwrap(), "18446744073709551615");
    assert_eq!(evaluate("100000000000000000000 / 10000000000").unwrap(), "10000000000");
    assert_eq!(evaluate("pow(10, 20) / pow(10, 19)").unwrap(), "10");
    assert_eq!(evaluate("1,000,000,000,000,000,000,000 * 2 / 4").unwrap(), "18,446,744,073,709,551,615");
    // past 2^1024 a value is infinite, and infinities follow float rules
    assert_eq!(evaluate("pow(10, 400)").unwrap(), "18446744073709551615");
    assert_eq!(evaluate("pow(10.0, 400)").unwrap(), "18446744073709551615.NaN");
    assert_eq!(evaluate("0 - pow(10, 400)").unwrap(), "-18446744073709551615");
    assert_eq!(evaluate("1 / pow(10, 400)").unwrap(), "0");
    assert_eq!(evaluate("pow(10, 400) - pow(10, 400)").unwrap(), "0");
    assert_eq!(evaluate("pow(10.0, 400) - pow(10, 400)").unwrap(), "0.NaN");
    assert_eq!(evaluate("pow(10, 400) * 0").unwrap(), "0");
    assert_eq!(evaluate("max(pow(10, 400), 5)").unwrap(), "18446744073709551615");
    assert_eq!(evaluate("min(0 - pow(10, 400), 5)").unwrap(), "-18446744073709551615");
    assert_eq!(evaluate("sqrt(pow(10, 400))").unwrap(), "18446744073709551615");
    assert_eq!(evaluate("pow(0 - 2, 1025)").unwrap(), "-18446744073709551615");
    assert_eq!(evaluate("pow(2, 0 - 1025)").unwrap(), "0");
    assert_eq!(evaluate("pow(0.5, 0 - pow(10, 400))").unwrap(), "18446744073709551615.NaN");
    assert_eq!(evaluate("pow(0.5, pow(10, 400))").unwrap(), "0.0");
    assert_eq!(evaluate("pow(1.0, pow(10, 400))").unwrap(), "1.0");
    assert_eq!(evaluate("$100 % pow(10, 400)").unwrap(), "$100");
    assert_eq!(err("pow(10, 400) / 0"), "Division by zero");
}

#[test]
fn large_prices() {
    let quotes = vec![Quote { symbol: "BIG".to_string(), price: Num::from_units(false, u128::MAX) }];
    assert_eq!(evaluate_with_prices("$100 + $BIG", &quotes).unwrap(), "$18446744073709551615");
}
