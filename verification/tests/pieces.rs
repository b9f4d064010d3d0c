use dbc::format::{format_number, parse_number, NumberFormat};
use dbc::lexer::{stock_symbols, tokenize, tokenize_with_prices, Quote, Token};
use dbc::number::Num;
use dbc::rpn::{evaluate_rpn, to_rpn};
use dbc::value::Value;

fn units(v: &Value) -> u128 {
    match v {
        Value::Finite(n) => n.units().unwrap(),
        _ => panic!("not a finite number"),
    }
}

fn negative(v: &Value) -> bool {
    match v {
        Value::Finite(n) => n.is_negative(),
        Value::Infinite(negative) => *negative,
        Value::NaN => false,
    }
}

fn num(whole: u128) -> Num {
    Num::from_units(false, whole * 1_000_000_000)
}

fn number(whole: u128) -> Token {
    Token::Number(Value::Finite(num(whole)))
}

fn describe(tokens: &[Token]) -> String {
    let mut out = String::new();
    for t in tokens {
        match t {
            Token::Number(n) => out.push_str(&format!("{} ", units(n) / 1_000_000_000)),
            Token::Operator(c) => out.push_str(&format!("{} ", c)),
            Token::Function(f) => out.push_str(&format!("{} ", f)),
            Token::LeftParen => out.push_str("( "),
            Token::RightParen => out.push_str(") "),
            Token::Comma => out.push_str(", "),
        }
    }
    out
}

#[test]
fn tokens_of_an_expression() {
    let tokens = tokenize(" Max($1,000, 2)*3% ").unwrap();
    assert_eq!(describe(&tokens), "max ( 1000 , 2 ) * 0 ");
    match &tokens[7] {
        Token::Number(n) => assert_eq!(units(n), 30_000_000),
        _ => panic!("not a number"),
    }
    // a comma before more or fewer than three digits separates arguments
    let tokens = tokenize("max(1,2)").unwrap();
    assert_eq!(describe(&tokens), "max ( 1 , 2 ) ");
    let tokens = tokenize("1,2345").unwrap();
    assert_eq!(describe(&tokens), "1 , 2345 ");
    assert_eq!(tokenize("\u{A0}7\t").map(|t| t.len()), Ok(1));
    assert_eq!(tokenize("é").map(|t| t.len()), Ok(1));
    assert!(tokenize("1 & 2").is_err());
}

#[test]
fn shunting_yard() {
    let rpn = to_rpn(tokenize("(1 + 2) * 3").unwrap()).unwrap();
    assert_eq!(describe(&rpn), "1 2 + 3 * ");
    let rpn = to_rpn(tokenize("1 + 2 * 3").unwrap()).unwrap();
    assert_eq!(describe(&rpn), "1 2 3 * + ");
    let rpn = to_rpn(tokenize("sqrt(pow(3, 2) + pow(4, 2))").unwrap()).unwrap();
    assert_eq!(describe(&rpn), "3 2 pow 4 2 pow + sqrt ");
    // brackets are dropped, every other token is kept, numbers in order
    let input = tokenize("max(1, (2 - 3) * 4) / 5").unwrap();
    let rpn = to_rpn(input).unwrap();
    assert_eq!(rpn.len(), 9);
    assert_eq!(describe(&rpn), "1 2 3 - 4 * max 5 / ");
}

#[test]
fn stack_evaluation() {
    let v = evaluate_rpn(vec![number(6), number(7), Token::Operator('*')]).unwrap();
    assert_eq!(units(&v), 42_000_000_000);
    // a remainder by zero is not a number, and stays so through an operator
    let v = evaluate_rpn(vec![number(1), number(0), Token::Operator('%')]).unwrap();
    assert!(matches!(v, Value::NaN));
    let v = evaluate_rpn(vec![
        number(1),
        number(0),
        Token::Operator('%'),
        number(2),
        Token::Operator('+'),
    ])
    .unwrap();
    assert!(matches!(v, Value::NaN));
    // max and min let "not a number" give way
    let v = evaluate_rpn(vec![
        number(1),
        number(0),
        Token::Operator('%'),
        number(2),
        Token::Function("max".to_string()),
    ])
    .unwrap();
    assert_eq!(units(&v), 2_000_000_000);
    let v = evaluate_rpn(vec![Token::Number(Value::Finite(Num::from_units(true, 1_000_000_000))), Token::Function("sqrt".to_string())])
        .unwrap();
    assert!(matches!(v, Value::NaN));
    assert_eq!(
        evaluate_rpn(vec![number(1), number(0), Token::Operator('/')]).unwrap_err(),
        "Division by zero"
    );
    assert_eq!(
        evaluate_rpn(vec![Token::LeftParen]).unwrap_err(),
        "Unexpected token during evaluation"
    );
    assert_eq!(
        evaluate_rpn(vec![number(1), number(2), Token::Operator('^')]).unwrap_err(),
        "Unknown operator"
    );
    assert_eq!(evaluate_rpn(vec![]).unwrap_err(), "Invalid expression");
}

#[test]
fn writing_numbers() {
    let f = NumberFormat { has_dollar: true, has_commas: true, decimal_places: 2 };
    let v = Num::from_units(true, 1_234_567_005_000_000);
    assert_eq!(format_number(&Value::Finite(v), &f), "-$1,234,567.01");
    assert_eq!(format_number(&Value::NaN, &f), "$0.NaN");
    let f = NumberFormat { has_dollar: false, has_commas: false, decimal_places: 1 };
    assert_eq!(format_number(&Value::Finite(num(12)), &f), "12.0");
    let f = NumberFormat { has_dollar: false, has_commas: true, decimal_places: 0 };
    assert_eq!(format_number(&Value::Finite(num(999)), &f), "999");
    assert_eq!(format_number(&Value::Finite(num(1000)), &f), "1,000");
    assert_eq!(format_number(&Value::Finite(Num::zero()), &f), "0");
    assert_eq!(format_number(&Value::NaN, &f), "0");
    // every decimal place of the format is written, past the nine a number holds
    let f = NumberFormat { has_dollar: false, has_commas: false, decimal_places: 4 };
    let v = Num::from_units(false, 2_234_560_000);
    assert_eq!(format_number(&Value::Finite(v), &f), "2.2346");
    let f = NumberFormat { has_dollar: false, has_commas: false, decimal_places: 11 };
    let v = Num::from_units(false, 1_000_000_001);
    assert_eq!(format_number(&Value::Finite(v), &f), "1.00000000100");
    // the whole part is written as at most the largest 64-bit number
    let f = NumberFormat { has_dollar: false, has_commas: false, decimal_places: 0 };
    let v = Num::from_units(false, 18_446_744_073_709_551_615_900_000_000);
    assert_eq!(format_number(&Value::Finite(v), &f), "18446744073709551615");
}

#[test]
fn reading_numbers() {
    let (v, f) = parse_number(" $12.5 ").unwrap();
    assert_eq!(units(&v), 12_500_000_000);
    assert!(f.has_dollar && !f.has_commas);
    assert_eq!(f.decimal_places, 1);
    let (v, f) = parse_number(".25").unwrap();
    assert_eq!(units(&v), 250_000_000);
    assert_eq!(f.decimal_places, 2);
    let (v, _) = parse_number("1.0000000009").unwrap();
    assert_eq!(units(&v), 1_000_000_000);
    assert!(parse_number(".").is_none());
    assert!(parse_number("").is_none());
    assert!(parse_number("1.2.3").is_none());
    let (v, f) = parse_number("-5").unwrap();
    assert!(negative(&v) && units(&v) == 5_000_000_000);
    assert_eq!(f.decimal_places, 0);
    let (v, f) = parse_number("+$1,000.5").unwrap();
    assert!(!negative(&v) && units(&v) == 1_000_500_000_000);
    assert!(!f.has_dollar && f.has_commas);
    assert_eq!(f.decimal_places, 1);
    assert!(parse_number("-").is_none());
    assert!(parse_number("--5").is_none());
    // numbers past 2^64 read too; past 2^1024 they are infinite
    let (v, _) = parse_number("100000000000000000000").unwrap();
    assert!(matches!(v, Value::Finite(_)));
    assert_eq!(format_number(&v, &NumberFormat { has_dollar: false, has_commas: false, decimal_places: 0 }), "18446744073709551615");
    let huge = format!("1{}", "0".repeat(400));
    assert!(matches!(parse_number(&huge).unwrap().0, Value::Infinite(false)));
}

#[test]
fn arithmetic() {
    let a = Num::from_units(false, 2_500_000_000);
    let b = Num::from_units(true, 1_500_000_000);
    assert_eq!(a.add(&b).unwrap().units(), Some(1_000_000_000));
    assert!(a.sub(&b).unwrap().units() == Some(4_000_000_000));
    let p = a.mul(&b).unwrap();
    assert!(p.is_negative() && p.units() == Some(3_750_000_000));
    let q = a.div(&b).unwrap();
    assert!(q.is_negative() && q.units() == Some(1_666_666_666));
    let r = b.rem(&a);
    assert!(r.is_negative() && r.units() == Some(1_500_000_000));
    assert_eq!(num(16).sqrt().units(), Some(4_000_000_000));
    assert_eq!(num(10).pow(&num(3)).unwrap().units(), Some(1_000_000_000_000));
    assert_eq!(a.max(&b).units(), Some(2_500_000_000));
    assert!(a.min(&b).is_negative());
    assert!(b.abs().units() == Some(1_500_000_000) && !b.abs().is_negative());
    // numbers go past 128 bits, up to a whole part of 2^1024
    let big = num(10).pow(&num(100)).unwrap();
    assert!(big.units().is_none());
    let back = big.div(&num(10).pow(&num(99)).unwrap()).unwrap();
    assert_eq!(back.units(), Some(10_000_000_000));
    assert!(num(10).pow(&num(308)).is_ok());
    assert!(num(10).pow(&num(309)).is_err());
    // fractional exponents: to thirty binary places, each root truncated
    let half = Num::from_units(false, 500_000_000);
    assert_eq!(num(2).pow(&half).unwrap().units(), Some(1_414_213_562));
    let one_and_half = Num::from_units(false, 1_500_000_000);
    assert_eq!(num(4).pow(&one_and_half).unwrap().units(), Some(8_000_000_000));
    let minus_half = Num::from_units(true, 500_000_000);
    assert_eq!(num(4).pow(&minus_half).unwrap().units(), Some(500_000_000));
    assert!(b.pow(&half).is_err());
}

#[test]
fn written_values_read_back() {
    let formats = [
        NumberFormat { has_dollar: true, has_commas: true, decimal_places: 2 },
        NumberFormat { has_dollar: false, has_commas: true, decimal_places: 5 },
        NumberFormat { has_dollar: true, has_commas: false, decimal_places: 1 },
        NumberFormat { has_dollar: false, has_commas: false, decimal_places: 0 },
    ];
    let value = Num::from_units(false, 9_876_543_216_789_000);
    let expected = [9_876_543_220_000_000u128, 9_876_543_216_790_000, 9_876_543_200_000_000, 9_876_543_000_000_000];
    for (f, e) in formats.iter().zip(expected.iter()) {
        let written = format_number(&Value::Finite(value.copy()), f);
        let (back, _) = parse_number(&written).unwrap();
        assert_eq!(units(&back), *e, "{}", written);
    }
}

#[test]
fn marks_keep_value() {
    for (marked, plain) in [("$1,420,368.94", "1420368.94"), (" $5 ", "5"), ("-$1,000", "-1000")] {
        let (a, f) = parse_number(marked).unwrap();
        let (b, g) = parse_number(plain).unwrap();
        assert_eq!(units(&a), units(&b));
        assert_eq!(negative(&a), negative(&b));
        assert_eq!(f.decimal_places, g.decimal_places);
    }
    assert!(parse_number("$,").is_none() && parse_number("").is_none());
}

#[test]
fn stock_symbols_and_prices() {
    let symbols = stock_symbols(" $100 + $AAPL * $BTC-USD - $5 + sqrt($TSLA) ");
    assert_eq!(symbols, vec!["AAPL", "BTC-USD", "TSLA"]);
    assert!(stock_symbols("$AAPL-$TSLA").len() == 2);
    assert!(stock_symbols("1 + 2").is_empty());
    let quotes = vec![Quote { symbol: "AAPL".to_string(), price: Num::from_units(false, 187_500_000_000) }];
    let tokens = tokenize_with_prices("$AAPL * 2", &quotes).unwrap();
    match &tokens[0] {
        Token::Number(n) => assert_eq!(units(n), 187_500_000_000),
        _ => panic!("not a number"),
    }
    assert_eq!(
        tokenize_with_prices("$MSFT", &quotes).unwrap_err(),
        "Price data unavailable for 'MSFT'"
    );
    assert_eq!(tokenize("$AAPL").unwrap_err(), "Price data unavailable for 'AAPL'");
}

#[test]
fn written_values_parse_back() {
    let f = NumberFormat { has_dollar: true, has_commas: true, decimal_places: 2 };
    let value = Num::from_units(false, 9_876_543_216_800_000);
    let written = format_number(&Value::Finite(value), &f);
    assert_eq!(written, "$9,876,543.22");
    let (back, g) = parse_number(&written).unwrap();
    assert_eq!(units(&back), 9_876_543_220_000_000);
    assert!(g.has_dollar && g.has_commas);
    assert_eq!(g.decimal_places, 2);
    // separators are read back only from a whole part of four digits or more
    let small = Num::from_units(false, 12_500_000_000);
    let written = format_number(&Value::Finite(small.copy()), &f);
    assert_eq!(written, "$12.50");
    let (back, g) = parse_number(&written).unwrap();
    assert_eq!(units(&back), 12_500_000_000);
    assert!(g.has_dollar && !g.has_commas);
    assert_eq!(g.decimal_places, 2);
    // eleven places: the nine a number holds, then zeros
    let f = NumberFormat { has_dollar: false, has_commas: false, decimal_places: 11 };
    let written = format_number(&Value::Finite(small), &f);
    let (back, g) = parse_number(&written).unwrap();
    assert_eq!(units(&back), 12_500_000_000);
    assert_eq!(g.decimal_places, 11);
}

fn parsed(text: &str) -> Option<(bool, u128, usize)> {
    parse_number(text).map(|(v, f)| (negative(&v), units(&v), f.decimal_places))
}

fn parsed_value(text: &str) -> Value {
    parse_number(text).unwrap().0
}

#[test]
fn reading_exponents() {
    assert_eq!(parsed("1e5"), Some((false, 100_000_000_000_000, 0)));
    assert_eq!(parsed("1.5e3"), Some((false, 1_500_000_000_000, 3)));
    assert_eq!(parsed("1E+2"), Some((false, 100_000_000_000, 0)));
    assert_eq!(parsed("2E-3"), Some((false, 2_000_000, 0)));
    assert_eq!(parsed("-1.25e-1"), Some((true, 125_000_000, 5)));
    assert_eq!(parsed("123.456e1"), Some((false, 1_234_560_000_000, 5)));
    assert_eq!(parsed("1.5e0"), Some((false, 1_500_000_000, 3)));
    assert_eq!(parsed("1.0000000001e1"), Some((false, 10_000_000_001, 12)));
    assert_eq!(parsed("5e-9"), Some((false, 5, 0)));
    assert_eq!(parsed("5e-10"), Some((false, 0, 0)));
    assert_eq!(parsed("1e-999999999999999999999"), Some((false, 0, 0)));
    assert_eq!(parsed("0e999999999999999999999"), Some((false, 0, 0)));
    assert_eq!(parsed(".5e1"), Some((false, 5_000_000_000, 3)));
    assert_eq!(parsed("5.e1"), Some((false, 50_000_000_000, 2)));
    assert!(matches!(parsed_value("1e999999999999999999999"), Value::Infinite(false)));
    assert!(matches!(parsed_value("-1e400"), Value::Infinite(true)));
    assert!(matches!(parsed_value("1e20"), Value::Finite(_)));
    assert_eq!(parsed("1e19"), Some((false, 10_000_000_000_000_000_000_000_000_000, 0)));
    assert!(parsed("1e").is_none());
    assert!(parsed("e5").is_none());
    assert!(parsed("1e5.0").is_none());
    assert!(parsed("1e-").is_none());
    assert!(parse_number("info").is_none());
    assert!(parse_number("in").is_none());
}

#[test]
fn reading_infinity_and_nan() {
    for text in ["inf", "INF", "Infinity", "+inf", "$inf"] {
        assert!(matches!(parsed_value(text), Value::Infinite(false)), "{}", text);
    }
    assert!(matches!(parsed_value("-infinity"), Value::Infinite(true)));
    for text in ["nan", "NaN", "-nan"] {
        assert!(matches!(parsed_value(text), Value::NaN), "{}", text);
    }
    assert_eq!(parse_number("inf").unwrap().1.decimal_places, 0);
}
