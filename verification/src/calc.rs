//! Evaluating an expression and writing its value in the format of its
//! first number.
use vstd::prelude::*;
use crate::lexer::{quote_views, tokenize_chars, tokens_of, Quote};
use crate::rpn::{evaluate_rpn, rpn_of, to_rpn, value_of};
use crate::format::{detect_format, expression_format, format_number, formatted};
use crate::text::{chars_of, message, trim, trim_chars};

verus! {

/// The result of an expression, with the stock prices `q`: the value of its
/// tokens in reverse Polish notation, written in the format of its first
/// number; or the first error.
pub open spec fn evaluation_with(input: Seq<char>, q: Seq<(Seq<char>, int)>) -> Result<Seq<char>, Seq<char>> {
    let t = trim(input);
    match tokens_of(t, q) {
        Err(e) => Err(e),
        Ok(toks) => if toks.len() == 0 {
            Err("Empty expression"@)
        } else {
            match rpn_of(toks) {
                Err(e) => Err(e),
                Ok(r) => match value_of(r) {
                    Err(e) => Err(e),
                    Ok(v) => Ok(formatted(v, expression_format(t))),
                },
            }
        },
    }
}

/// The result of an expression when no stock price is known.
pub open spec fn evaluation(input: Seq<char>) -> Result<Seq<char>, Seq<char>> {
    evaluation_with(input, Seq::empty())
}

/// Evaluates an expression and returns its formatted result; a stock
/// symbol is an error, as no price is known.
pub fn evaluate(input: &str) -> (r: Result<String, String>)
    ensures
        match r {
            Ok(s) => evaluation(input@) == Ok::<Seq<char>, Seq<char>>(s@),
            Err(e) => evaluation(input@) == Err::<Seq<char>, Seq<char>>(e@),
        },
{
    let quotes: Vec<Quote> = Vec::new();
    assert(quote_views(quotes@) =~= Seq::<(Seq<char>, int)>::empty());
    evaluate_with_prices(input, &quotes)
}

/// Evaluates an expression in which a stock symbol stands for its price
/// among `quotes`, and returns its formatted result.
pub fn evaluate_with_prices(input: &str, quotes: &Vec<Quote>) -> (r: Result<String, String>)
    ensures
        match r {
            Ok(s) => evaluation_with(input@, quote_views(quotes@)) == Ok::<Seq<char>, Seq<char>>(s@),
            Err(e) => evaluation_with(input@, quote_views(quotes@)) == Err::<Seq<char>, Seq<char>>(e@),
        },
{
    let v = chars_of(input);
    evaluate_chars(&v, quotes)
}

/// `evaluate_with_prices` on characters.
pub fn evaluate_chars(input: &Vec<char>, quotes: &Vec<Quote>) -> (r: Result<String, String>)
    ensures
        match r {
            Ok(s) => evaluation_with(input@, quote_views(quotes@)) == Ok::<Seq<char>, Seq<char>>(s@),
            Err(e) => evaluation_with(input@, quote_views(quotes@)) == Err::<Seq<char>, Seq<char>>(e@),
        },
{
    let t = trim_chars(input);
    let tokens = match tokenize_chars(&t, quotes) {
        Ok(tokens) => tokens,
        Err(e) => {
            return Err(e);
        },
    };
    if tokens.len() == 0 {
        let e = message("Empty expression", &Vec::new());
        assert(e@ =~= "Empty expression"@);
        return Err(e);
    }
    let rpn = match to_rpn(tokens) {
        Ok(rpn) => rpn,
        Err(e) => {
            return Err(e);
        },
    };
    let format = detect_format(&t);
    let value = match evaluate_rpn(rpn) {
        Ok(value) => value,
        Err(e) => {
            return Err(e);
        },
    };
    Ok(format_number(&value, &format))
}

} // verus!
