//! Splitting an expression into tokens.
use vstd::prelude::*;
use crate::number::{fits, Num};
use crate::value::{SpecValue, Value};
use crate::natural::{div_small, lemma_value_nonneg, value};
use crate::text::{
    alphabetic, alphanumeric, ascii_letter, chars_of, digit, is_alphabetic, is_alphanumeric,
    is_ascii_digit, is_ascii_letter, is_whitespace, lowercase, message, push_char, same_chars,
    string_of, to_lowercase, trim, trim_chars, whitespace,
};
use crate::literal::{
    decimal_syntax, decimal_value, is_decimal_syntax, lemma_literal_value_nonneg, literal_value,
};

verus! {

/// A token of an expression.
#[derive(Debug)]
pub enum Token {
    Number(Value),
    Operator(char),
    Function(String),
    LeftParen,
    RightParen,
    Comma,
}

/// A token as the contracts see it: numbers by their value in units.
pub enum SpecToken {
    Number(SpecValue),
    Operator(char),
    Function(Seq<char>),
    LeftParen,
    RightParen,
    Comma,
}

impl View for Token {
    type V = SpecToken;

    open spec fn view(&self) -> SpecToken {
        match self {
            Token::Number(n) => SpecToken::Number(n@),
            Token::Operator(c) => SpecToken::Operator(*c),
            Token::Function(s) => SpecToken::Function(s@),
            Token::LeftParen => SpecToken::LeftParen,
            Token::RightParen => SpecToken::RightParen,
            Token::Comma => SpecToken::Comma,
        }
    }
}

/// The views of a sequence of tokens.
pub open spec fn views(t: Seq<Token>) -> Seq<SpecToken> {
    t.map_values(|x: Token| x@)
}

/// The price of a stock symbol, known to the evaluation.
#[derive(Debug)]
pub struct Quote {
    pub symbol: String,
    pub price: Num,
}

impl View for Quote {
    type V = (Seq<char>, int);

    open spec fn view(&self) -> (Seq<char>, int) {
        (self.symbol@, self.price@)
    }
}

/// The views of a list of quotes.
pub open spec fn quote_views(q: Seq<Quote>) -> Seq<(Seq<char>, int)> {
    q.map_values(|x: Quote| x@)
}

/// The price of the first quote of `sym`, if any.
pub open spec fn price_of(q: Seq<(Seq<char>, int)>, sym: Seq<char>) -> Option<int>
    decreases q.len(),
{
    if q.len() == 0 {
        None
    } else if q[0].0 == sym {
        Some(q[0].1)
    } else {
        price_of(q.skip(1), sym)
    }
}

/// A stock symbol starts at `i`: a `$` before an ASCII letter.
pub open spec fn starts_symbol(s: Seq<char>, i: int) -> bool {
    s[i] == '$' && i + 1 < s.len() && ascii_letter(s[i + 1])
}

/// A character that goes on in a stock symbol: an ASCII letter or digit,
/// or a `.` or `-` before an ASCII letter.
pub open spec fn symbol_char(s: Seq<char>, i: int) -> bool {
    ||| ascii_letter(s[i])
    ||| digit(s[i])
    ||| ((s[i] == '.' || s[i] == '-') && i + 1 < s.len() && ascii_letter(s[i + 1]))
}

/// Where a stock symbol that goes on at `i` ends.
pub open spec fn symbol_end(s: Seq<char>, i: int) -> int
    decreases s.len() - i,
{
    if i >= s.len() {
        s.len() as int
    } else if symbol_char(s, i) {
        symbol_end(s, i + 1)
    } else {
        i
    }
}

/// The error for a stock symbol whose price is not known.
pub open spec fn unpriced(sym: Seq<char>) -> Seq<char> {
    "Price data unavailable for '"@ + sym + "'"@
}

/// A number starts at `i`: a digit, a `$`, or a point before a digit.
pub open spec fn starts_number(s: Seq<char>, i: int) -> bool {
    ||| digit(s[i])
    ||| s[i] == '$'
    ||| (s[i] == '.' && i + 1 < s.len() && digit(s[i + 1]))
}

/// The comma at `i` separates thousands: exactly three digits follow it.
pub open spec fn thousands_at(s: Seq<char>, i: int) -> bool {
    &&& i + 3 < s.len()
    &&& digit(s[i + 1])
    &&& digit(s[i + 2])
    &&& digit(s[i + 3])
    &&& (i + 4 == s.len() || !digit(s[i + 4]))
}

/// Where the text of a number that goes on at `i` ends: digits, points,
/// `$` and thousands separators go on; a `%` ends it and belongs to it.
pub open spec fn number_end(s: Seq<char>, i: int) -> int
    decreases s.len() - i,
{
    if i >= s.len() {
        s.len() as int
    } else if digit(s[i]) || s[i] == '.' || s[i] == '$' {
        number_end(s, i + 1)
    } else if s[i] == ',' && thousands_at(s, i) {
        number_end(s, i + 1)
    } else if s[i] == '%' {
        i + 1
    } else {
        i
    }
}

/// Where a name that goes on at `i` ends.
pub open spec fn name_end(s: Seq<char>, i: int) -> int
    decreases s.len() - i,
{
    if i >= s.len() {
        s.len() as int
    } else if alphanumeric(s[i]) || s[i] == '_' {
        name_end(s, i + 1)
    } else {
        i
    }
}

/// The text holds a digit or a point.
pub open spec fn has_digit(t: Seq<char>) -> bool {
    exists|k: int| 0 <= k < t.len() && (digit(#[trigger] t[k]) || t[k] == '.')
}

/// The text without `$` and `,`.
pub open spec fn unmarked(t: Seq<char>) -> Seq<char>
    decreases t.len(),
{
    if t.len() == 0 {
        t
    } else if t.last() == '$' || t.last() == ',' {
        unmarked(t.drop_last())
    } else {
        unmarked(t.drop_last()).push(t.last())
    }
}

/// The value of the text of a number, or the error it gives; one too large
/// to hold is infinite.
pub open spec fn number_literal(t: Seq<char>) -> Result<SpecValue, Seq<char>> {
    if !has_digit(t) {
        Err("Invalid number"@)
    } else {
        let c = unmarked(t);
        let percent = c.len() > 0 && c.last() == '%';
        let body = if percent { c.drop_last() } else { c };
        if !decimal_syntax(body) {
            Err("Invalid number"@)
        } else if !fits(literal_value(body)) {
            Ok(SpecValue::Infinite(false))
        } else if percent {
            Ok(SpecValue::Finite(literal_value(body) / 100))
        } else {
            Ok(SpecValue::Finite(literal_value(body)))
        }
    }
}

/// One character that is an operator.
pub open spec fn operator_char(c: char) -> bool {
    c == '+' || c == '-' || c == '*' || c == '/' || c == '%'
}

/// `r` with `t` in front when it is a list of tokens.
pub open spec fn prepend(t: Seq<SpecToken>, r: Result<Seq<SpecToken>, Seq<char>>) -> Result<
    Seq<SpecToken>,
    Seq<char>,
> {
    match r {
        Ok(rest) => Ok(t + rest),
        Err(e) => Err(e),
    }
}

pub proof fn lemma_number_end_ge(s: Seq<char>, i: int)
    requires
        0 <= i <= s.len(),
    ensures
        i <= number_end(s, i) <= s.len(),
    decreases s.len() - i,
{
    if i < s.len() {
        lemma_number_end_ge(s, i + 1);
    }
}

pub proof fn lemma_symbol_end_ge(s: Seq<char>, i: int)
    requires
        0 <= i <= s.len(),
    ensures
        i <= symbol_end(s, i) <= s.len(),
    decreases s.len() - i,
{
    if i < s.len() {
        lemma_symbol_end_ge(s, i + 1);
    }
}

pub proof fn lemma_name_end_ge(s: Seq<char>, i: int)
    requires
        0 <= i <= s.len(),
    ensures
        i <= name_end(s, i) <= s.len(),
    decreases s.len() - i,
{
    if i < s.len() {
        lemma_name_end_ge(s, i + 1);
    }
}

/// The tokens of `s` from position `i` on, or the first error met; a stock
/// symbol reads as its price in `q`.
pub open spec fn lex(s: Seq<char>, i: int, q: Seq<(Seq<char>, int)>) -> Result<Seq<SpecToken>, Seq<char>>
    decreases s.len() - i,
{
    if i < 0 || i >= s.len() {
        Ok(Seq::empty())
    } else {
        let c = s[i];
        if whitespace(c) {
            lex(s, i + 1, q)
        } else if starts_symbol(s, i) {
            let j = symbol_end(s, i + 2);
            proof {
                lemma_symbol_end_ge(s, i + 2);
            }
            match price_of(q, s.subrange(i + 1, j)) {
                None => Err(unpriced(s.subrange(i + 1, j))),
                Some(p) => prepend(seq![SpecToken::Number(SpecValue::Finite(p))], lex(s, j, q)),
            }
        } else if starts_number(s, i) {
            let j = number_end(s, i + 1);
            proof {
                lemma_number_end_ge(s, i + 1);
            }
            match number_literal(s.subrange(i, j)) {
                Err(e) => Err(e),
                Ok(v) => prepend(seq![SpecToken::Number(v)], lex(s, j, q)),
            }
        } else if alphabetic(c) {
            let j = name_end(s, i + 1);
            proof {
                lemma_name_end_ge(s, i + 1);
            }
            prepend(seq![SpecToken::Function(lowercase(s.subrange(i, j)))], lex(s, j, q))
        } else if operator_char(c) {
            prepend(seq![SpecToken::Operator(c)], lex(s, i + 1, q))
        } else if c == '(' {
            prepend(seq![SpecToken::LeftParen], lex(s, i + 1, q))
        } else if c == ')' {
            prepend(seq![SpecToken::RightParen], lex(s, i + 1, q))
        } else if c == ',' {
            prepend(seq![SpecToken::Comma], lex(s, i + 1, q))
        } else {
            Err("Unexpected character: "@ + seq![c])
        }
    }
}

/// The tokens of an expression: those of its trimmed text.
pub open spec fn tokens_of(input: Seq<char>, q: Seq<(Seq<char>, int)>) -> Result<Seq<SpecToken>, Seq<char>> {
    lex(trim(input), 0, q)
}

proof fn lemma_prepend_assoc(a: Seq<SpecToken>, b: Seq<SpecToken>, r: Result<Seq<SpecToken>, Seq<char>>)
    ensures
        prepend(a, prepend(b, r)) == prepend(a + b, r),
{
    match r {
        Ok(rest) => {
            assert(a + (b + rest) =~= (a + b) + rest);
        },
        Err(e) => {},
    }
}

/// Reads the number whose text starts at `start`.
fn read_number(s: &Vec<char>, start: usize) -> (r: Result<(Value, usize), String>)
    requires
        start < s.len(),
        starts_number(s@, start as int),
    ensures
        match r {
            Ok((v, j)) => j as int == number_end(s@, start + 1) && number_literal(
                s@.subrange(start as int, j as int),
            ) == Ok::<SpecValue, Seq<char>>(v@),
            Err(e) => number_literal(s@.subrange(start as int, number_end(s@, start + 1))) == Err::<
                SpecValue,
                Seq<char>,
            >(e@),
        },
{
    let mut i: usize = start;
    let mut text: Vec<char> = Vec::new();
    // the first character always belongs to the number
    text.push(s[i]);
    let mut digits = is_ascii_digit(s[i]) || s[i] == '.';
    i = i + 1;
    assert(text@ =~= s@.subrange(start as int, i as int));
    assert(digits == has_digit(text@)) by {
        if digits {
            assert(digit(text@[0]) || text@[0] == '.');
        }
    }
    loop
        invariant_except_break
            start < i <= s.len(),
            text@ == s@.subrange(start as int, i as int),
            digits == has_digit(text@),
            number_end(s@, i as int) == number_end(s@, start + 1),
        ensures
            start < i <= s.len(),
            text@ == s@.subrange(start as int, i as int),
            digits == has_digit(text@),
            i as int == number_end(s@, start + 1),
        decreases s.len() - i,
    {
        if i >= s.len() {
            break;
        }
        let ch = s[i];
        let ghost old_text = text@;
        if is_ascii_digit(ch) || ch == '.' || ch == '$' {
            text.push(ch);
            if is_ascii_digit(ch) || ch == '.' {
                digits = true;
            }
        } else if ch == ',' {
            let thousands = s.len() - i > 3 && is_ascii_digit(s[i + 1]) && is_ascii_digit(s[i + 2])
                && is_ascii_digit(s[i + 3]) && (i + 4 == s.len() || !is_ascii_digit(s[i + 4]));
            if thousands {
                text.push(ch);
            } else {
                break;
            }
        } else if ch == '%' {
            text.push(ch);
            i = i + 1;
            proof {
                assert(text@ =~= s@.subrange(start as int, i as int));
                assert(has_digit(text@) == has_digit(old_text)) by {
                    if has_digit(old_text) {
                        let k = choose|k: int| 0 <= k < old_text.len() && (digit(#[trigger] old_text[k]) || old_text[k] == '.');
                        assert(text@[k] == old_text[k]);
                    }
                    if has_digit(text@) {
                        let k = choose|k: int| 0 <= k < text@.len() && (digit(#[trigger] text@[k]) || text@[k] == '.');
                        assert(k < old_text.len());
                        assert(text@[k] == old_text[k]);
                    }
                }
            }
            break;
        } else {
            break;
        }
        i = i + 1;
        proof {
            assert(text@ =~= s@.subrange(start as int, i as int));
            assert(old_text == text@.drop_last());
            assert(digits == has_digit(text@)) by {
                let last = text@.len() - 1;
                if has_digit(old_text) {
                    let k = choose|k: int| 0 <= k < old_text.len() && (digit(#[trigger] old_text[k]) || old_text[k] == '.');
                    assert(text@[k] == old_text[k]);
                }
                if digit(text@[last]) || text@[last] == '.' {
                    assert(has_digit(text@));
                }
                if has_digit(text@) {
                    let k = choose|k: int| 0 <= k < text@.len() && (digit(#[trigger] text@[k]) || text@[k] == '.');
                    if k < last {
                        assert(text@[k] == old_text[k]);
                    }
                }
            }
        }
    }
    let lit = read_literal(&text, digits);
    match lit {
        Ok(v) => Ok((v, i)),
        Err(e) => Err(e),
    }
}

/// The value of the text of a number; `digits` tells whether it holds a
/// digit or a point.
fn read_literal(text: &Vec<char>, digits: bool) -> (r: Result<Value, String>)
    requires
        digits == has_digit(text@),
    ensures
        match r {
            Ok(v) => number_literal(text@) == Ok::<SpecValue, Seq<char>>(v@),
            Err(e) => number_literal(text@) == Err::<SpecValue, Seq<char>>(e@),
        },
{
    if !digits {
        return Err(message("Invalid number", &Vec::new()));
    }
    let mut c: Vec<char> = Vec::new();
    let mut k: usize = 0;
    while k < text.len()
        invariant
            k <= text.len(),
            c@ == unmarked(text@.take(k as int)),
        decreases text.len() - k,
    {
        assert(text@.take(k + 1).drop_last() =~= text@.take(k as int));
        if text[k] != '$' && text[k] != ',' {
            c.push(text[k]);
        }
        k = k + 1;
    }
    assert(text@.take(text.len() as int) =~= text@);
    let percent = c.len() > 0 && c[c.len() - 1] == '%';
    if percent {
        c.pop();
    }
    proof {
        let full = unmarked(text@);
        if percent {
            assert(c@ =~= full.drop_last());
        }
    }
    if !is_decimal_syntax(&c) {
        return Err(message("Invalid number", &Vec::new()));
    }
    proof {
        lemma_literal_value_nonneg(c@);
    }
    match decimal_value(&c) {
        None => Ok(Value::Infinite(false)),
        Some(v) => {
            if percent {
                let m = v.magnitude_limbs();
                let (q, rest) = div_small(&m, 100);
                proof {
                    lemma_value_nonneg(q@, 0);
                    vstd::arithmetic::div_mod::lemma_fundamental_div_mod_converse(
                        value(m@),
                        100,
                        value(q@),
                        rest as int,
                    );
                }
                match Num::from_limbs(false, q) {
                    Some(n) => Ok(Value::Finite(n)),
                    None => Ok(Value::Infinite(false)),
                }
            } else {
                Ok(Value::Finite(v))
            }
        },
    }
}

/// Where a stock symbol that goes on at `i` ends (see `symbol_end`).
fn symbol_end_of(s: &Vec<char>, i: usize) -> (r: usize)
    requires
        i <= s.len(),
    ensures
        r as int == symbol_end(s@, i as int),
        i <= r <= s.len(),
{
    let mut j = i;
    while j < s.len() && (is_ascii_letter(s[j]) || is_ascii_digit(s[j]) || ((s[j] == '.' || s[j] == '-')
        && j + 1 < s.len() && is_ascii_letter(s[j + 1])))
        invariant
            i <= j <= s.len(),
            symbol_end(s@, j as int) == symbol_end(s@, i as int),
        decreases s.len() - j,
    {
        j = j + 1;
    }
    j
}

/// Where a number that goes on at `i` ends (see `number_end`).
pub(crate) fn number_end_of(s: &Vec<char>, i: usize) -> (r: usize)
    requires
        i <= s.len(),
    ensures
        r as int == number_end(s@, i as int),
        i <= r <= s.len(),
{
    let mut j = i;
    loop
        invariant
            i <= j <= s.len(),
            number_end(s@, j as int) == number_end(s@, i as int),
        decreases s.len() - j,
    {
        if j >= s.len() {
            return j;
        }
        let ch = s[j];
        if is_ascii_digit(ch) || ch == '.' || ch == '$' {
            j = j + 1;
        } else if ch == ',' && s.len() - j > 3 && is_ascii_digit(s[j + 1]) && is_ascii_digit(s[j + 2])
            && is_ascii_digit(s[j + 3]) && (j + 4 == s.len() || !is_ascii_digit(s[j + 4])) {
            j = j + 1;
        } else if ch == '%' {
            return j + 1;
        } else {
            return j;
        }
    }
}

/// Where a name that goes on at `i` ends (see `name_end`).
fn name_end_of(s: &Vec<char>, i: usize) -> (r: usize)
    requires
        i <= s.len(),
    ensures
        r as int == name_end(s@, i as int),
        i <= r <= s.len(),
{
    let mut j = i;
    while j < s.len() && (is_alphanumeric(s[j]) || s[j] == '_')
        invariant
            i <= j <= s.len(),
            name_end(s@, j as int) == name_end(s@, i as int),
        decreases s.len() - j,
    {
        j = j + 1;
    }
    j
}

/// The characters of `s` from `i` up to `j`.
pub(crate) fn chars_between(s: &Vec<char>, i: usize, j: usize) -> (r: Vec<char>)
    requires
        i <= j <= s.len(),
    ensures
        r@ == s@.subrange(i as int, j as int),
{
    let mut out: Vec<char> = Vec::new();
    let mut k = i;
    while k < j
        invariant
            i <= k <= j <= s.len(),
            out@ == s@.subrange(i as int, k as int),
        decreases j - k,
    {
        out.push(s[k]);
        k = k + 1;
        assert(out@ =~= s@.subrange(i as int, k as int));
    }
    out
}

/// The price of the first quote of `sym` (see `price_of`).
pub fn find_price(quotes: &Vec<Quote>, sym: &Vec<char>) -> (r: Option<Num>)
    ensures
        match r {
            Some(p) => price_of(quote_views(quotes@), sym@) == Some(p@),
            None => price_of(quote_views(quotes@), sym@) is None,
        },
{
    let ghost q = quote_views(quotes@);
    let mut k: usize = 0;
    assert(q.skip(0) =~= q);
    while k < quotes.len()
        invariant
            k <= quotes.len(),
            q == quote_views(quotes@),
            price_of(q.skip(k as int), sym@) == price_of(q, sym@),
        decreases quotes.len() - k,
    {
        let name = chars_of(quotes[k].symbol.as_str());
        assert(q.skip(k as int)[0] == quotes@[k as int]@);
        if same_chars(&name, sym) {
            return Some(quotes[k].price.copy());
        }
        assert(q.skip(k as int).skip(1) =~= q.skip(k + 1));
        k = k + 1;
    }
    None
}

/// Splits an expression, without its leading and trailing whitespace,
/// into tokens; the error names what could not be read. No stock price is
/// known here: a stock symbol is an error.
pub fn tokenize(input: &str) -> (r: Result<Vec<Token>, String>)
    ensures
        match r {
            Ok(t) => tokens_of(input@, Seq::empty()) == Ok::<Seq<SpecToken>, Seq<char>>(views(t@)),
            Err(e) => tokens_of(input@, Seq::empty()) == Err::<Seq<SpecToken>, Seq<char>>(e@),
        },
{
    let v = chars_of(input);
    let quotes: Vec<Quote> = Vec::new();
    assert(quote_views(quotes@) =~= Seq::<(Seq<char>, int)>::empty());
    tokenize_chars(&v, &quotes)
}

/// `tokenize`, where a stock symbol reads as its price among `quotes`.
pub fn tokenize_with_prices(input: &str, quotes: &Vec<Quote>) -> (r: Result<Vec<Token>, String>)
    ensures
        match r {
            Ok(t) => tokens_of(input@, quote_views(quotes@)) == Ok::<Seq<SpecToken>, Seq<char>>(views(t@)),
            Err(e) => tokens_of(input@, quote_views(quotes@)) == Err::<Seq<SpecToken>, Seq<char>>(e@),
        },
{
    let v = chars_of(input);
    tokenize_chars(&v, quotes)
}

/// `tokenize_with_prices` on the characters of an expression.
pub fn tokenize_chars(input: &Vec<char>, quotes: &Vec<Quote>) -> (r: Result<Vec<Token>, String>)
    ensures
        match r {
            Ok(t) => tokens_of(input@, quote_views(quotes@)) == Ok::<Seq<SpecToken>, Seq<char>>(views(t@)),
            Err(e) => tokens_of(input@, quote_views(quotes@)) == Err::<Seq<SpecToken>, Seq<char>>(e@),
        },
{
    let ghost q = quote_views(quotes@);
    let s = trim_chars(input);
    let mut tokens: Vec<Token> = Vec::new();
    let mut i: usize = 0;
    assert(views(tokens@) =~= Seq::<SpecToken>::empty());
    assert(Seq::<SpecToken>::empty() + Seq::<SpecToken>::empty() =~= Seq::<SpecToken>::empty());
    while i < s.len()
        invariant
            i <= s.len(),
            s@ == trim(input@),
            q == quote_views(quotes@),
            prepend(views(tokens@), lex(s@, i as int, q)) == lex(s@, 0, q),
        decreases s.len() - i,
    {
        let c = s[i];
        let ghost before = views(tokens@);
        if is_whitespace(c) {
            i = i + 1;
            continue;
        }
        if c == '$' && i + 1 < s.len() && is_ascii_letter(s[i + 1]) {
            let j = symbol_end_of(&s, i + 2);
            let sym = chars_between(&s, i + 1, j);
            match find_price(quotes, &sym) {
                None => {
                    let mut e = message("Price data unavailable for '", &sym);
                    push_char(&mut e, '\'');
                    proof {
                        reveal_strlit("'");
                        assert(e@ =~= unpriced(sym@));
                    }
                    return Err(e);
                },
                Some(p) => {
                    proof {
                        lemma_prepend_assoc(
                            before,
                            seq![SpecToken::Number(SpecValue::Finite(p@))],
                            lex(s@, j as int, q),
                        );
                    }
                    tokens.push(Token::Number(Value::Finite(p)));
                    assert(views(tokens@) =~= before + seq![SpecToken::Number(SpecValue::Finite(p@))]);
                    i = j;
                },
            }
            continue;
        }
        if is_ascii_digit(c) || c == '$' || (c == '.' && i + 1 < s.len() && is_ascii_digit(s[i + 1])) {
            match read_number(&s, i) {
                Err(e) => {
                    return Err(e);
                },
                Ok((v, j)) => {
                    proof {
                        lemma_number_end_ge(s@, i + 1);
                        lemma_prepend_assoc(before, seq![SpecToken::Number(v@)], lex(s@, j as int, q));
                    }
                    tokens.push(Token::Number(v));
                    assert(views(tokens@) =~= before + seq![SpecToken::Number(v@)]);
                    i = j;
                },
            }
            continue;
        }
        if is_alphabetic(c) {
            let start = i;
            let first = is_alphanumeric(s[i]);
            assert(first);
            i = name_end_of(&s, i + 1);
            let name = chars_between(&s, start, i);
            let lower = to_lowercase(&string_of(&name));
            proof {
                lemma_prepend_assoc(
                    before,
                    seq![SpecToken::Function(lowercase(s@.subrange(start as int, i as int)))],
                    lex(s@, i as int, q),
                );
            }
            tokens.push(Token::Function(lower));
            assert(views(tokens@) =~= before + seq![
                SpecToken::Function(lowercase(s@.subrange(start as int, i as int))),
            ]);
            continue;
        }
        let t = if c == '+' || c == '-' || c == '*' || c == '/' || c == '%' {
            Token::Operator(c)
        } else if c == '(' {
            Token::LeftParen
        } else if c == ')' {
            Token::RightParen
        } else if c == ',' {
            Token::Comma
        } else {
            let mut tail: Vec<char> = Vec::new();
            tail.push(c);
            assert(tail@ =~= seq![c]);
            return Err(message("Unexpected character: ", &tail));
        };
        proof {
            lemma_prepend_assoc(before, seq![t@], lex(s@, i + 1, q));
        }
        tokens.push(t);
        assert(views(tokens@) =~= before + seq![t@]);
        i = i + 1;
    }
    assert(lex(s@, i as int, q) == Ok::<Seq<SpecToken>, Seq<char>>(Seq::empty()));
    assert(views(tokens@) + Seq::<SpecToken>::empty() =~= views(tokens@));
    Ok(tokens)
}

/// Where the first number or stock symbol met from position `i` on starts,
/// as the lexer walks the text.
pub open spec fn first_number_at(s: Seq<char>, i: int) -> Option<int>
    decreases s.len() - i,
{
    if i < 0 || i >= s.len() {
        None
    } else if whitespace(s[i]) {
        first_number_at(s, i + 1)
    } else if starts_number(s, i) {
        Some(i)
    } else if alphabetic(s[i]) {
        let j = name_end(s, i + 1);
        proof {
            lemma_name_end_ge(s, i + 1);
        }
        first_number_at(s, j)
    } else {
        first_number_at(s, i + 1)
    }
}

pub proof fn lemma_first_number_bound(s: Seq<char>, i: int)
    ensures
        first_number_at(s, i) matches Some(k) ==> 0 <= k < s.len() && starts_number(s, k),
    decreases s.len() - i,
{
    if 0 <= i < s.len() {
        if whitespace(s[i]) {
            lemma_first_number_bound(s, i + 1);
        } else if starts_number(s, i) {
        } else if alphabetic(s[i]) {
            lemma_name_end_ge(s, i + 1);
            lemma_first_number_bound(s, name_end(s, i + 1));
        } else {
            lemma_first_number_bound(s, i + 1);
        }
    }
}

/// The stock symbols of `s` from position `i` on, in order, as the lexer
/// walks the text.
pub open spec fn symbols_from(s: Seq<char>, i: int) -> Seq<Seq<char>>
    decreases s.len() - i,
{
    if i < 0 || i >= s.len() {
        Seq::empty()
    } else if whitespace(s[i]) {
        symbols_from(s, i + 1)
    } else if starts_symbol(s, i) {
        let j = symbol_end(s, i + 2);
        proof {
            lemma_symbol_end_ge(s, i + 2);
        }
        seq![s.subrange(i + 1, j)] + symbols_from(s, j)
    } else if starts_number(s, i) {
        let j = number_end(s, i + 1);
        proof {
            lemma_number_end_ge(s, i + 1);
        }
        symbols_from(s, j)
    } else if alphabetic(s[i]) {
        let j = name_end(s, i + 1);
        proof {
            lemma_name_end_ge(s, i + 1);
        }
        symbols_from(s, j)
    } else {
        symbols_from(s, i + 1)
    }
}

/// Where the first number or stock symbol of `s` starts (see
/// `first_number_at`).
pub fn first_number_start(s: &Vec<char>) -> (r: Option<usize>)
    ensures
        match r {
            Some(i) => first_number_at(s@, 0) == Some(i as int),
            None => first_number_at(s@, 0) is None,
        },
{
    let mut i: usize = 0;
    while i < s.len()
        invariant
            i <= s.len(),
            first_number_at(s@, i as int) == first_number_at(s@, 0),
        decreases s.len() - i,
    {
        let c = s[i];
        if is_whitespace(c) {
            i = i + 1;
        } else if is_ascii_digit(c) || c == '$' || (c == '.' && i + 1 < s.len() && is_ascii_digit(s[i + 1])) {
            return Some(i);
        } else if is_alphabetic(c) {
            i = name_end_of(s, i + 1);
        } else {
            i = i + 1;
        }
    }
    None
}

/// The stock symbols of an expression, in the order in which they stand,
/// whose prices its evaluation needs.
pub fn stock_symbols(input: &str) -> (r: Vec<String>)
    ensures
        r@.map_values(|x: String| x@) == symbols_from(trim(input@), 0),
{
    let v = chars_of(input);
    let s = trim_chars(&v);
    let mut out: Vec<String> = Vec::new();
    let mut i: usize = 0;
    assert(out@.map_values(|x: String| x@) =~= Seq::<Seq<char>>::empty());
    while i < s.len()
        invariant
            i <= s.len(),
            out@.map_values(|x: String| x@) + symbols_from(s@, i as int) == symbols_from(s@, 0),
        decreases s.len() - i,
    {
        let c = s[i];
        let ghost before = out@.map_values(|x: String| x@);
        if is_whitespace(c) {
            i = i + 1;
        } else if c == '$' && i + 1 < s.len() && is_ascii_letter(s[i + 1]) {
            let j = symbol_end_of(&s, i + 2);
            let sym = chars_between(&s, i + 1, j);
            out.push(string_of(&sym));
            assert(out@.map_values(|x: String| x@) =~= before.push(sym@));
            assert(before.push(sym@) + symbols_from(s@, j as int) =~= before + (seq![sym@] + symbols_from(
                s@,
                j as int,
            )));
            i = j;
        } else if is_ascii_digit(c) || c == '$' || (c == '.' && i + 1 < s.len() && is_ascii_digit(s[i + 1])) {
            i = number_end_of(&s, i + 1);
        } else if is_alphabetic(c) {
            i = name_end_of(&s, i + 1);
        } else {
            i = i + 1;
        }
    }
    assert(out@.map_values(|x: String| x@) + Seq::<Seq<char>>::empty() =~= out@.map_values(|x: String| x@));
    out
}

} // verus!
