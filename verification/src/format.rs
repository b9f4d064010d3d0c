//! Number formats: reading the format of a written number, and writing a
//! value in a format.
use vstd::prelude::*;
use crate::number::{magnitude, signed, Num};
use crate::natural::{div_small, from_u128, less, lemma_value_nonneg, plus, to_u128, value};
use crate::text::small_letter;
use crate::exponent::{is_number_syntax, number_syntax, number_units, number_value, unsigned_part};
use crate::value::{fit, SpecValue, Value};
use crate::text::{chars_of, digit, find_char, is_ascii_letter, is_whitespace, string_of, trim, trim_chars, whitespace};
use crate::lexer::{first_number_at, first_number_start, number_end, number_end_of, starts_symbol, unmarked};
use crate::literal::point_at;

verus! {

/// How a number is written: with a `$` in front, with thousands
/// separators, and with how many digits after the point.
#[derive(Clone, Copy, Debug)]
pub struct NumberFormat {
    pub has_dollar: bool,
    pub has_commas: bool,
    pub decimal_places: usize,
}

/// A character that stays in a number once `$`, `,` and whitespace are
/// dropped.
pub open spec fn kept(c: char) -> bool {
    !whitespace(c) && c != '$' && c != ','
}

/// The text without whitespace, `$` and `,`.
pub open spec fn cleaned(t: Seq<char>) -> Seq<char>
    decreases t.len(),
{
    if t.len() == 0 {
        t
    } else if kept(t.last()) {
        cleaned(t.drop_last()).push(t.last())
    } else {
        cleaned(t.drop_last())
    }
}

/// Digits after the point of a literal.
pub open spec fn places(c: Seq<char>) -> int {
    if point_at(c) < c.len() {
        c.len() - point_at(c) - 1
    } else {
        0
    }
}

/// The text spells the lowercase word `w` in any case.
pub open spec fn spells_folded(u: Seq<char>, w: Seq<char>) -> bool {
    u.len() == w.len() && forall|k: int| 0 <= k < u.len() ==> small_letter(#[trigger] u[k]) == w[k]
}

/// The value that the words `inf`, `infinity` and `nan`, in any case,
/// stand for.
pub open spec fn special(u: Seq<char>) -> Option<SpecValue> {
    if spells_folded(u, "inf"@) || spells_folded(u, "infinity"@) {
        Some(SpecValue::Infinite(false))
    } else if spells_folded(u, "nan"@) {
        Some(SpecValue::NaN)
    } else {
        None
    }
}

/// The format of a written number, when it reads as a number: an optional
/// sign, then a decimal literal with an optional exponent, or one of the
/// words of `special`, once whitespace, `$` and `,` are dropped. Its
/// decimal places are the characters after the point, an exponent's among
/// them.
pub open spec fn format_of(s: Seq<char>) -> Option<NumberFormat> {
    let t = trim(s);
    let c = cleaned(t);
    if !number_syntax(unsigned_part(c)) && special(unsigned_part(c)) is None {
        None
    } else {
        Some(
            NumberFormat {
                has_dollar: t.len() > 0 && t[0] == '$',
                has_commas: t.contains(','),
                decimal_places: places(c) as usize,
            },
        )
    }
}

/// The value of a written number that reads as one; one too large to hold
/// is infinite.
pub open spec fn parsed_value(s: Seq<char>) -> SpecValue {
    let c = cleaned(trim(s));
    let negative = c.len() > 0 && c[0] == '-';
    match special(unsigned_part(c)) {
        Some(SpecValue::Infinite(_)) => SpecValue::Infinite(negative),
        Some(v) => v,
        None => fit(signed(negative, number_units(unsigned_part(c)))),
    }
}

/// Reads a written number such as `$1,420,368.94`, `-5`, `1.5e3` or `inf`:
/// its value, and its format. `None` when it does not read as a number (see
/// `format_of`).
pub fn parse_number(input: &str) -> (r: Option<(Value, NumberFormat)>)
    ensures
        match r {
            Some((v, f)) => format_of(input@) == Some(f) && v@ == parsed_value(input@),
            None => format_of(input@) is None,
        },
{
    let v = chars_of(input);
    parse_number_chars(&v)
}

/// `parse_number` on characters.
pub fn parse_number_chars(input: &Vec<char>) -> (r: Option<(Value, NumberFormat)>)
    ensures
        match r {
            Some((v, f)) => format_of(input@) == Some(f) && v@ == parsed_value(input@),
            None => format_of(input@) is None,
        },
{
    match read_format(input) {
        None => None,
        Some((f, body, negative)) => {
            let word = special_value(&body);
            match word {
                Some(Value::Infinite(_)) => {
                    return Some((Value::Infinite(negative), f));
                },
                Some(w) => {
                    return Some((w, f));
                },
                None => {},
            }
            proof {
                crate::exponent::lemma_number_units_nonneg(body@);
                crate::number::lemma_limit_large();
            }
            match number_value(&body) {
                Some(n) => if negative {
                    Some((Value::Finite(n.negated()), f))
                } else {
                    Some((Value::Finite(n), f))
                },
                None => Some((Value::Infinite(negative), f)),
            }
        },
    }
}

/// `small_letter` for executable code.
fn small_letter_of(c: char) -> (r: char)
    ensures
        r == small_letter(c),
{
    if 'A' <= c && c <= 'Z' {
        if c == 'A' { 'a' } else if c == 'B' { 'b' } else if c == 'C' { 'c' } else if c == 'D' { 'd' }
        else if c == 'E' { 'e' } else if c == 'F' { 'f' } else if c == 'G' { 'g' } else if c == 'H' { 'h' }
        else if c == 'I' { 'i' } else if c == 'J' { 'j' } else if c == 'K' { 'k' } else if c == 'L' { 'l' }
        else if c == 'M' { 'm' } else if c == 'N' { 'n' } else if c == 'O' { 'o' } else if c == 'P' { 'p' }
        else if c == 'Q' { 'q' } else if c == 'R' { 'r' } else if c == 'S' { 's' } else if c == 'T' { 't' }
        else if c == 'U' { 'u' } else if c == 'V' { 'v' } else if c == 'W' { 'w' } else if c == 'X' { 'x' }
        else if c == 'Y' { 'y' } else { 'z' }
    } else {
        c
    }
}

/// Whether the text spells the lowercase word `w` in any case.
fn folds_to(u: &Vec<char>, w: &str) -> (r: bool)
    ensures
        r == spells_folded(u@, w@),
{
    let wv = chars_of(w);
    if u.len() != wv.len() {
        return false;
    }
    let mut k: usize = 0;
    while k < u.len()
        invariant
            k <= u.len(),
            u.len() == wv.len(),
            wv@ == w@,
            forall|m: int| 0 <= m < k ==> small_letter(#[trigger] u@[m]) == w@[m],
        decreases u.len() - k,
    {
        if small_letter_of(u[k]) != wv[k] {
            return false;
        }
        k = k + 1;
    }
    true
}

/// The value of one of the words of `special`.
fn special_value(u: &Vec<char>) -> (r: Option<Value>)
    ensures
        match r {
            Some(v) => special(u@) == Some(v@),
            None => special(u@) is None,
        },
{
    if folds_to(u, "inf") || folds_to(u, "infinity") {
        Some(Value::Infinite(false))
    } else if folds_to(u, "nan") {
        Some(Value::NaN)
    } else {
        None
    }
}

/// The format of a written number, its cleaned text without the sign, and
/// whether the sign is `-`.
fn read_format(input: &Vec<char>) -> (r: Option<(NumberFormat, Vec<char>, bool)>)
    ensures
        match r {
            Some((f, b, negative)) => format_of(input@) == Some(f) && b@ == unsigned_part(cleaned(trim(input@)))
                && (number_syntax(b@) || special(b@) is Some) && negative == (cleaned(trim(input@)).len() > 0 && cleaned(trim(input@))[0] == '-'),
            None => format_of(input@) is None,
        },
{
    let t = trim_chars(input);
    let has_dollar = t.len() > 0 && t[0] == '$';
    let mut has_commas = false;
    let mut c: Vec<char> = Vec::new();
    let mut k: usize = 0;
    while k < t.len()
        invariant
            k <= t.len(),
            c@ == cleaned(t@.take(k as int)),
            has_commas == t@.take(k as int).contains(','),
        decreases t.len() - k,
    {
        let ch = t[k];
        assert(t@.take(k + 1).drop_last() =~= t@.take(k as int));
        proof {
            if t@.take(k as int).contains(',') {
                let j = choose|j: int| 0 <= j < k && #[trigger] t@.take(k as int)[j] == ',';
                assert(t@.take(k + 1)[j] == ',');
            }
            if ch == ',' {
                assert(t@.take(k + 1)[k as int] == ',');
            }
            if t@.take(k + 1).contains(',') {
                let j = choose|j: int| 0 <= j < k + 1 && #[trigger] t@.take(k + 1)[j] == ',';
                if j < k {
                    assert(t@.take(k as int)[j] == ',');
                }
            }
        }
        if ch == ',' {
            has_commas = true;
        }
        if !is_whitespace(ch) && ch != '$' && ch != ',' {
            c.push(ch);
        }
        k = k + 1;
    }
    assert(t@.take(t.len() as int) =~= t@);
    let negative = c.len() > 0 && c[0] == '-';
    let skip: usize = if c.len() > 0 && (c[0] == '+' || c[0] == '-') {
        1
    } else {
        0
    };
    let mut body: Vec<char> = Vec::new();
    let mut j: usize = skip;
    while j < c.len()
        invariant
            skip <= j <= c.len(),
            body@ == c@.subrange(skip as int, j as int),
        decreases c.len() - j,
    {
        body.push(c[j]);
        j = j + 1;
        assert(body@ =~= c@.subrange(skip as int, j as int));
    }
    assert(body@ =~= unsigned_part(c@));
    if !is_number_syntax(&body) && special_value(&body).is_none() {
        return None;
    }
    let mut p: usize = 0;
    while p < c.len() && c[p] != '.'
        invariant
            p <= c.len(),
            forall|m: int| 0 <= m < p ==> c@[m] != '.',
        decreases c.len() - p,
    {
        p = p + 1;
    }
    proof {
        crate::text::lemma_find_facts(c@, '.');
        match crate::text::find(c@, '.') {
            Some(q) => {
                assert(q == p);
            },
            None => {},
        }
    }
    let decimal_places = if p < c.len() {
        c.len() - p - 1
    } else {
        0
    };
    Some((NumberFormat { has_dollar, has_commas, decimal_places }, body, negative))
}

/// The format used when no number can be read.
pub open spec fn plain_format() -> NumberFormat {
    NumberFormat { has_dollar: false, has_commas: false, decimal_places: 0 }
}

/// The format of a stock price: dollars and cents.
pub open spec fn price_format() -> NumberFormat {
    NumberFormat { has_dollar: true, has_commas: false, decimal_places: 2 }
}

/// The text of a number without `$`, `,` and a final `%`.
pub open spec fn number_body(t: Seq<char>) -> Seq<char> {
    let c = unmarked(t);
    if c.len() > 0 && c.last() == '%' {
        c.drop_last()
    } else {
        c
    }
}

/// The format of the text of a number as the lexer reads it: a `$` when it
/// starts with one, separators when it has a comma, and the digits after
/// its point.
pub open spec fn text_format(t: Seq<char>) -> NumberFormat {
    NumberFormat {
        has_dollar: t.len() > 0 && t[0] == '$',
        has_commas: t.contains(','),
        decimal_places: places(number_body(t)) as usize,
    }
}

/// The format of an expression's result: that of its first number as the
/// lexer reads it; dollars and cents when that is a stock symbol.
pub open spec fn expression_format(input: Seq<char>) -> NumberFormat {
    match first_number_at(input, 0) {
        None => plain_format(),
        Some(i) => if starts_symbol(input, i) {
            price_format()
        } else {
            text_format(input.subrange(i, number_end(input, i + 1)))
        },
    }
}

/// The format of the result of an expression (see `expression_format`).
pub fn detect_format(input: &Vec<char>) -> (r: NumberFormat)
    ensures
        r == expression_format(input@),
{
    let s = input;
    let start = first_number_start(s);
    proof {
        crate::lexer::lemma_first_number_bound(s@, 0);
    }
    let i = match start {
        None => {
            return NumberFormat { has_dollar: false, has_commas: false, decimal_places: 0 };
        },
        Some(i) => i,
    };
    assert(i < s.len());
    if s[i] == '$' && i + 1 < s.len() && is_ascii_letter(s[i + 1]) {
        return NumberFormat { has_dollar: true, has_commas: false, decimal_places: 2 };
    }
    let j = number_end_of(s, i + 1);
    let ghost t = s@.subrange(i as int, j as int);
    let mut has_commas = false;
    let mut c: Vec<char> = Vec::new();
    let mut k: usize = i;
    while k < j
        invariant
            i <= k <= j <= s.len(),
            t == s@.subrange(i as int, j as int),
            c@ == unmarked(t.take(k - i)),
            has_commas == t.take(k - i).contains(','),
        decreases j - k,
    {
        let ch = s[k];
        let ghost n = k - i;
        assert(t[n] == ch);
        assert(t.take(n + 1).drop_last() =~= t.take(n));
        proof {
            if t.take(n).contains(',') {
                let m = choose|m: int| 0 <= m < n && #[trigger] t.take(n)[m] == ',';
                assert(t.take(n + 1)[m] == ',');
            }
            if ch == ',' {
                assert(t.take(n + 1)[n] == ',');
            }
            if t.take(n + 1).contains(',') {
                let m = choose|m: int| 0 <= m < n + 1 && #[trigger] t.take(n + 1)[m] == ',';
                if m < n {
                    assert(t.take(n)[m] == ',');
                }
            }
        }
        if ch == ',' {
            has_commas = true;
        }
        if ch != '$' && ch != ',' {
            c.push(ch);
        }
        k = k + 1;
    }
    assert(t.take(j - i) =~= t);
    if c.len() > 0 && c[c.len() - 1] == '%' {
        c.pop();
    }
    assert(c@ == number_body(t)) by {
        let u = unmarked(t);
        if u.len() > 0 && u.last() == '%' {
            assert(c@ =~= u.drop_last());
        }
    }
    proof {
        crate::text::lemma_find_facts(c@, '.');
    }
    let decimal_places = match find_char(&c, '.') {
        Some(p) => c.len() - p - 1,
        None => 0,
    };
    NumberFormat { has_dollar: s[i] == '$', has_commas, decimal_places }
}

/// 10 to the power `n`.
pub open spec fn pow10(n: nat) -> int
    decreases n,
{
    if n == 0 {
        1
    } else {
        10 * pow10((n - 1) as nat)
    }
}

/// Digits to which a value is rounded: as many as the format has, at most
/// the nine that a number holds.
pub open spec fn rounding_places(f: NumberFormat) -> nat {
    if f.decimal_places > 9 {
        9
    } else {
        f.decimal_places as nat
    }
}

/// `k` zero digits.
pub open spec fn zeros(k: nat) -> Seq<char> {
    Seq::new(k, |i: int| '0')
}

/// The largest whole part that is written: larger ones are written as it.
pub open spec fn whole_cap() -> int {
    18_446_744_073_709_551_615
}

/// A magnitude in units, rounded half away from zero to units of 10^-d.
pub open spec fn rounded(m: int, d: nat) -> int {
    let factor = pow10((9 - d) as nat);
    if 2 * (m % factor) >= factor {
        m / factor + 1
    } else {
        m / factor
    }
}

/// The ASCII digit of a value below ten.
pub open spec fn digit_char(n: int) -> char {
    if n == 0 {
        '0'
    } else if n == 1 {
        '1'
    } else if n == 2 {
        '2'
    } else if n == 3 {
        '3'
    } else if n == 4 {
        '4'
    } else if n == 5 {
        '5'
    } else if n == 6 {
        '6'
    } else if n == 7 {
        '7'
    } else if n == 8 {
        '8'
    } else {
        '9'
    }
}

/// The decimal digits of a natural number, without leading zeros ("0" for
/// zero).
pub open spec fn decimal_digits(n: nat) -> Seq<char>
    decreases n,
{
    if n < 10 {
        seq![digit_char(n as int)]
    } else {
        decimal_digits(n / 10).push(digit_char((n % 10) as int))
    }
}

/// The last `width` decimal digits of `n`, with leading zeros.
pub open spec fn padded_digits(n: nat, width: nat) -> Seq<char>
    decreases width,
{
    if width == 0 {
        Seq::empty()
    } else {
        padded_digits(n / 10, (width - 1) as nat).push(digit_char((n % 10) as int))
    }
}

/// The first `k` digits of `ds`, with a comma before every digit that
/// starts a group of three counted from the right.
pub open spec fn grouped_prefix(ds: Seq<char>, k: int) -> Seq<char>
    decreases k,
{
    if k <= 0 {
        Seq::empty()
    } else {
        let comma = if k - 1 > 0 && (ds.len() - (k - 1)) % 3 == 0 {
            seq![',']
        } else {
            Seq::empty()
        };
        grouped_prefix(ds, k - 1) + comma + seq![ds[k - 1]]
    }
}

/// Digits with thousands separators.
pub open spec fn grouped(ds: Seq<char>) -> Seq<char> {
    grouped_prefix(ds, ds.len() as int)
}

/// A number in units written in a format: sign, `$`, the whole part (with
/// separators when the format has them, and at most `whole_cap`), and the
/// decimals rounded half away from zero, padded with zeros to as many as the
/// format has.
pub open spec fn formatted_number(v: int, f: NumberFormat) -> Seq<char> {
    let d = rounding_places(f);
    let units = rounded(magnitude(v), d);
    let whole = if units / pow10(d) > whole_cap() { whole_cap() } else { units / pow10(d) };
    let frac = units % pow10(d);
    let ds = decimal_digits(whole as nat);
    let num = if f.has_commas { grouped(ds) } else { ds };
    let decimals = if f.decimal_places > 0 {
        seq!['.'] + padded_digits(frac as nat, d) + zeros((f.decimal_places - d) as nat)
    } else {
        Seq::empty()
    };
    let sign = if v < 0 { seq!['-'] } else { Seq::empty() };
    let prefix = if f.has_dollar { seq!['$'] } else { Seq::empty() };
    sign + prefix + num + decimals
}

/// A value written in a format. "Not a number" is written as a zero whole
/// part followed, when the format has decimals, by `.NaN`; an infinity as
/// its sign and the largest whole part `whole_cap`, followed likewise by
/// `.NaN`.
pub open spec fn formatted(v: SpecValue, f: NumberFormat) -> Seq<char> {
    let prefix = if f.has_dollar { seq!['$'] } else { Seq::empty() };
    let decimals = if f.decimal_places > 0 { ".NaN"@ } else { Seq::empty() };
    match v {
        SpecValue::Finite(x) => formatted_number(x, f),
        SpecValue::NaN => prefix + seq!['0'] + decimals,
        SpecValue::Infinite(negative) => {
            let ds = decimal_digits(whole_cap() as nat);
            let num = if f.has_commas { grouped(ds) } else { ds };
            let sign = if negative { seq!['-'] } else { Seq::empty() };
            sign + prefix + num + decimals
        },
    }
}

fn digit_char_of(n: u128) -> (r: char)
    requires
        n < 10,
    ensures
        r == digit_char(n as int),
{
    if n == 0 {
        '0'
    } else if n == 1 {
        '1'
    } else if n == 2 {
        '2'
    } else if n == 3 {
        '3'
    } else if n == 4 {
        '4'
    } else if n == 5 {
        '5'
    } else if n == 6 {
        '6'
    } else if n == 7 {
        '7'
    } else if n == 8 {
        '8'
    } else {
        '9'
    }
}

fn push_digits(n: u128, out: &mut Vec<char>)
    ensures
        final(out)@ == old(out)@ + decimal_digits(n as nat),
    decreases n,
{
    if n < 10 {
        out.push(digit_char_of(n));
        assert(out@ =~= old(out)@ + decimal_digits(n as nat));
    } else {
        push_digits(n / 10, out);
        out.push(digit_char_of(n % 10));
        assert(out@ =~= old(out)@ + decimal_digits(n as nat));
    }
}

fn push_padded(n: u128, width: u128, out: &mut Vec<char>)
    ensures
        final(out)@ == old(out)@ + padded_digits(n as nat, width as nat),
    decreases width,
{
    if width == 0 {
        assert(out@ =~= old(out)@ + padded_digits(n as nat, width as nat));
    } else {
        push_padded(n / 10, width - 1, out);
        out.push(digit_char_of(n % 10));
        assert(out@ =~= old(out)@ + padded_digits(n as nat, width as nat));
    }
}

/// Inserts thousands separators into a string of digits.
pub fn group_digits(ds: &Vec<char>) -> (r: Vec<char>)
    ensures
        r@ == grouped(ds@),
{
    let mut out: Vec<char> = Vec::new();
    let n = ds.len();
    let mut i: usize = 0;
    while i < n
        invariant
            n == ds.len(),
            i <= n,
            out@ == grouped_prefix(ds@, i as int),
        decreases n - i,
    {
        if i > 0 && (n - i) % 3 == 0 {
            out.push(',');
        }
        out.push(ds[i]);
        assert(out@ =~= grouped_prefix(ds@, i + 1));
        i = i + 1;
    }
    out
}

/// 10 to the power `n`, for `n` up to nine.
fn power_of_ten(n: u128) -> (r: u128)
    requires
        n <= 9,
    ensures
        r as int == pow10(n as nat),
        1 <= r <= 1_000_000_000,
{
    proof {
        reveal_with_fuel(pow10, 10);
    }
    if n == 0 {
        1
    } else if n == 1 {
        10
    } else if n == 2 {
        100
    } else if n == 3 {
        1_000
    } else if n == 4 {
        10_000
    } else if n == 5 {
        100_000
    } else if n == 6 {
        1_000_000
    } else if n == 7 {
        10_000_000
    } else if n == 8 {
        100_000_000
    } else {
        1_000_000_000
    }
}

/// The whole part, at most `whole_cap`, and the decimals of a magnitude
/// rounded to `d` places.
fn rounded_parts(m: &Vec<u32>, d: u128) -> (r: (u128, u128))
    requires
        d <= 9,
    ensures
        r.0 as int == (if rounded(value(m@), d as nat) / pow10(d as nat) > whole_cap() {
            whole_cap()
        } else {
            rounded(value(m@), d as nat) / pow10(d as nat)
        }),
        r.1 as int == rounded(value(m@), d as nat) % pow10(d as nat),
{
    let factor = power_of_ten(9 - d) as u32;
    let unit = power_of_ten(d) as u32;
    let (q, rest) = div_small(m, factor);
    proof {
        lemma_value_nonneg(m@, 0);
        lemma_value_nonneg(q@, 0);
        vstd::arithmetic::div_mod::lemma_fundamental_div_mod_converse(value(m@), factor as int, value(q@), rest as int);
    }
    let units = if 2 * (rest as u64) >= factor as u64 {
        plus(&q, &from_u128(1))
    } else {
        q
    };
    let (w, frac) = div_small(&units, unit);
    proof {
        lemma_value_nonneg(w@, 0);
        vstd::arithmetic::div_mod::lemma_fundamental_div_mod_converse(value(units@), unit as int, value(w@), frac as int);
    }
    let cap = from_u128(18_446_744_073_709_551_615);
    let capped: u128 = if less(&cap, &w) {
        18_446_744_073_709_551_615
    } else {
        to_u128(&w)
    };
    (capped, frac as u128)
}

/// Appends the characters of `tail` to `out`.
pub(crate) fn append_chars(out: &mut Vec<char>, tail: &Vec<char>)
    ensures
        final(out)@ == old(out)@ + tail@,
{
    let mut i: usize = 0;
    while i < tail.len()
        invariant
            i <= tail.len(),
            out@ == old(out)@ + tail@.take(i as int),
        decreases tail.len() - i,
    {
        out.push(tail[i]);
        assert(out@ =~= old(out)@ + tail@.take(i + 1));
        i = i + 1;
    }
    assert(tail@.take(tail.len() as int) =~= tail@);
}

/// Appends `k` zero digits to `out`.
pub(crate) fn push_zeros(k: usize, out: &mut Vec<char>)
    ensures
        final(out)@ == old(out)@ + zeros(k as nat),
{
    let mut i: usize = 0;
    while i < k
        invariant
            i <= k,
            out@ == old(out)@ + zeros(i as nat),
        decreases k - i,
    {
        out.push('0');
        i = i + 1;
        assert(out@ =~= old(out)@ + zeros(i as nat));
    }
}

/// Writes a number in a format (see `formatted_number`).
fn write_number(number: &Num, format: &NumberFormat) -> (r: Vec<char>)
    ensures
        r@ == formatted_number(number@, *format),
{
    let m = number.magnitude_limbs();
    let d: u128 = if format.decimal_places > 9 {
        9
    } else {
        format.decimal_places as u128
    };
    let (whole, frac) = rounded_parts(&m, d);
    let mut out: Vec<char> = Vec::new();
    if number.is_negative() {
        out.push('-');
    }
    if format.has_dollar {
        out.push('$');
    }
    let ghost head = out@;
    let mut ds: Vec<char> = Vec::new();
    push_digits(whole, &mut ds);
    assert(ds@ =~= decimal_digits(whole as nat));
    let num = if format.has_commas {
        group_digits(&ds)
    } else {
        ds
    };
    append_chars(&mut out, &num);
    let mut decimals: Vec<char> = Vec::new();
    if format.decimal_places > 0 {
        decimals.push('.');
        push_padded(frac, d, &mut decimals);
        push_zeros(format.decimal_places - d as usize, &mut decimals);
    }
    append_chars(&mut out, &decimals);
    proof {
        let sign = if number@ < 0 { seq!['-'] } else { Seq::<char>::empty() };
        let prefix = if format.has_dollar { seq!['$'] } else { Seq::<char>::empty() };
        assert(head =~= sign + prefix);
        assert(d as nat == rounding_places(*format));
        if format.decimal_places > 0 {
            assert(decimals@ =~= seq!['.'] + padded_digits(frac as nat, d as nat) + zeros(
                (format.decimal_places - d) as nat,
            ));
        } else {
            assert(decimals@ =~= Seq::<char>::empty());
        }
        assert(out@ =~= formatted_number(number@, *format));
    }
    out
}

/// Writes a value in a format (see `formatted`).
pub fn format_number(value: &Value, format: &NumberFormat) -> (r: String)
    ensures
        r@ == formatted(value@, *format),
{
    match value {
        Value::Finite(n) => {
            let out = write_number(n, format);
            string_of(&out)
        },
        _ => {
            let mut out: Vec<char> = Vec::new();
            let negative = match value {
                Value::Infinite(negative) => *negative,
                _ => false,
            };
            if negative {
                out.push('-');
            }
            if format.has_dollar {
                out.push('$');
            }
            let ghost head = out@;
            if matches!(value, Value::NaN) {
                out.push('0');
            } else {
                let mut ds: Vec<char> = Vec::new();
                push_digits(18_446_744_073_709_551_615, &mut ds);
                let num = if format.has_commas {
                    group_digits(&ds)
                } else {
                    ds
                };
                append_chars(&mut out, &num);
            }
            if format.decimal_places > 0 {
                out.push('.');
                out.push('N');
                out.push('a');
                out.push('N');
            }
            proof {
                reveal_strlit(".NaN");
                assert(out@ =~= formatted(value@, *format));
            }
            string_of(&out)
        },
    }
}

} // verus!
