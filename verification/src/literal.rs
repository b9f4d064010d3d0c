//! Decimal literals: digits with at most one point, read into a `Num`.
use vstd::prelude::*;
use crate::number::{Num, SCALE, view_opt, checked};
use crate::natural::{base_pow, from_u128, less, mul_small, plus, trimmed, value};
use crate::text::{digit, find, find_char, is_ascii_digit, lemma_find_facts};

verus! {

/// The value of one ASCII digit.
pub open spec fn digit_value(c: char) -> int {
    c as int - '0' as int
}

/// The value of a string of decimal digits (0 for the empty string).
pub open spec fn digits_value(s: Seq<char>) -> int
    decreases s.len(),
{
    if s.len() == 0 {
        0
    } else {
        digits_value(s.drop_last()) * 10 + digit_value(s.last())
    }
}

/// Every character is an ASCII digit.
pub open spec fn all_digits(s: Seq<char>) -> bool {
    forall|k: int| 0 <= k < s.len() ==> digit(#[trigger] s[k])
}

/// The syntax that std's parsing of floating-point numbers accepts on
/// strings of digits and points: only digits and points, at most one point, at least one digit.
pub open spec fn decimal_syntax(b: Seq<char>) -> bool {
    &&& forall|k: int| 0 <= k < b.len() ==> digit(#[trigger] b[k]) || b[k] == '.'
    &&& exists|k: int| 0 <= k < b.len() && digit(#[trigger] b[k])
    &&& forall|j: int, k: int| 0 <= j < k < b.len() && #[trigger] b[j] == '.' ==> #[trigger] b[k] != '.'
}

/// Position of the point in a literal, or its length when it has none.
pub open spec fn point_at(b: Seq<char>) -> int {
    match find(b, '.') {
        Some(p) => p,
        None => b.len() as int,
    }
}

/// The digits after the point (empty when there is no point).
pub open spec fn fraction_digits(b: Seq<char>) -> Seq<char> {
    if point_at(b) < b.len() {
        b.skip(point_at(b) + 1)
    } else {
        Seq::empty()
    }
}

/// The first nine fractional digits, padded with zeros.
pub open spec fn nine_digits(f: Seq<char>) -> Seq<char> {
    Seq::new(9, |k: int| if k < f.len() { f[k] } else { '0' })
}

/// The value in units of a literal of decimal syntax; digits after the
/// ninth fractional one are dropped.
pub open spec fn literal_value(b: Seq<char>) -> int {
    digits_value(b.take(point_at(b))) * (SCALE as int) + digits_value(nine_digits(fraction_digits(b)))
}

pub proof fn lemma_digits_value_nonneg(s: Seq<char>)
    requires
        all_digits(s),
    ensures
        digits_value(s) >= 0,
    decreases s.len(),
{
    if s.len() > 0 {
        assert(all_digits(s.drop_last())) by {
            assert forall|k: int| 0 <= k < s.drop_last().len() implies digit(#[trigger] s.drop_last()[k]) by {
                assert(s.drop_last()[k] == s[k]);
            }
        }
        lemma_digits_value_nonneg(s.drop_last());
        assert(digit(s[s.len() - 1]));
    }
}

pub proof fn lemma_digits_value_prefix(s: Seq<char>, k: int)
    requires
        all_digits(s),
        0 <= k <= s.len(),
    ensures
        digits_value(s.take(k)) <= digits_value(s),
    decreases s.len() - k,
{
    if k < s.len() {
        lemma_digits_value_prefix(s, k + 1);
        let t = s.take(k + 1);
        assert(t.drop_last() =~= s.take(k));
        assert(all_digits(s.take(k))) by {
            assert forall|m: int| 0 <= m < s.take(k).len() implies digit(#[trigger] s.take(k)[m]) by {
                assert(s.take(k)[m] == s[m]);
            }
        }
        lemma_digits_value_nonneg(s.take(k));
        assert(digit(s[k]));
        assert(t.last() == s[k]);
    } else {
        assert(s.take(k) =~= s);
    }
}

/// Whether a literal has decimal syntax (see `decimal_syntax`).
pub fn is_decimal_syntax(b: &Vec<char>) -> (r: bool)
    ensures
        r == decimal_syntax(b@),
{
    let mut points: usize = 0;
    let mut digits: bool = false;
    let mut k: usize = 0;
    while k < b.len()
        invariant
            k <= b.len(),
            points <= 1,
            forall|m: int| 0 <= m < k ==> digit(#[trigger] b@[m]) || b@[m] == '.',
            digits == exists|m: int| 0 <= m < k && digit(#[trigger] b@[m]),
            points == 0 ==> forall|m: int| 0 <= m < k ==> #[trigger] b@[m] != '.',
            points == 1 ==> exists|m: int| 0 <= m < k && #[trigger] b@[m] == '.',
            forall|j: int, m: int| 0 <= j < m < k && #[trigger] b@[j] == '.' ==> #[trigger] b@[m] != '.',
        decreases b.len() - k,
    {
        let c = b[k];
        if is_ascii_digit(c) {
            digits = true;
        } else if c == '.' {
            if points == 1 {
                proof {
                    let j = choose|m: int| 0 <= m < k && #[trigger] b@[m] == '.';
                    assert(b@[j] == '.' && b@[k as int] == '.');
                }
                return false;
            }
            points = 1;
        } else {
            return false;
        }
        k = k + 1;
    }
    digits
}

/// Reads a literal of decimal syntax into a number; `None` when it does not
/// fit.
pub fn decimal_value(b: &Vec<char>) -> (r: Option<Num>)
    requires
        decimal_syntax(b@),
    ensures
        view_opt(r) == checked(literal_value(b@)),
{
    let p = match find_char(b, '.') {
        Some(p) => p,
        None => b.len(),
    };
    proof {
        lemma_find_facts(b@, '.');
    }
    assert(p as int == point_at(b@));
    let ghost whole = b@.take(p as int);
    assert(all_digits(whole)) by {
        assert forall|m: int| 0 <= m < whole.len() implies digit(#[trigger] whole[m]) by {
            assert(whole[m] == b@[m]);
            assert(b@[m] != '.');
        }
    }
    let bound = whole_bound();
    let mut w: Vec<u32> = Vec::new();
    let mut k: usize = 0;
    while k < p
        invariant
            p <= b.len(),
            k <= p,
            whole == b@.take(p as int),
            p as int == point_at(b@),
            all_digits(whole),
            decimal_syntax(b@),
            value(w@) == digits_value(whole.take(k as int)),
            value(bound@) == base_pow(32),
        decreases p - k,
    {
        assert(digit(whole[k as int]));
        let d = (b[k] as u32 - '0' as u32);
        assert(whole.take(k + 1).drop_last() =~= whole.take(k as int));
        assert(digits_value(whole.take(k + 1)) == digits_value(whole.take(k as int)) * 10 + d);
        let t = mul_small(&w, 10);
        w = trimmed(plus(&t, &from_u128(d as u128)));
        if !less(&w, &bound) {
            proof {
                lemma_digits_value_prefix(whole, k + 1);
                lemma_fraction_nonneg(b@);
                assert(literal_value(b@) >= digits_value(whole) * (SCALE as int));
                assert(digits_value(whole) * (SCALE as int) >= base_pow(32) * (SCALE as int)) by (nonlinear_arith)
                    requires
                        digits_value(whole) >= base_pow(32),
                ;
            }
            return None;
        }
        k = k + 1;
    }
    assert(whole.take(p as int) =~= whole);
    let ghost frac = nine_digits(fraction_digits(b@));
    let mut f: u128 = 0;
    let mut n: usize = 0;
    while n < 9
        invariant
            n <= 9,
            p <= b.len(),
            p as int == point_at(b@),
            frac == nine_digits(fraction_digits(b@)),
            decimal_syntax(b@),
            p < b.len() ==> b@[p as int] == '.',
            f as int == digits_value(frac.take(n as int)),
            f < 1_000_000_000,
            f as int <= pow10_below(n as int),
        decreases 9 - n,
    {
        let c = if p < b.len() && n < b.len() - p - 1 {
            b[p + 1 + n]
        } else {
            '0'
        };
        proof {
            if p < b.len() && n < b.len() - p - 1 {
                assert(fraction_digits(b@)[n as int] == b@[p + 1 + n]);
                assert(b@[p + 1 + n] != '.') by {
                    assert(b@[p as int] == '.');
                }
            }
            assert(c == frac[n as int]);
            assert(digit(c));
            assert(frac.take(n + 1).drop_last() =~= frac.take(n as int));
            lemma_pow10_step(n as int);
        }
        f = f * 10 + (c as u32 - '0' as u32) as u128;
        n = n + 1;
    }
    assert(frac.take(9) =~= frac);
    let units = plus(&mul_small(&w, 1_000_000_000), &from_u128(f));
    Num::from_limbs(false, units)
}

/// 2^1024, the bound on whole parts, as limbs.
pub fn whole_bound() -> (r: Vec<u32>)
    ensures
        value(r@) == base_pow(32),
{
    let mut p = crate::natural::one();
    let mut k: usize = 0;
    while k < 32
        invariant
            k <= 32,
            value(p@) == base_pow(k as nat),
        decreases 32 - k,
    {
        p = crate::natural::shifted(&p);
        k = k + 1;
    }
    p
}

/// 10^n - 1.
pub open spec fn pow10_below(n: int) -> int
    decreases n,
{
    if n <= 0 {
        0
    } else {
        pow10_below(n - 1) * 10 + 9
    }
}

proof fn lemma_pow10_step(n: int)
    requires
        0 <= n < 9,
    ensures
        pow10_below(n + 1) == pow10_below(n) * 10 + 9,
        pow10_below(n + 1) <= 999_999_999,
{
    reveal_with_fuel(pow10_below, 10);
}

/// A literal of decimal syntax has a value that is not negative.
pub proof fn lemma_literal_value_nonneg(b: Seq<char>)
    requires
        decimal_syntax(b),
    ensures
        literal_value(b) >= 0,
{
    lemma_fraction_nonneg(b);
    lemma_find_facts(b, '.');
    let w = b.take(point_at(b));
    assert(all_digits(w)) by {
        assert forall|m: int| 0 <= m < w.len() implies digit(#[trigger] w[m]) by {
            assert(w[m] == b[m]);
            assert(b[m] != '.');
        }
    }
    lemma_digits_value_nonneg(w);
}

proof fn lemma_fraction_nonneg(b: Seq<char>)
    requires
        decimal_syntax(b),
    ensures
        digits_value(nine_digits(fraction_digits(b))) >= 0,
{
    let f = nine_digits(fraction_digits(b));
    lemma_find_facts(b, '.');
    assert(all_digits(f)) by {
        assert forall|k: int| 0 <= k < f.len() implies digit(#[trigger] f[k]) by {
            if k < fraction_digits(b).len() {
                let p = point_at(b);
                assert(fraction_digits(b)[k] == b[p + 1 + k]);
                assert(b[p] == '.');
            }
        }
    }
    lemma_digits_value_nonneg(f);
}

} // verus!
