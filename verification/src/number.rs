//! Decimal fixed-point numbers: every value is a whole number of units,
//! one unit being 10^-9, with a whole part below 2^1024, the bound past
//! which a double-precision float is infinite.
use vstd::prelude::*;
use vstd::arithmetic::div_mod::{lemma_fundamental_div_mod, lemma_fundamental_div_mod_converse};
use vstd::arithmetic::mul::lemma_mul_upper_bound;
use crate::natural::{
    base, base_pow, div, div_small, from_u128, is_nought, less, lemma_value_nonneg, minus, mul_small,
    plus, root, shifted, times, to_u128, trimmed, value,
};

verus! {

/// Units in one whole.
pub const SCALE: u128 = 1_000_000_000;

/// The bound on magnitudes, in units: a whole part of 2^1024.
pub open spec fn limit() -> int {
    base_pow(32) * (SCALE as int)
}

/// `m` with a minus sign when `negative`.
pub open spec fn signed(negative: bool, m: int) -> int {
    if negative { -m } else { m }
}

/// Absolute value.
pub open spec fn magnitude(v: int) -> int {
    if v < 0 { -v } else { v }
}

/// Whether a value, in units, can be held by a `Num`.
pub open spec fn fits(v: int) -> bool {
    magnitude(v) < limit()
}

/// `Some(v)` when `v` fits, `None` otherwise.
pub open spec fn checked(v: int) -> Option<int> {
    if fits(v) { Some(v) } else { None }
}

/// Product of two values in units, truncated toward zero.
pub open spec fn product(a: int, b: int) -> int {
    signed((a < 0) != (b < 0), magnitude(a) * magnitude(b) / (SCALE as int))
}

/// Quotient of two values in units, truncated toward zero.
pub open spec fn quotient(a: int, b: int) -> int {
    signed((a < 0) != (b < 0), magnitude(a) * (SCALE as int) / magnitude(b))
}

/// Remainder of a truncated division: it has the sign of the dividend.
pub open spec fn remainder(a: int, b: int) -> int {
    signed(a < 0, magnitude(a) % magnitude(b))
}

/// `r` is the integer square root of `n`.
pub open spec fn is_root(n: int, r: int) -> bool {
    0 <= r && r * r <= n && n < (r + 1) * (r + 1)
}

/// Square root of a non-negative value in units, truncated.
pub open spec fn square_root(a: int) -> int {
    choose|r: int| #[trigger] is_root(a * (SCALE as int), r)
}

/// The larger of two values.
pub open spec fn larger(a: int, b: int) -> int {
    if a < b { b } else { a }
}

/// The smaller of two values.
pub open spec fn smaller(a: int, b: int) -> int {
    if b < a { b } else { a }
}

/// `b` raised to the whole power `e`, by squaring and multiplying, each
/// step truncated as `product` is; `None` when a step does not fit.
pub open spec fn power(b: int, e: nat) -> Option<int>
    decreases e,
{
    if e == 0 {
        Some(SCALE as int)
    } else {
        match power(b, e / 2) {
            None => None,
            Some(h) => {
                let sq = product(h, h);
                if !fits(sq) {
                    None
                } else if e % 2 == 1 {
                    checked(product(sq, b))
                } else {
                    Some(sq)
                }
            },
        }
    }
}

/// Why an operation on numbers gives no number.
#[derive(Clone, Copy, Debug, PartialEq, Eq)]
pub enum NumError {
    /// The result does not fit.
    Overflow,
    /// A power of zero with a negative exponent.
    DivisionByZero,
    /// A negative base with a fractional exponent.
    FractionalExponent,
}

/// Binary places to which a fractional exponent is taken.
pub const FRACTION_BITS: u128 = 30;

/// 2 to the power `k`.
pub open spec fn two_to(k: nat) -> int
    decreases k,
{
    if k == 0 {
        1
    } else {
        2 * two_to((k - 1) as nat)
    }
}

/// `b` to the power 2^-k: the square root taken `k` times, each truncated.
pub open spec fn root_chain(b: int, k: nat) -> int
    decreases k,
{
    if k == 0 {
        b
    } else {
        square_root(root_chain(b, (k - 1) as nat))
    }
}

/// The `j`-th binary place of the fraction m / 2^30 is one.
pub open spec fn bit_set(m: int, j: nat) -> bool {
    (m / two_to((FRACTION_BITS - j) as nat)) % 2 == 1
}

/// `b` to the power m / 2^30, from its first `j` binary places: the
/// product, truncated at each step, of the roots `root_chain(b, i)` for the
/// places `i` that are one; `None` when a step does not fit.
pub open spec fn fraction_power(b: int, m: int, j: nat) -> Option<int>
    decreases j,
{
    if j == 0 {
        Some(SCALE as int)
    } else {
        match fraction_power(b, m, (j - 1) as nat) {
            None => None,
            Some(a) => if bit_set(m, j) {
                checked(product(a, root_chain(b, j)))
            } else {
                Some(a)
            },
        }
    }
}

proof fn lemma_two_to_positive(k: nat)
    ensures
        two_to(k) >= 1,
    decreases k,
{
    if k > 0 {
        lemma_two_to_positive((k - 1) as nat);
    }
}

proof fn lemma_fraction_none(b: int, m: int, j: nat, k: nat)
    requires
        j <= k,
        fraction_power(b, m, j) is None,
    ensures
        fraction_power(b, m, k) is None,
    decreases k - j,
{
    if j < k {
        lemma_fraction_none(b, m, j, (k - 1) as nat);
    }
}

/// The fractional part of an exponent in units as a fraction of 2^30,
/// truncated.
pub open spec fn binary_fraction(e: int) -> int {
    (magnitude(e) % (SCALE as int)) * two_to(FRACTION_BITS as nat) / (SCALE as int)
}

/// `b` raised to the power `e` (both in units): the whole part of the
/// exponent by `power`, its fractional part, to 30 binary places, by
/// `fraction_power`, which a negative base does not take; a negative
/// exponent divides one by the positive power, and gives zero where that
/// power is too large to hold.
pub open spec fn raise(b: int, e: int) -> Result<int, NumError> {
    let whole = (magnitude(e) / (SCALE as int)) as nat;
    let fractional = magnitude(e) % (SCALE as int) != 0;
    if fractional && b < 0 {
        Err(NumError::FractionalExponent)
    } else {
        let full = match power(b, whole) {
            None => None,
            Some(p) => if !fractional {
                Some(p)
            } else {
                match fraction_power(b, binary_fraction(e), FRACTION_BITS as nat) {
                    None => None,
                    Some(q) => checked(product(p, q)),
                }
            },
        };
        match full {
            None => if e >= 0 {
                Err(NumError::Overflow)
            } else {
                Ok(0)
            },
            Some(p) => if e >= 0 {
                Ok(p)
            } else if p == 0 {
                Err(NumError::DivisionByZero)
            } else {
                match checked(quotient(SCALE as int, p)) {
                    None => Err(NumError::Overflow),
                    Some(q) => Ok(q),
                }
            },
        }
    }
}

/// A signed decimal number with nine fractional digits.
#[derive(Debug)]
pub struct Num {
    negative: bool,
    magnitude: Vec<u32>,
}

impl View for Num {
    type V = int;

    /// The value in units of 10^-9.
    closed spec fn view(&self) -> int {
        signed(self.negative, value(self.magnitude@))
    }
}

/// The values, in units, of an optional number.
pub open spec fn view_opt(o: Option<Num>) -> Option<int> {
    match o {
        Some(n) => Some(n@),
        None => None,
    }
}

proof fn lemma_root_unique(n: int, r1: int, r2: int)
    requires
        is_root(n, r1),
        is_root(n, r2),
    ensures
        r1 == r2,
{
    if r1 < r2 {
        lemma_mul_upper_bound(r1 + 1, r2, r1 + 1, r2);
    } else if r2 < r1 {
        lemma_mul_upper_bound(r2 + 1, r1, r2 + 1, r1);
    }
}

proof fn lemma_quotient_of(n: int, d: int, q: int, r: int)
    requires
        n == q * d + r,
        0 <= r < d,
    ensures
        q == n / d,
{
    lemma_fundamental_div_mod_converse(n, d, q, r);
}

/// The bound on magnitudes as limbs.
fn limit_limbs() -> (r: Vec<u32>)
    ensures
        value(r@) == limit(),
{
    let mut p = crate::natural::one();
    let mut k: usize = 0;
    while k < 32
        invariant
            k <= 32,
            value(p@) == base_pow(k as nat),
        decreases 32 - k,
    {
        p = shifted(&p);
        k = k + 1;
    }
    mul_small(&p, 1_000_000_000)
}

pub proof fn lemma_limit_large()
    ensures
        limit() > 0x1_0000_0000_0000_0000_0000_0000_0000_0000 * 1_000_000_000,
{
    reveal_with_fuel(base_pow, 5);
    assert(base_pow(4) == 0x1_0000_0000_0000_0000_0000_0000_0000_0000);
    lemma_base_pow_grows(4, 32);
}

proof fn lemma_base_pow_grows(a: nat, b: nat)
    requires
        a <= b,
    ensures
        base_pow(a) <= base_pow(b),
        base_pow(a) >= 1,
    decreases b,
{
    if a < b {
        lemma_base_pow_grows(a, (b - 1) as nat);
    } else if a > 0 {
        lemma_base_pow_grows((a - 1) as nat, (a - 1) as nat);
    }
}

impl Num {
    #[verifier::type_invariant]
    spec fn well_formed(self) -> bool {
        value(self.magnitude@) < limit() && (value(self.magnitude@) == 0 ==> !self.negative)
    }

    /// The number of a sign and a magnitude below the bound.
    fn make(negative: bool, m: Vec<u32>) -> (r: Num)
        requires
            value(m@) < limit(),
        ensures
            r@ == signed(negative, value(m@)),
            fits(r@),
    {
        proof {
            lemma_value_nonneg(m@, 0);
        }
        let zero = is_nought(&m);
        Num { negative: negative && !zero, magnitude: m }
    }

    /// The number of a sign and a magnitude, when it fits.
    fn fitted(negative: bool, m: Vec<u32>) -> (r: Option<Num>)
        ensures
            view_opt(r) == checked(signed(negative, value(m@))),
    {
        proof {
            lemma_value_nonneg(m@, 0);
        }
        let bound = limit_limbs();
        if less(&m, &bound) {
            Some(Num::make(negative, m))
        } else {
            None
        }
    }

    /// A copy of this number.
    pub fn copy(&self) -> (r: Num)
        ensures
            r@ == self@,
    {
        proof {
            use_type_invariant(self);
        }
        let m = plus(&self.magnitude, &Vec::new());
        Num::make(self.negative, trimmed(m))
    }

    /// The magnitude in units, as limbs.
    pub fn magnitude_limbs(&self) -> (r: Vec<u32>)
        ensures
            value(r@) == magnitude(self@),
            magnitude(self@) < limit(),
    {
        proof {
            use_type_invariant(self);
            lemma_value_nonneg(self.magnitude@, 0);
        }
        trimmed(plus(&self.magnitude, &Vec::new()))
    }

    /// Zero.
    pub fn zero() -> (r: Num)
        ensures
            r@ == 0,
    {
        proof {
            lemma_limit_large();
        }
        Num::make(false, Vec::new())
    }

    /// One whole.
    pub fn one() -> (r: Num)
        ensures
            r@ == SCALE as int,
    {
        proof {
            lemma_limit_large();
        }
        Num::make(false, from_u128(SCALE))
    }

    /// The number with the given value in units.
    pub fn from_units(negative: bool, m: u128) -> (r: Num)
        ensures
            r@ == signed(negative, m as int),
    {
        proof {
            lemma_limit_large();
        }
        Num::make(negative, from_u128(m))
    }

    /// The number of a sign and a magnitude in units, as limbs, when it fits.
    pub fn from_limbs(negative: bool, m: Vec<u32>) -> (r: Option<Num>)
        ensures
            view_opt(r) == checked(signed(negative, value(m@))),
    {
        Num::fitted(negative, trimmed(m))
    }

    /// Whether the number is below zero.
    pub fn is_negative(&self) -> (r: bool)
        ensures
            r == (self@ < 0),
    {
        proof {
            use_type_invariant(self);
            lemma_value_nonneg(self.magnitude@, 0);
        }
        self.negative
    }

    /// Whether the number is zero.
    pub fn is_zero(&self) -> (r: bool)
        ensures
            r == (self@ == 0),
    {
        proof {
            use_type_invariant(self);
            lemma_value_nonneg(self.magnitude@, 0);
        }
        is_nought(&self.magnitude)
    }

    /// The magnitude in units, when it fits 128 bits.
    pub fn units(&self) -> (r: Option<u128>)
        ensures
            match r {
                Some(u) => u as int == magnitude(self@),
                None => magnitude(self@) > u128::MAX,
            },
    {
        proof {
            use_type_invariant(self);
            lemma_value_nonneg(self.magnitude@, 0);
        }
        let top = from_u128(u128::MAX);
        if less(&top, &self.magnitude) {
            None
        } else {
            Some(to_u128(&self.magnitude))
        }
    }

    /// Absolute value.
    pub fn abs(&self) -> (r: Num)
        ensures
            r@ == magnitude(self@),
    {
        let m = self.magnitude_limbs();
        Num::make(false, m)
    }

    /// The number with its sign turned.
    pub fn negated(&self) -> (r: Num)
        ensures
            r@ == -self@,
    {
        proof {
            use_type_invariant(self);
            lemma_value_nonneg(self.magnitude@, 0);
        }
        let m = self.magnitude_limbs();
        Num::make(!self.negative, m)
    }

    /// Whether this number is smaller than `other`.
    pub fn less_than(&self, other: &Num) -> (r: bool)
        ensures
            r == (self@ < other@),
    {
        proof {
            use_type_invariant(self);
            use_type_invariant(other);
            lemma_value_nonneg(self.magnitude@, 0);
            lemma_value_nonneg(other.magnitude@, 0);
        }
        if self.negative {
            if other.negative {
                less(&other.magnitude, &self.magnitude)
            } else {
                true
            }
        } else {
            if other.negative {
                false
            } else {
                less(&self.magnitude, &other.magnitude)
            }
        }
    }

    /// The larger of the two numbers.
    pub fn max(&self, other: &Num) -> (r: Num)
        ensures
            r@ == larger(self@, other@),
    {
        if self.less_than(other) {
            other.copy()
        } else {
            self.copy()
        }
    }

    /// The smaller of the two numbers.
    pub fn min(&self, other: &Num) -> (r: Num)
        ensures
            r@ == smaller(self@, other@),
    {
        if other.less_than(self) {
            other.copy()
        } else {
            self.copy()
        }
    }

    /// Sum, when it fits; a sum that does not fit has the sign of `self`.
    pub fn add(&self, other: &Num) -> (r: Option<Num>)
        ensures
            view_opt(r) == checked(self@ + other@),
            r is None ==> ((self@ + other@ < 0) == (self@ < 0)),
    {
        proof {
            use_type_invariant(self);
            use_type_invariant(other);
            lemma_value_nonneg(self.magnitude@, 0);
            lemma_value_nonneg(other.magnitude@, 0);
        }
        let a = &self.magnitude;
        let b = &other.magnitude;
        if self.negative == other.negative {
            Num::from_limbs(self.negative, plus(a, b))
        } else if !less(a, b) {
            Num::from_limbs(self.negative, minus(a, b))
        } else {
            Num::from_limbs(other.negative, minus(b, a))
        }
    }

    /// Difference, when it fits; a difference that does not fit has the
    /// sign of `self`.
    pub fn sub(&self, other: &Num) -> (r: Option<Num>)
        ensures
            view_opt(r) == checked(self@ - other@),
            r is None ==> ((self@ - other@ < 0) == (self@ < 0)),
    {
        let flipped = other.negated();
        self.add(&flipped)
    }

    /// Product, truncated toward zero, when it fits; one that does not fit
    /// is negative when exactly one factor is.
    pub fn mul(&self, other: &Num) -> (r: Option<Num>)
        ensures
            view_opt(r) == checked(product(self@, other@)),
            r is None ==> ((product(self@, other@) < 0) == ((self@ < 0) != (other@ < 0))),
    {
        proof {
            use_type_invariant(self);
            use_type_invariant(other);
            lemma_value_nonneg(self.magnitude@, 0);
            lemma_value_nonneg(other.magnitude@, 0);
        }
        let p = times(&self.magnitude, &other.magnitude);
        let (q, rest) = div_small(&p, 1_000_000_000);
        proof {
            lemma_quotient_of(value(p@), SCALE as int, value(q@), rest as int);
            lemma_value_nonneg(q@, 0);
        }
        Num::from_limbs(self.negative != other.negative, q)
    }

    /// Quotient, truncated toward zero, when it fits; one that does not fit
    /// is negative when exactly one operand is.
    pub fn div(&self, other: &Num) -> (r: Option<Num>)
        requires
            other@ != 0,
        ensures
            view_opt(r) == checked(quotient(self@, other@)),
            r is None ==> ((quotient(self@, other@) < 0) == ((self@ < 0) != (other@ < 0))),
    {
        proof {
            use_type_invariant(self);
            use_type_invariant(other);
            lemma_value_nonneg(self.magnitude@, 0);
            lemma_value_nonneg(other.magnitude@, 0);
        }
        let n = mul_small(&self.magnitude, 1_000_000_000);
        let (q, rest) = div(&n, &other.magnitude);
        proof {
            lemma_value_nonneg(q@, 0);
            lemma_quotient_of(value(n@), value(other.magnitude@), value(q@), value(rest@));
        }
        Num::from_limbs(self.negative != other.negative, q)
    }

    /// Remainder of the truncated division; it has the sign of `self`.
    pub fn rem(&self, other: &Num) -> (r: Num)
        requires
            other@ != 0,
        ensures
            r@ == remainder(self@, other@),
    {
        proof {
            use_type_invariant(self);
            use_type_invariant(other);
            lemma_value_nonneg(self.magnitude@, 0);
            lemma_value_nonneg(other.magnitude@, 0);
        }
        let (q, rest) = div(&self.magnitude, &other.magnitude);
        proof {
            lemma_value_nonneg(q@, 0);
            lemma_fundamental_div_mod_converse(value(self.magnitude@), value(other.magnitude@), value(q@), value(rest@));
        }
        Num::make(self.negative, trimmed(rest))
    }

    /// Square root, truncated, of a number that is not negative.
    pub fn sqrt(&self) -> (r: Num)
        requires
            self@ >= 0,
        ensures
            r@ == square_root(self@),
            is_root(self@ * (SCALE as int), r@),
    {
        proof {
            use_type_invariant(self);
            lemma_value_nonneg(self.magnitude@, 0);
        }
        let n = mul_small(&self.magnitude, 1_000_000_000);
        let lo = trimmed(root(&n));
        proof {
            let v = value(self.magnitude@);
            let x = value(lo@);
            assert(self@ == v);
            assert(is_root(self@ * (SCALE as int), x));
            lemma_limit_large();
            if x >= limit() {
                assert(x * x >= limit() * limit()) by (nonlinear_arith)
                    requires
                        x >= limit(),
                        limit() > 0,
                ;
                assert(v * (SCALE as int) < limit() * limit()) by (nonlinear_arith)
                    requires
                        0 <= v < limit(),
                        limit() > SCALE as int,
                ;
            }
            let c = choose|r: int| #[trigger] is_root(self@ * (SCALE as int), r);
            assert(is_root(self@ * (SCALE as int), c));
            lemma_root_unique(self@ * (SCALE as int), c, x);
        }
        Num::make(false, lo)
    }

    fn pow_whole(&self, e: &Vec<u32>) -> (r: Option<Num>)
        ensures
            view_opt(r) == power(self@, value(e@) as nat),
        decreases value(e@),
    {
        proof {
            lemma_value_nonneg(e@, 0);
        }
        if is_nought(e) {
            return Some(Num::one());
        }
        let (half, bit) = div_small(e, 2);
        proof {
            lemma_value_nonneg(half@, 0);
            lemma_quotient_of(value(e@), 2, value(half@), bit as int);
            vstd::arithmetic::div_mod::lemma_fundamental_div_mod_converse(value(e@), 2, value(half@), bit as int);
        }
        match self.pow_whole(&half) {
            None => None,
            Some(h) => match h.mul(&h) {
                None => None,
                Some(sq) => if bit == 1 {
                    sq.mul(self)
                } else {
                    Some(sq)
                },
            },
        }
    }

    /// This number, not negative, to the power m / 2^30 (see
    /// `fraction_power`).
    fn pow_fraction(&self, m: u128) -> (r: Option<Num>)
        requires
            self@ >= 0,
        ensures
            view_opt(r) == fraction_power(self@, m as int, FRACTION_BITS as nat),
    {
        let mut acc = Num::one();
        let mut root = self.copy();
        let mut j: u128 = 0;
        let mut d: u128 = 1_073_741_824;
        proof {
            reveal_with_fuel(two_to, 31);
        }
        while j < FRACTION_BITS
            invariant
                j <= FRACTION_BITS,
                d as int == two_to((FRACTION_BITS - j) as nat),
                root@ == root_chain(self@, j as nat),
                root@ >= 0,
                fraction_power(self@, m as int, j as nat) == Some(acc@),
            decreases FRACTION_BITS - j,
        {
            assert(two_to((FRACTION_BITS - j) as nat) == 2 * two_to((FRACTION_BITS - (j + 1)) as nat));
            proof {
                lemma_two_to_positive((FRACTION_BITS - (j + 1)) as nat);
            }
            j = j + 1;
            d = d / 2;
            root = root.sqrt();
            if (m / d) % 2 == 1 {
                match acc.mul(&root) {
                    None => {
                        proof {
                            lemma_fraction_none(self@, m as int, j as nat, FRACTION_BITS as nat);
                        }
                        return None;
                    },
                    Some(next) => {
                        acc = next;
                    },
                }
            }
        }
        Some(acc)
    }

    /// This number raised to the power `exponent` (see `raise`).
    pub fn pow(&self, exponent: &Num) -> (r: Result<Num, NumError>)
        ensures
            match r {
                Ok(v) => raise(self@, exponent@) == Ok::<int, NumError>(v@),
                Err(e) => raise(self@, exponent@) == Err::<int, NumError>(e),
            },
    {
        let e = exponent.magnitude_limbs();
        let (whole, frac) = div_small(&e, 1_000_000_000);
        proof {
            lemma_value_nonneg(e@, 0);
            lemma_value_nonneg(whole@, 0);
            lemma_quotient_of(value(e@), SCALE as int, value(whole@), frac as int);
            vstd::arithmetic::div_mod::lemma_fundamental_div_mod_converse(value(e@), SCALE as int, value(whole@), frac as int);
        }
        let fractional = frac != 0;
        if fractional && self.is_negative() {
            return Err(NumError::FractionalExponent);
        }
        let full = match self.pow_whole(&whole) {
            None => None,
            Some(p) => if !fractional {
                Some(p)
            } else {
                proof {
                    reveal_with_fuel(two_to, 31);
                }
                let m = (frac as u128) * 1_073_741_824 / SCALE;
                match self.pow_fraction(m) {
                    None => None,
                    Some(q) => p.mul(&q),
                }
            },
        };
        match full {
            None => if exponent.is_negative() {
                Ok(Num::zero())
            } else {
                Err(NumError::Overflow)
            },
            Some(p) => {
                if !exponent.is_negative() {
                    Ok(p)
                } else if p.is_zero() {
                    Err(NumError::DivisionByZero)
                } else {
                    match Num::one().div(&p) {
                        None => Err(NumError::Overflow),
                        Some(q) => Ok(q),
                    }
                }
            },
        }
    }
}

} // verus!
