//! What the functions and the editing keys do, stated as relations between
//! their inputs and results.
use vstd::prelude::*;
use crate::number::{fits, is_root, magnitude, power, product, quotient, raise, remainder, signed, NumError, SCALE};
use crate::rpn::{apply_function, apply_operator, negation, odd_whole, pow_value, sqrt_value};
use crate::value::SpecValue;
use crate::repl::{key_step, well_formed, Key, ReplView};
use crate::laws::{plain, with_ctrl};

verus! {

/// `abs` gives the magnitude: a finite value on top of the stack is replaced
/// by one that is not negative and is the value or its negation; the rest
/// of the stack is kept.
pub proof fn law_abs_is_magnitude(stack: Seq<SpecValue>, x: int)
    requires
        stack.len() >= 1,
        stack.last() == SpecValue::Finite(x),
    ensures
        apply_function("abs"@, stack) is Ok,
        apply_function("abs"@, stack) matches Ok(r) ==> {
            &&& r.len() == stack.len()
            &&& r.drop_last() == stack.drop_last()
            &&& exists|y: int| r.last() == SpecValue::Finite(y) && y >= 0 && (y == x || y == -x)
        },
{
    reveal_strlit("abs");
    reveal_strlit("sqrt");
    assert("abs"@ != "sqrt"@) by {
        assert("abs"@.len() != "sqrt"@.len());
    }
    let r = stack.take(stack.len() - 1).push(SpecValue::Finite(magnitude(x)));
    assert(r.drop_last() =~= stack.drop_last());
    assert(r.last() == SpecValue::Finite(magnitude(x)));
}

/// `max` of two finite values is the larger one in signed order, and `min`
/// the smaller: not below (not above) either argument, and equal to one of
/// them; the two arguments make way for it on the stack.
pub proof fn law_max_min_order(stack: Seq<SpecValue>, x: int, y: int)
    requires
        stack.len() >= 2,
        stack[stack.len() - 2] == SpecValue::Finite(x),
        stack.last() == SpecValue::Finite(y),
    ensures
        apply_function("max"@, stack) is Ok,
        apply_function("min"@, stack) is Ok,
        apply_function("max"@, stack) matches Ok(r) ==> {
            &&& r.len() == stack.len() - 1
            &&& r.take(stack.len() - 2) == stack.take(stack.len() - 2)
            &&& exists|z: int| r.last() == SpecValue::Finite(z) && z >= x && z >= y && (z == x || z == y)
        },
        apply_function("min"@, stack) matches Ok(r) ==> {
            &&& r.len() == stack.len() - 1
            &&& r.take(stack.len() - 2) == stack.take(stack.len() - 2)
            &&& exists|z: int| r.last() == SpecValue::Finite(z) && z <= x && z <= y && (z == x || z == y)
        },
{
    reveal_strlit("max");
    reveal_strlit("min");
    reveal_strlit("sqrt");
    reveal_strlit("abs");
    reveal_strlit("pow");
    let (sq, ab, pw, mx, mn) = ("sqrt"@, "abs"@, "pow"@, "max"@, "min"@);
    assert(sq[0] == 's' && ab[0] == 'a' && pw[0] == 'p' && mx[0] == 'm' && mn[0] == 'm');
    assert(mx[1] == 'a' && mn[1] == 'i');
    assert(mx != sq && mx != ab && mx != pw && mn != sq && mn != ab && mn != pw && mx != mn);
    let n = stack.len();
    let big = if x < y { y } else { x };
    let small = if y < x { y } else { x };
    let r1 = stack.take(n - 2).push(SpecValue::Finite(big));
    let r2 = stack.take(n - 2).push(SpecValue::Finite(small));
    assert(r1.take(n - 2) =~= stack.take(n - 2));
    assert(r2.take(n - 2) =~= stack.take(n - 2));
    assert(r1.last() == SpecValue::Finite(big));
    assert(r2.last() == SpecValue::Finite(small));
}

/// A value negated when `odd` holds.
pub open spec fn negated_if(v: SpecValue, odd: bool) -> SpecValue {
    if odd {
        negation(v)
    } else {
        v
    }
}

proof fn lemma_product_negated(a: int, b: int)
    ensures
        product(-a, b) == -product(a, b),
        product(a, -b) == -product(a, b),
        product(-a, -b) == product(a, b),
{
    assert(magnitude(-a) == magnitude(a));
    assert(magnitude(-b) == magnitude(b));
    let m = magnitude(a) * magnitude(b) / (SCALE as int);
    if a == 0 || b == 0 {
        assert(magnitude(a) * magnitude(b) == 0) by (nonlinear_arith)
            requires
                magnitude(a) == 0 || magnitude(b) == 0,
        ;
    }
}

proof fn lemma_quotient_negated(a: int, b: int)
    requires
        b != 0,
    ensures
        quotient(a, -b) == -quotient(a, b),
{
}

proof fn lemma_product_nonneg(a: int, b: int)
    requires
        a >= 0,
        b >= 0,
    ensures
        product(a, b) >= 0,
{
    assert(magnitude(a) * magnitude(b) >= 0) by (nonlinear_arith)
        requires
            magnitude(a) >= 0,
            magnitude(b) >= 0,
    ;
}

proof fn lemma_square_nonneg(h: int)
    ensures
        product(h, h) >= 0,
{
    assert(magnitude(h) * magnitude(h) >= 0) by (nonlinear_arith)
        requires
            magnitude(h) >= 0,
    ;
}

/// The power of the negated base is the power, negated for an odd exponent.
proof fn lemma_power_negated(b: int, n: nat)
    ensures
        power(-b, n) == match power(b, n) {
            Some(p) => Some(if n % 2 == 1 { -p } else { p }),
            None => None,
        },
    decreases n,
{
    if n > 0 {
        lemma_power_negated(b, n / 2);
        match power(b, n / 2) {
            Some(h) => {
                let h2 = if (n / 2) % 2 == 1 { -h } else { h };
                lemma_product_negated(h, h);
                assert(product(h2, h2) == product(h, h));
                let sq = product(h, h);
                lemma_product_negated(sq, b);
            },
            None => {},
        }
    }
}

/// The power of a base that is not negative is not negative.
proof fn lemma_power_nonneg(b: int, n: nat)
    requires
        b >= 0,
    ensures
        power(b, n) matches Some(p) ==> p >= 0,
    decreases n,
{
    if n > 0 {
        lemma_power_nonneg(b, n / 2);
        match power(b, n / 2) {
            Some(h) => {
                lemma_square_nonneg(h);
                lemma_product_nonneg(product(h, h), b);
            },
            None => {},
        }
    }
}

proof fn lemma_power_one(n: nat)
    ensures
        power(SCALE as int, n) == Some(SCALE as int),
    decreases n,
{
    if n > 0 {
        lemma_power_one(n / 2);
        assert(magnitude(1_000_000_000) == 1_000_000_000);
        assert(1_000_000_000int * 1_000_000_000int == 1_000_000_000_000_000_000int);
        assert(1_000_000_000_000_000_000int / 1_000_000_000int == 1_000_000_000int);
        assert(product(SCALE as int, SCALE as int) == SCALE as int);
        assert(fits(SCALE as int)) by {
            crate::number::lemma_limit_large();
        }
    }
}

/// `raise` of the negated base, for a whole exponent.
proof fn lemma_raise_negated(x: int, y: int)
    requires
        magnitude(y) % (SCALE as int) == 0,
    ensures
        raise(-x, y) == match raise(x, y) {
            Ok(p) => Ok(if odd_whole(y) { -p } else { p }),
            Err(e) => Err(e),
        },
        raise(-x, y) is Err <==> raise(x, y) is Err,
{
    let n = (magnitude(y) / (SCALE as int)) as nat;
    lemma_power_negated(x, n);
    assert(odd_whole(y) == (n % 2 == 1));
    match power(x, n) {
        Some(p) => {
            if y < 0 && p != 0 {
                lemma_quotient_negated(SCALE as int, p);
            }
        },
        None => {},
    }
}

/// `pow` of a negated base, for a whole exponent: the power of the base,
/// negated when the exponent is odd. With `law_pow_positive_base`, a
/// negative base to an odd power gives a result that is not positive, and
/// to an even one a result that is not negative.
pub proof fn law_pow_negated_base(x: int, y: int)
    requires
        x != 0,
        magnitude(y) % (SCALE as int) == 0,
    ensures
        pow_value(SpecValue::Finite(-x), SpecValue::Finite(y)) == negated_if(
            pow_value(SpecValue::Finite(x), SpecValue::Finite(y)),
            odd_whole(y),
        ),
{
    lemma_raise_negated(x, y);
    let n = (magnitude(y) / (SCALE as int)) as nat;
    lemma_power_one(n);
    if y == 0 {
        assert(!odd_whole(y));
    } else if x == SCALE as int || x == -(SCALE as int) {
        assert(raise(SCALE as int, y) == Ok::<int, NumError>(SCALE as int)) by {
            if y < 0 {
                assert(quotient(SCALE as int, SCALE as int) == SCALE as int);
                crate::number::lemma_limit_large();
            }
        }
    }
}

/// `pow` of a positive base to a whole exponent is not negative: a number
/// that is not negative, or the positive infinity.
pub proof fn law_pow_positive_base(x: int, y: int)
    requires
        x > 0,
        magnitude(y) % (SCALE as int) == 0,
    ensures
        pow_value(SpecValue::Finite(x), SpecValue::Finite(y)) matches SpecValue::Finite(p) ==> p >= 0,
        !(pow_value(SpecValue::Finite(x), SpecValue::Finite(y)) is NaN),
        pow_value(SpecValue::Finite(x), SpecValue::Finite(y)) matches SpecValue::Infinite(negative) ==> !negative,
{
    let n = (magnitude(y) / (SCALE as int)) as nat;
    lemma_power_nonneg(x, n);
    match power(x, n) {
        Some(p) => {
            if y < 0 && p != 0 {
                assert(quotient(SCALE as int, p) >= 0);
            }
        },
        None => {},
    }
}

/// `k` to the power `n`, exactly.
pub open spec fn int_pow(k: int, n: nat) -> int
    decreases n,
{
    if n == 0 {
        1
    } else {
        k * int_pow(k, (n - 1) as nat)
    }
}

proof fn lemma_int_pow_add(k: int, a: nat, b: nat)
    ensures
        int_pow(k, a + b) == int_pow(k, a) * int_pow(k, b),
    decreases b,
{
    if b > 0 {
        lemma_int_pow_add(k, a, (b - 1) as nat);
        assert(int_pow(k, a + b) == k * int_pow(k, (a + b - 1) as nat));
        assert(k * (int_pow(k, a) * int_pow(k, (b - 1) as nat)) == int_pow(k, a) * (k * int_pow(k, (b - 1) as nat))) by (nonlinear_arith);
    }
}

proof fn lemma_int_pow_grows(k: int, m: nat, n: nat)
    requires
        m <= n,
        k != 0,
    ensures
        magnitude(int_pow(k, m)) <= magnitude(int_pow(k, n)),
        magnitude(int_pow(k, m)) >= 1,
    decreases n,
{
    if m < n {
        lemma_int_pow_grows(k, m, (n - 1) as nat);
        let p = int_pow(k, (n - 1) as nat);
        assert(magnitude(k * p) == magnitude(k) * magnitude(p)) by (nonlinear_arith)
            requires
                true,
        ;
        assert(magnitude(k) * magnitude(p) >= magnitude(p)) by (nonlinear_arith)
            requires
                magnitude(k) >= 1,
                magnitude(p) >= 1,
        ;
    } else if n > 0 {
        lemma_int_pow_grows(k, (n - 1) as nat, (n - 1) as nat);
        let p = int_pow(k, (n - 1) as nat);
        assert(magnitude(k * p) == magnitude(k) * magnitude(p)) by (nonlinear_arith);
        assert(magnitude(k) * magnitude(p) >= 1) by (nonlinear_arith)
            requires
                magnitude(k) >= 1,
                magnitude(p) >= 1,
        ;
    }
}

proof fn lemma_int_pow_zero(n: nat)
    requires
        n > 0,
    ensures
        int_pow(0, n) == 0,
{
}

/// Products of whole numbers are exact.
proof fn lemma_product_whole(a: int, c: int)
    ensures
        product(a * (SCALE as int), c * (SCALE as int)) == a * c * (SCALE as int),
{
    let s = SCALE as int;
    assert(magnitude(a * s) == magnitude(a) * s) by (nonlinear_arith)
        requires
            s > 0,
    ;
    assert(magnitude(c * s) == magnitude(c) * s) by (nonlinear_arith)
        requires
            s > 0,
    ;
    assert(magnitude(a) * s * (magnitude(c) * s) == (magnitude(a) * magnitude(c) * s) * s) by (nonlinear_arith);
    vstd::arithmetic::div_mod::lemma_div_by_multiple(magnitude(a) * magnitude(c) * s, s);
    assert((a * s < 0) == (a < 0)) by (nonlinear_arith)
        requires
            s > 0,
    ;
    assert((c * s < 0) == (c < 0)) by (nonlinear_arith)
        requires
            s > 0,
    ;
    assert(signed((a < 0) != (c < 0), magnitude(a) * magnitude(c) * s) == a * c * s) by (nonlinear_arith)
        requires
            s > 0,
    ;
}

/// A whole number to a whole power is exact while it fits.
proof fn lemma_power_whole(k: int, n: nat)
    requires
        fits(int_pow(k, n) * (SCALE as int)),
    ensures
        power(k * (SCALE as int), n) == Some(int_pow(k, n) * (SCALE as int)),
    decreases n,
{
    let s = SCALE as int;
    if n > 0 {
        let m = n / 2;
        let mm = (2 * m) as nat;
        if k == 0 {
            if m > 0 {
                lemma_int_pow_zero(m);
                lemma_int_pow_zero(mm);
            }
            crate::number::lemma_limit_large();
            assert(fits(int_pow(k, m) * s));
        } else {
            lemma_int_pow_grows(k, m, n);
            lemma_int_pow_grows(k, mm, n);
            assert(magnitude(int_pow(k, m) * s) == magnitude(int_pow(k, m)) * s) by (nonlinear_arith)
                requires
                    s > 0,
            ;
            assert(magnitude(int_pow(k, mm) * s) == magnitude(int_pow(k, mm)) * s) by (nonlinear_arith)
                requires
                    s > 0,
            ;
            assert(magnitude(int_pow(k, n) * s) == magnitude(int_pow(k, n)) * s) by (nonlinear_arith)
                requires
                    s > 0,
            ;
            assert(magnitude(int_pow(k, m)) * s <= magnitude(int_pow(k, n)) * s) by (nonlinear_arith)
                requires
                    magnitude(int_pow(k, m)) <= magnitude(int_pow(k, n)),
                    s > 0,
            ;
            assert(magnitude(int_pow(k, mm)) * s <= magnitude(int_pow(k, n)) * s) by (nonlinear_arith)
                requires
                    magnitude(int_pow(k, mm)) <= magnitude(int_pow(k, n)),
                    s > 0,
            ;
        }
        lemma_power_whole(k, m);
        let h = int_pow(k, m);
        lemma_product_whole(h, h);
        lemma_int_pow_add(k, m, m);
        assert(h * h * s == int_pow(k, mm) * s);
        if n % 2 == 1 {
            lemma_product_whole(h * h, k);
            lemma_int_pow_add(k, mm, 1);
            assert(int_pow(k, 0) == 1);
            assert(int_pow(k, 1) == k * int_pow(k, 0));
            assert(int_pow(k, 1) == k);
            assert(mm + 1 == n);
            assert(h * h * k * s == int_pow(k, n) * s) by (nonlinear_arith)
                requires
                    int_pow(k, n) == int_pow(k, mm) * k,
                    int_pow(k, mm) == h * h,
            ;
        } else {
            assert(mm == n);
        }
    }
}

/// `pow` of whole numbers is the exact power while it fits: for a whole
/// base `k` and a whole exponent `n`, the result is k^n.
pub proof fn law_pow_whole_numbers(k: int, n: nat)
    requires
        fits(int_pow(k, n) * (SCALE as int)),
    ensures
        pow_value(SpecValue::Finite(k * (SCALE as int)), SpecValue::Finite(n * (SCALE as int))) == SpecValue::Finite(
            int_pow(k, n) * (SCALE as int),
        ),
{
    let s = SCALE as int;
    lemma_power_whole(k, n);
    assert(magnitude(n * s) == n * s) by (nonlinear_arith)
        requires
            s > 0,
            n >= 0,
    ;
    vstd::arithmetic::div_mod::lemma_div_by_multiple(n as int, s);
    vstd::arithmetic::div_mod::lemma_mod_multiples_basic(n as int, s);
    if n == 0 {
        assert(n * s == 0);
    }
    if k * s == s {
        assert(k == 1) by (nonlinear_arith)
            requires
                k * s == s,
                s > 0,
        ;
        lemma_int_pow_one(n);
    }
}

proof fn lemma_int_pow_one(n: nat)
    ensures
        int_pow(1, n) == 1,
    decreases n,
{
    if n > 0 {
        lemma_int_pow_one((n - 1) as nat);
    }
}

/// The operators on finite values: a sum and a difference are exact while
/// they fit; a product of numbers that are not negative is the exact
/// product, in units, truncated; a quotient of them is the exact quotient
/// truncated; a remainder `r` of `x` by `y` leaves `x - r` a multiple of
/// `y`, is smaller than `y` in size and has the sign of `x`.
pub proof fn law_operators_on_numbers(x: int, y: int)
    ensures
        fits(x + y) ==> apply_operator('+', SpecValue::Finite(x), SpecValue::Finite(y)) == Ok::<
            SpecValue,
            Seq<char>,
        >(SpecValue::Finite(x + y)),
        fits(x - y) ==> apply_operator('-', SpecValue::Finite(x), SpecValue::Finite(y)) == Ok::<
            SpecValue,
            Seq<char>,
        >(SpecValue::Finite(x - y)),
        (x >= 0 && y >= 0) ==> (apply_operator('*', SpecValue::Finite(x), SpecValue::Finite(y)) matches Ok(
            SpecValue::Finite(p),
        ) ==> p * (SCALE as int) <= x * y < (p + 1) * (SCALE as int)),
        (x >= 0 && y > 0) ==> (apply_operator('/', SpecValue::Finite(x), SpecValue::Finite(y)) matches Ok(
            SpecValue::Finite(q),
        ) ==> q * y <= x * (SCALE as int) < (q + 1) * y),
        y != 0 ==> (apply_operator('%', SpecValue::Finite(x), SpecValue::Finite(y)) matches Ok(SpecValue::Finite(r))
            && (x - r) % magnitude(y) == 0 && magnitude(r) < magnitude(y) && (r == 0 || (r < 0) == (x < 0))),
{
    let s = SCALE as int;
    if x >= 0 && y >= 0 {
        let m = x * y;
        assert(m >= 0) by (nonlinear_arith)
            requires
                x >= 0,
                y >= 0,
                m == x * y,
        ;
        vstd::arithmetic::div_mod::lemma_fundamental_div_mod(m, s);
        vstd::arithmetic::div_mod::lemma_mod_pos_bound(m, s);
        assert(product(x, y) == m / s);
        assert((m / s) * s <= m < (m / s + 1) * s) by (nonlinear_arith)
            requires
                m == s * (m / s) + m % s,
                0 <= m % s < s,
        ;
    }
    if x >= 0 && y > 0 {
        let m = x * s;
        assert(m >= 0) by (nonlinear_arith)
            requires
                x >= 0,
                s > 0,
                m == x * s,
        ;
        vstd::arithmetic::div_mod::lemma_fundamental_div_mod(m, y);
        vstd::arithmetic::div_mod::lemma_mod_pos_bound(m, y);
        assert(quotient(x, y) == m / y);
        assert((m / y) * y <= m < (m / y + 1) * y) by (nonlinear_arith)
            requires
                m == y * (m / y) + m % y,
                0 <= m % y < y,
        ;
    }
    if y != 0 {
        let ax = magnitude(x);
        let ay = magnitude(y);
        vstd::arithmetic::div_mod::lemma_fundamental_div_mod(ax, ay);
        vstd::arithmetic::div_mod::lemma_mod_pos_bound(ax, ay);
        let r = remainder(x, y);
        let t0 = ax / ay;
        let t = if (x < 0) == (y < 0) { t0 } else { -t0 };
        assert(x - r == (if (x < 0) == (y < 0) { t0 } else { -t0 }) * (if y < 0 { -ay } else { ay })) by (nonlinear_arith)
            requires
                ax == ay * t0 + ax % ay,
                r == (if x < 0 { -(ax % ay) } else { ax % ay }),
                ax == (if x < 0 { -x } else { x }),
                ay == (if y < 0 { -y } else { y }),
                t == (if (x < 0) == (y < 0) { t0 } else { -t0 }),
        ;
        let u = if x < 0 { -t0 } else { t0 };
        assert(x - r == u * ay) by (nonlinear_arith)
            requires
                ax == ay * t0 + ax % ay,
                r == (if x < 0 { -(ax % ay) } else { ax % ay }),
                ax == (if x < 0 { -x } else { x }),
                u == (if x < 0 { -t0 } else { t0 }),
        ;
        vstd::arithmetic::div_mod::lemma_mod_multiples_basic(u, ay);
        assert(u * ay == ay * u) by (nonlinear_arith);
    }
}

/// The square root of a number that is not negative is, in units, the
/// largest root whose square is not above the number.
pub proof fn law_sqrt_is_root(stack: Seq<SpecValue>, x: int)
    requires
        stack.len() >= 1,
        stack.last() == SpecValue::Finite(x),
        x >= 0,
    ensures
        apply_function("sqrt"@, stack) matches Ok(st) && st.len() == stack.len() && (st.last() matches SpecValue::Finite(
            r,
        ) && r >= 0 && r * r <= x * (SCALE as int) < (r + 1) * (r + 1)),
{
    reveal_strlit("sqrt");
    let st = stack.take(stack.len() - 1).push(sqrt_value(stack.last()));
    let n = x * (SCALE as int);
    assert(n >= 0) by (nonlinear_arith)
        requires
            x >= 0,
            n == x * 1_000_000_000,
    ;
    lemma_root_exists(n);
    let c = choose|r: int| #[trigger] is_root(x * (SCALE as int), r);
    assert(is_root(n, c));
}

proof fn lemma_root_exists(n: int)
    requires
        n >= 0,
    ensures
        exists|r: int| #[trigger] is_root(n, r),
    decreases n,
{
    if n == 0 {
        assert(is_root(0, 0));
    } else {
        lemma_root_exists(n - 1);
        let r = choose|r: int| #[trigger] is_root(n - 1, r);
        if (r + 1) * (r + 1) <= n {
            assert(n < (r + 2) * (r + 2)) by (nonlinear_arith)
                requires
                    n - 1 < (r + 1) * (r + 1),
                    r >= 0,
            ;
            assert(is_root(n, r + 1));
        } else {
            assert(is_root(n, r));
        }
    }
}

/// Delete removes exactly the character under the cursor, which stays: the
/// line loses one character, the part before the cursor is kept, and the
/// part after it moves down by one; at the end of the line nothing changes.
pub proof fn law_delete_removes_under_cursor(v: ReplView, q: Seq<(Seq<char>, int)>)
    requires
        well_formed(v),
    ensures
        ({
            let w = key_step(v, plain(Key::Delete), q).0;
            &&& w.cursor == v.cursor
            &&& v.cursor < v.buffer.len() ==> {
                &&& w.buffer.len() == v.buffer.len() - 1
                &&& w.buffer.take(v.cursor) == v.buffer.take(v.cursor)
                &&& w.buffer.skip(v.cursor) == v.buffer.skip(v.cursor + 1)
            }
            &&& v.cursor == v.buffer.len() ==> w.buffer == v.buffer
        }),
{
    let w = key_step(v, plain(Key::Delete), q).0;
    if v.cursor < v.buffer.len() {
        assert(w.buffer.take(v.cursor) =~= v.buffer.take(v.cursor));
        assert(w.buffer.skip(v.cursor) =~= v.buffer.skip(v.cursor + 1));
    }
}

/// On a line that is not empty, Delete does what Control-D does; after a
/// move to the left it does what Backspace does.
pub proof fn law_delete_agrees(v: ReplView, q: Seq<(Seq<char>, int)>)
    requires
        well_formed(v),
    ensures
        v.buffer.len() > 0 ==> key_step(v, plain(Key::Delete), q) == key_step(v, with_ctrl('d'), q),
        v.cursor > 0 ==> key_step(key_step(v, plain(Key::Left), q).0, plain(Key::Delete), q).0 == key_step(
            v,
            plain(Key::Backspace),
            q,
        ).0,
{
}

} // verus!
