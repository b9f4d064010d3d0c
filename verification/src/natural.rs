//! Natural numbers of any size, held as 32-bit limbs, least significant
//! first.
use vstd::prelude::*;
use vstd::arithmetic::div_mod::{lemma_fundamental_div_mod, lemma_mod_pos_bound};

verus! {

/// The base of the limbs.
pub open spec fn base() -> int {
    4_294_967_296
}

/// The value of the limbs from position `i` on.
pub open spec fn value_from(s: Seq<u32>, i: int) -> int
    decreases s.len() - i,
{
    if 0 <= i < s.len() {
        s[i] as int + base() * value_from(s, i + 1)
    } else {
        0
    }
}

/// The value of a sequence of limbs.
pub open spec fn value(s: Seq<u32>) -> int {
    value_from(s, 0)
}

/// The limb at `i`, zero past the end.
pub open spec fn limb_at(s: Seq<u32>, i: int) -> int {
    if 0 <= i < s.len() {
        s[i] as int
    } else {
        0
    }
}

/// `base()` to the power `k`.
pub open spec fn base_pow(k: nat) -> int
    decreases k,
{
    if k == 0 {
        1
    } else {
        base() * base_pow((k - 1) as nat)
    }
}

pub proof fn lemma_value_nonneg(s: Seq<u32>, i: int)
    requires
        0 <= i,
    ensures
        value_from(s, i) >= 0,
    decreases s.len() - i,
{
    if i < s.len() {
        lemma_value_nonneg(s, i + 1);
    }
}

/// The value from `i` is the limb there and the rest above it.
pub proof fn lemma_value_step(s: Seq<u32>, i: int)
    requires
        0 <= i,
    ensures
        value_from(s, i) == limb_at(s, i) + base() * value_from(s, i + 1),
{
    if i >= s.len() {
        assert(value_from(s, i + 1) == 0);
    }
}

/// Two sequences that agree from `i` on have the same value from `i`.
proof fn lemma_value_frame(s: Seq<u32>, t: Seq<u32>, i: int)
    requires
        0 <= i,
        s.len() == t.len(),
        forall|k: int| i <= k < s.len() ==> s[k] == t[k],
    ensures
        value_from(s, i) == value_from(t, i),
    decreases s.len() - i,
{
    if i < s.len() {
        lemma_value_frame(s, t, i + 1);
    }
}

/// A value past the last limb is zero.
proof fn lemma_value_past(s: Seq<u32>, i: int)
    requires
        i >= s.len(),
    ensures
        value_from(s, i) == 0,
{
}

/// Dropping a zero top limb keeps the value.
proof fn lemma_drop_zero(s: Seq<u32>, i: int)
    requires
        s.len() > 0,
        s.last() == 0,
        0 <= i <= s.len() - 1,
    ensures
        value_from(s, i) == value_from(s.drop_last(), i),
    decreases s.len() - i,
{
    if i < s.len() - 1 {
        lemma_drop_zero(s, i + 1);
    } else {
        assert(value_from(s, i + 1) == 0);
    }
}

/// Appends to `out` limbs whose value is that of `a` and `b` from `i` on,
/// plus `carry`.
fn add_into(a: &Vec<u32>, b: &Vec<u32>, i: usize, carry: u64, out: &mut Vec<u32>)
    requires
        carry <= 1,
    ensures
        final(out).len() >= old(out).len(),
        final(out)@.take(old(out).len() as int) == old(out)@,
        value_from(final(out)@, old(out).len() as int) == value_from(a@, i as int) + value_from(b@, i as int)
            + carry,
    decreases a.len() + b.len() + 2 - i,
{
    let l = out.len();
    if i >= a.len() && i >= b.len() {
        proof {
            lemma_value_past(a@, i as int);
            lemma_value_past(b@, i as int);
        }
        if carry > 0 {
            out.push(1);
            assert(out@.take(l as int) =~= old(out)@);
            assert(value_from(out@, l + 1) == 0);
        } else {
            assert(out@.take(l as int) =~= old(out)@);
        }
        return;
    }
    let x: u64 = (if i < a.len() { a[i] as u64 } else { 0 }) + (if i < b.len() { b[i] as u64 } else { 0 })
        + carry;
    out.push((x % 4_294_967_296) as u32);
    let ghost mid = out@;
    add_into(a, b, i + 1, x / 4_294_967_296, out);
    proof {
        lemma_value_step(a@, i as int);
        lemma_value_step(b@, i as int);
        assert(out@.take(l + 1) == mid);
        assert(out@[l as int] == mid[l as int]);
        assert(out@.take(l as int) =~= old(out)@) by {
            assert(out@.take(l as int) =~= mid.take(l as int));
        }
        lemma_fundamental_div_mod(x as int, base());
        let xd = x as int / base();
        let xm = x as int % base();
        assert(value_from(out@, l as int) == xm + base() * (value_from(a@, i + 1) + value_from(b@, i + 1)
            + xd));
        assert(xm + base() * (value_from(a@, i + 1) + value_from(b@, i + 1) + xd) == x + base() * (
        value_from(a@, i + 1) + value_from(b@, i + 1))) by (nonlinear_arith)
            requires
                x == base() * xd + xm,
        ;
    }
}

/// The sum of two naturals.
pub fn plus(a: &Vec<u32>, b: &Vec<u32>) -> (r: Vec<u32>)
    ensures
        value(r@) == value(a@) + value(b@),
{
    let mut out: Vec<u32> = Vec::new();
    add_into(a, b, 0, 0, &mut out);
    out
}

/// Appends to `out` limbs whose value is that of `a` less `b` from `i` on,
/// less `borrow`.
fn sub_into(a: &Vec<u32>, b: &Vec<u32>, i: usize, borrow: u64, out: &mut Vec<u32>)
    requires
        borrow <= 1,
        value_from(a@, i as int) >= value_from(b@, i as int) + borrow,
    ensures
        final(out).len() >= old(out).len(),
        final(out)@.take(old(out).len() as int) == old(out)@,
        value_from(final(out)@, old(out).len() as int) == value_from(a@, i as int) - value_from(b@, i as int)
            - borrow,
    decreases a.len() + b.len() + 2 - i,
{
    let l = out.len();
    if i >= a.len() && i >= b.len() {
        proof {
            lemma_value_past(a@, i as int);
            lemma_value_past(b@, i as int);
        }
        assert(out@.take(l as int) =~= old(out)@);
        return;
    }
    let x: u64 = if i < a.len() { a[i] as u64 } else { 0 };
    let y: u64 = (if i < b.len() { b[i] as u64 } else { 0 }) + borrow;
    let next: u64 = if x >= y { 0 } else { 1 };
    let d: u64 = if x >= y { x - y } else { x + 4_294_967_296 - y };
    assert(d == x - y + base() * next);
    proof {
        lemma_value_step(a@, i as int);
        lemma_value_step(b@, i as int);
        lemma_value_nonneg(a@, i + 1);
        lemma_value_nonneg(b@, i + 1);
        let va = value_from(a@, i + 1);
        let vb = value_from(b@, i + 1);
        assert(x + base() * va >= y + base() * vb);
        if va < vb + next {
            assert(base() * (vb + next - va) >= base()) by (nonlinear_arith)
                requires
                    vb + next - va >= 1,
                    base() > 0,
            ;
            assert(base() * (vb + next - va) == base() * vb + base() * next - base() * va) by (nonlinear_arith);
        }
    }
    out.push(d as u32);
    let ghost mid = out@;
    sub_into(a, b, i + 1, next, out);
    proof {
        assert(out@.take(l + 1) == mid);
        assert(out@[l as int] == mid[l as int]);
        assert(out@.take(l as int) =~= old(out)@) by {
            assert(out@.take(l as int) =~= mid.take(l as int));
        }
        let va = value_from(a@, i + 1);
        let vb = value_from(b@, i + 1);
        assert(base() * (va - vb - next) == base() * va - base() * vb - base() * next) by (nonlinear_arith);
    }
}

/// The difference of two naturals, the first not smaller.
pub fn minus(a: &Vec<u32>, b: &Vec<u32>) -> (r: Vec<u32>)
    requires
        value(a@) >= value(b@),
    ensures
        value(r@) == value(a@) - value(b@),
{
    let mut out: Vec<u32> = Vec::new();
    sub_into(a, b, 0, 0, &mut out);
    out
}

/// Appends to `out` limbs whose value is that of `a` from `i` on times `d`,
/// plus `carry`.
fn mul_small_into(a: &Vec<u32>, d: u32, i: usize, carry: u64, out: &mut Vec<u32>)
    requires
        carry < 4_294_967_296,
    ensures
        final(out).len() >= old(out).len(),
        final(out)@.take(old(out).len() as int) == old(out)@,
        value_from(final(out)@, old(out).len() as int) == value_from(a@, i as int) * d + carry,
    decreases a.len() + 1 - i,
{
    let l = out.len();
    if i >= a.len() {
        proof {
            lemma_value_past(a@, i as int);
        }
        if carry > 0 {
            out.push(carry as u32);
            assert(value_from(out@, l + 1) == 0);
        }
        assert(out@.take(l as int) =~= old(out)@);
        return;
    }
    let ai = a[i] as u64;
    assert(ai * (d as u64) <= 4_294_967_295 * 4_294_967_295) by (nonlinear_arith)
        requires
            ai <= 4_294_967_295,
            d <= 4_294_967_295,
    ;
    let x: u64 = ai * (d as u64) + carry;
    out.push((x % 4_294_967_296) as u32);
    let ghost mid = out@;
    proof {
        lemma_fundamental_div_mod(x as int, base());
        assert(x / 4_294_967_296 < 4_294_967_296) by (nonlinear_arith)
            requires
                x <= 4_294_967_295 * 4_294_967_295 + 4_294_967_295,
        ;
    }
    mul_small_into(a, d, i + 1, x / 4_294_967_296, out);
    proof {
        lemma_value_step(a@, i as int);
        assert(out@.take(l + 1) == mid);
        assert(out@[l as int] == mid[l as int]);
        assert(out@.take(l as int) =~= old(out)@) by {
            assert(out@.take(l as int) =~= mid.take(l as int));
        }
        let xd = x as int / base();
        let xm = x as int % base();
        let va = value_from(a@, i + 1);
        assert(xm + base() * (va * d + xd) == (ai + base() * va) * d + carry) by (nonlinear_arith)
            requires
                x == base() * xd + xm,
                x == ai * d + carry,
        ;
    }
}

/// A natural times a limb.
pub fn mul_small(a: &Vec<u32>, d: u32) -> (r: Vec<u32>)
    ensures
        value(r@) == value(a@) * d,
{
    let mut out: Vec<u32> = Vec::new();
    mul_small_into(a, d, 0, 0, &mut out);
    out
}

/// A natural divided by a limb: the quotient and the remainder.
pub fn div_small(a: &Vec<u32>, d: u32) -> (r: (Vec<u32>, u32))
    requires
        d > 0,
    ensures
        value(a@) == value(r.0@) * d + r.1,
        r.1 < d,
        r.0.len() == a.len(),
{
    let n = a.len();
    let mut q: Vec<u32> = Vec::new();
    let mut k: usize = 0;
    while k < n
        invariant
            k <= n,
            q.len() == k,
        decreases n - k,
    {
        q.push(0);
        k = k + 1;
    }
    let mut r: u64 = 0;
    let mut j: usize = n;
    proof {
        lemma_value_past(a@, n as int);
        lemma_value_past(q@, n as int);
    }
    while j > 0
        invariant
            j <= n,
            n == a.len(),
            q.len() == n,
            r < d,
            value_from(a@, j as int) == value_from(q@, j as int) * d + r,
        decreases j,
    {
        let jj = j - 1;
        let cur: u64 = r * 4_294_967_296 + a[jj] as u64;
        assert(cur < (d as u64) * 4_294_967_296) by (nonlinear_arith)
            requires
                r < d,
                cur == r * 4_294_967_296 + a[jj as int],
                a[jj as int] < 4_294_967_296,
        ;
        assert(cur / (d as u64) < 4_294_967_296) by (nonlinear_arith)
            requires
                cur < d * 4_294_967_296,
                d > 0,
        ;
        let ghost before = q@;
        q.set(jj, (cur / (d as u64)) as u32);
        proof {
            lemma_value_frame(before, q@, j as int);
            lemma_value_step(a@, jj as int);
            lemma_value_step(q@, jj as int);
            lemma_fundamental_div_mod(cur as int, d as int);
            let qq = value_from(q@, j as int);
            let cd = cur as int / d as int;
            let cm = cur as int % d as int;
            assert(a[jj as int] + base() * (qq * d + r) == (cd + base() * qq) * d + cm) by (nonlinear_arith)
                requires
                    cur == r * base() + a[jj as int],
                    cur == d * cd + cm,
            ;
        }
        r = cur % (d as u64);
        j = jj;
    }
    (q, r as u32)
}

/// The natural without its zero top limbs.
pub fn trimmed(a: Vec<u32>) -> (r: Vec<u32>)
    ensures
        value(r@) == value(a@),
        r.len() <= a.len(),
        r.len() == 0 || r@.last() != 0,
{
    let mut r = a;
    while r.len() > 0 && r[r.len() - 1] == 0
        invariant
            value(r@) == value(a@),
            r.len() <= a.len(),
        decreases r.len(),
    {
        proof {
            lemma_drop_zero(r@, 0);
        }
        r.pop();
    }
    r
}

/// Which of `value_from(a, i)` and `value_from(b, i)` is larger: -1, 0 or 1.
fn order_from(a: &Vec<u32>, b: &Vec<u32>, i: usize) -> (r: i8)
    ensures
        r == -1 ==> value_from(a@, i as int) < value_from(b@, i as int),
        r == 0 ==> value_from(a@, i as int) == value_from(b@, i as int),
        r == 1 ==> value_from(a@, i as int) > value_from(b@, i as int),
        -1 <= r <= 1,
    decreases a.len() + b.len() + 1 - i,
{
    if i >= a.len() && i >= b.len() {
        proof {
            lemma_value_past(a@, i as int);
            lemma_value_past(b@, i as int);
        }
        return 0;
    }
    let above = order_from(a, b, i + 1);
    let x: u32 = if i < a.len() { a[i] } else { 0 };
    let y: u32 = if i < b.len() { b[i] } else { 0 };
    proof {
        lemma_value_step(a@, i as int);
        lemma_value_step(b@, i as int);
        let va = value_from(a@, i + 1);
        let vb = value_from(b@, i + 1);
        if va < vb {
            assert(x + base() * va < y + base() * vb) by (nonlinear_arith)
                requires
                    va < vb,
                    0 <= x < base(),
                    0 <= y,
            ;
        }
        if va > vb {
            assert(x + base() * va > y + base() * vb) by (nonlinear_arith)
                requires
                    va > vb,
                    0 <= y < base(),
                    0 <= x,
            ;
        }
    }
    if above != 0 {
        above
    } else if x < y {
        -1
    } else if x > y {
        1
    } else {
        0
    }
}

/// Whether the first natural is below the second.
pub fn less(a: &Vec<u32>, b: &Vec<u32>) -> (r: bool)
    ensures
        r == (value(a@) < value(b@)),
{
    order_from(a, b, 0) == -1
}

/// Whether two naturals are equal.
pub fn same(a: &Vec<u32>, b: &Vec<u32>) -> (r: bool)
    ensures
        r == (value(a@) == value(b@)),
{
    order_from(a, b, 0) == 0
}

/// Whether a natural is zero.
pub fn is_nought(a: &Vec<u32>) -> (r: bool)
    ensures
        r == (value(a@) == 0),
{
    let z: Vec<u32> = Vec::new();
    same(a, &z)
}

fn from_u128_into(x: u128, out: &mut Vec<u32>)
    ensures
        final(out).len() >= old(out).len(),
        final(out)@.take(old(out).len() as int) == old(out)@,
        value_from(final(out)@, old(out).len() as int) == x,
    decreases x,
{
    let l = out.len();
    if x == 0 {
        assert(out@.take(l as int) =~= old(out)@);
        return;
    }
    out.push((x % 4_294_967_296) as u32);
    let ghost mid = out@;
    from_u128_into(x / 4_294_967_296, out);
    proof {
        assert(out@.take(l + 1) == mid);
        assert(out@[l as int] == mid[l as int]);
        assert(out@.take(l as int) =~= old(out)@) by {
            assert(out@.take(l as int) =~= mid.take(l as int));
        }
        lemma_fundamental_div_mod(x as int, base());
    }
}

/// The limbs of a 128-bit number.
pub fn from_u128(x: u128) -> (r: Vec<u32>)
    ensures
        value(r@) == x,
{
    let mut out: Vec<u32> = Vec::new();
    from_u128_into(x, &mut out);
    out
}

proof fn lemma_shift(t: Seq<u32>, k: int)
    requires
        0 <= k,
    ensures
        value_from(seq![0u32] + t, k + 1) == value_from(t, k),
    decreases t.len() - k,
{
    if k < t.len() {
        lemma_shift(t, k + 1);
        assert((seq![0u32] + t)[k + 1] == t[k]);
    }
}

/// A natural times the base: a zero limb below it.
pub fn shifted(t: &Vec<u32>) -> (r: Vec<u32>)
    ensures
        value(r@) == base() * value(t@),
{
    let mut r: Vec<u32> = Vec::new();
    r.push(0);
    let mut k: usize = 0;
    while k < t.len()
        invariant
            k <= t.len(),
            r@ == seq![0u32] + t@.take(k as int),
        decreases t.len() - k,
    {
        r.push(t[k]);
        k = k + 1;
        assert(r@ =~= seq![0u32] + t@.take(k as int));
    }
    assert(t@.take(t.len() as int) =~= t@);
    proof {
        lemma_shift(t@, 0);
    }
    r
}

/// The product of two naturals.
pub fn times(a: &Vec<u32>, b: &Vec<u32>) -> (r: Vec<u32>)
    ensures
        value(r@) == value(a@) * value(b@),
{
    let mut acc: Vec<u32> = Vec::new();
    let mut j: usize = b.len();
    proof {
        lemma_value_past(b@, j as int);
    }
    while j > 0
        invariant
            j <= b.len(),
            value(acc@) == value(a@) * value_from(b@, j as int),
        decreases j,
    {
        j = j - 1;
        let s = shifted(&acc);
        let p = mul_small(a, b[j]);
        acc = trimmed(plus(&s, &p));
        proof {
            lemma_value_step(b@, j as int);
            let va = value(a@);
            let rest = value_from(b@, j + 1);
            assert(base() * (va * rest) + va * b[j as int] == va * (b[j as int] + base() * rest)) by (nonlinear_arith);
        }
    }
    acc
}

/// One.
pub fn one() -> (r: Vec<u32>)
    ensures
        value(r@) == 1,
{
    let mut r: Vec<u32> = Vec::new();
    r.push(1);
    assert(value_from(r@, 1) == 0);
    r
}

/// The quotient and remainder of two naturals, the divisor not zero.
pub fn div(a: &Vec<u32>, b: &Vec<u32>) -> (r: (Vec<u32>, Vec<u32>))
    requires
        value(b@) > 0,
    ensures
        value(a@) == value(r.0@) * value(b@) + value(r.1@),
        0 <= value(r.1@) < value(b@),
{
    let unit = one();
    let mut lo: Vec<u32> = Vec::new();
    let mut hi = trimmed(plus(a, &unit));
    proof {
        lemma_value_nonneg(a@, 0);
        lemma_value_nonneg(b@, 0);
        let va = value(a@);
        let vb = value(b@);
        assert((va + 1) * vb > va) by (nonlinear_arith)
            requires
                vb >= 1,
                va >= 0,
        ;
    }
    loop
        invariant
            value(b@) > 0,
            value(unit@) == 1,
            0 <= value(lo@) < value(hi@),
            value(lo@) * value(b@) <= value(a@) < value(hi@) * value(b@),
        ensures
            value(hi@) == value(lo@) + 1,
        decreases value(hi@) - value(lo@),
    {
        let next = plus(&lo, &unit);
        if !less(&next, &hi) {
            break;
        }
        let sum = plus(&lo, &hi);
        let (half, _) = div_small(&sum, 2);
        let mid = trimmed(half);
        let p = times(&mid, b);
        if less(a, &p) {
            hi = mid;
        } else {
            lo = mid;
        }
    }
    let p = times(&lo, b);
    let rem = trimmed(minus(a, &p));
    proof {
        let vl = value(lo@);
        let vb = value(b@);
        assert(value(hi@) == vl + 1);
        assert((vl + 1) * vb == vl * vb + vb) by (nonlinear_arith);
    }
    (lo, rem)
}

/// The integer square root of a natural: the largest root whose square is
/// not above it.
pub fn root(n: &Vec<u32>) -> (r: Vec<u32>)
    ensures
        value(r@) >= 0,
        value(r@) * value(r@) <= value(n@) < (value(r@) + 1) * (value(r@) + 1),
{
    let unit = one();
    let mut lo: Vec<u32> = Vec::new();
    let mut hi = trimmed(plus(n, &unit));
    proof {
        lemma_value_nonneg(n@, 0);
        let vn = value(n@);
        assert((vn + 1) * (vn + 1) > vn) by (nonlinear_arith)
            requires
                vn >= 0,
        ;
    }
    loop
        invariant
            value(unit@) == 1,
            0 <= value(lo@) < value(hi@),
            value(lo@) * value(lo@) <= value(n@) < value(hi@) * value(hi@),
        ensures
            value(hi@) == value(lo@) + 1,
        decreases value(hi@) - value(lo@),
    {
        let next = plus(&lo, &unit);
        if !less(&next, &hi) {
            break;
        }
        let sum = plus(&lo, &hi);
        let (half, _) = div_small(&sum, 2);
        let mid = trimmed(half);
        let p = times(&mid, &mid);
        if less(n, &p) {
            hi = mid;
        } else {
            lo = mid;
        }
    }
    lo
}

fn to_u128_from(a: &Vec<u32>, i: usize) -> (r: u128)
    requires
        value_from(a@, i as int) <= u128::MAX,
    ensures
        r == value_from(a@, i as int),
    decreases a.len() - i,
{
    if i >= a.len() {
        return 0;
    }
    proof {
        lemma_value_step(a@, i as int);
        lemma_value_nonneg(a@, i + 1);
        assert(value_from(a@, i + 1) <= value_from(a@, i as int)) by (nonlinear_arith)
            requires
                value_from(a@, i as int) == a[i as int] + base() * value_from(a@, i + 1),
                value_from(a@, i + 1) >= 0,
                a[i as int] >= 0,
                base() >= 1,
        ;
    }
    let rest = to_u128_from(a, i + 1);
    a[i] as u128 + 4_294_967_296 * rest
}

/// A natural that fits 128 bits, as a `u128`.
pub fn to_u128(a: &Vec<u32>) -> (r: u128)
    requires
        value(a@) <= u128::MAX,
    ensures
        r == value(a@),
{
    to_u128_from(a, 0)
}

} // verus!
