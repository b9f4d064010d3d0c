//! Numbers written with an exponent, such as `1.5e3`: the syntax, and the
//! value as the literal with its point moved.
use vstd::prelude::*;
use crate::literal::{
    all_digits, decimal_syntax, decimal_value, digits_value, fraction_digits, is_decimal_syntax,
    literal_value, nine_digits, point_at,
};
use crate::number::{checked, fits, signed, view_opt, Num, SCALE};
use crate::natural::{base, base_pow};
use crate::format::{append_chars, pow10, push_zeros, zeros};
use crate::lexer::chars_between;
use crate::laws::{lemma_find_point, lemma_literal_whole, lemma_pow10_add, lemma_pow10_positive, lemma_zeros_value};
use crate::text::{digit, find_char, is_ascii_digit, lemma_find_facts};

verus! {

/// Length of a sign in front of a text: one for `+` or `-`.
pub open spec fn sign_len(c: Seq<char>) -> int {
    if c.len() > 0 && (c[0] == '+' || c[0] == '-') {
        1
    } else {
        0
    }
}

/// A text without its sign.
pub open spec fn unsigned_part(c: Seq<char>) -> Seq<char> {
    c.skip(sign_len(c))
}

/// Where the first exponent mark (`e` or `E`) at or after `i` is; the
/// length when there is none.
pub open spec fn mark_from(u: Seq<char>, i: int) -> int
    decreases u.len() - i,
{
    if i < 0 || i >= u.len() {
        u.len() as int
    } else if u[i] == 'e' || u[i] == 'E' {
        i
    } else {
        mark_from(u, i + 1)
    }
}

/// The number has an exponent mark.
pub open spec fn has_exponent(u: Seq<char>) -> bool {
    mark_from(u, 0) < u.len()
}

/// The text before the exponent mark.
pub open spec fn mantissa(u: Seq<char>) -> Seq<char> {
    u.take(mark_from(u, 0))
}

/// The text after the exponent mark.
pub open spec fn exponent_text(u: Seq<char>) -> Seq<char> {
    u.skip(mark_from(u, 0) + 1)
}

/// An exponent: an optional sign and at least one digit.
pub open spec fn exponent_syntax(x: Seq<char>) -> bool {
    unsigned_part(x).len() > 0 && all_digits(unsigned_part(x))
}

/// The value of an exponent.
pub open spec fn exponent_value(x: Seq<char>) -> int {
    signed(x.len() > 0 && x[0] == '-', digits_value(unsigned_part(x)))
}

/// An unsigned number: a decimal literal, and an exponent after an `e` or
/// `E` if there is a mark.
pub open spec fn number_syntax(u: Seq<char>) -> bool {
    &&& decimal_syntax(mantissa(u))
    &&& has_exponent(u) ==> exponent_syntax(exponent_text(u))
}

/// The digits of a literal without its point.
pub open spec fn literal_digits(m: Seq<char>) -> Seq<char> {
    m.take(point_at(m)) + fraction_digits(m)
}

/// The literal `m` with its point moved `x` places to the right (to the
/// left when `x` is negative), padded with zeros.
pub open spec fn shift_point(m: Seq<char>, x: int) -> Seq<char> {
    let g = literal_digits(m);
    let p = point_at(m) + x;
    if p >= g.len() {
        g + zeros((p - g.len()) as nat)
    } else if p >= 0 {
        g.take(p) + seq!['.'] + g.skip(p)
    } else {
        seq!['0', '.'] + zeros((-p) as nat) + g
    }
}

/// The value, in units, of an unsigned number: that of its literal with
/// the point moved by the exponent.
pub open spec fn number_units(u: Seq<char>) -> int {
    if has_exponent(u) {
        literal_value(shift_point(mantissa(u), exponent_value(exponent_text(u))))
    } else {
        literal_value(u)
    }
}

/// A number without an `e` or `E` has no exponent: it is its own
/// mantissa.
pub proof fn lemma_no_mark(u: Seq<char>)
    requires
        forall|k: int| 0 <= k < u.len() ==> #[trigger] u[k] != 'e' && u[k] != 'E',
    ensures
        !has_exponent(u),
        mantissa(u) == u,
{
    lemma_no_mark_from(u, 0);
    assert(u.take(u.len() as int) =~= u);
}

proof fn lemma_no_mark_from(u: Seq<char>, i: int)
    requires
        0 <= i <= u.len(),
        forall|k: int| 0 <= k < u.len() ==> #[trigger] u[k] != 'e' && u[k] != 'E',
    ensures
        mark_from(u, i) == u.len(),
    decreases u.len() - i,
{
    if i < u.len() {
        lemma_no_mark_from(u, i + 1);
    }
}

proof fn lemma_literal_digits(m: Seq<char>)
    requires
        decimal_syntax(m),
    ensures
        literal_digits(m).len() > 0,
        all_digits(literal_digits(m)),
{
    lemma_find_facts(m, '.');
    let pa = point_at(m);
    let g = literal_digits(m);
    let w = m.take(pa);
    let f = fraction_digits(m);
    assert forall|k: int| 0 <= k < g.len() implies digit(#[trigger] g[k]) by {
        if k < w.len() {
            assert(g[k] == m[k]);
            assert(m[k] != '.');
        } else {
            assert(g[k] == f[k - w.len()]);
            assert(f[k - w.len()] == m[pa + 1 + k - w.len()]);
            assert(m[pa] == '.');
        }
    }
    let j = choose|j: int| 0 <= j < m.len() && digit(#[trigger] m[j]);
    if j < pa {
        assert(g[j] == m[j]);
    } else {
        assert(j != pa) by {
            if pa < m.len() {
                assert(m[pa] == '.');
            }
        }
        assert(f[j - pa - 1] == m[j]);
    }
}

/// A literal with its point moved is a literal.
proof fn lemma_shift_syntax(m: Seq<char>, x: int)
    requires
        decimal_syntax(m),
    ensures
        decimal_syntax(shift_point(m, x)),
{
    lemma_literal_digits(m);
    let g = literal_digits(m);
    let p = point_at(m) + x;
    let b = shift_point(m, x);
    if p >= g.len() {
        let z = zeros((p - g.len()) as nat);
        assert forall|k: int| 0 <= k < b.len() implies digit(#[trigger] b[k]) by {
            if k >= g.len() {
                assert(b[k] == z[k - g.len()]);
            }
        }
        assert(b[0] == g[0]);
    } else if p >= 0 {
        let h = g.take(p);
        let t = g.skip(p);
        assert forall|k: int| 0 <= k < b.len() implies digit(#[trigger] b[k]) || b[k] == '.' by {
            if k < p {
                assert(b[k] == g[k]);
            } else if k > p {
                assert(b[k] == t[k - p - 1]);
                assert(t[k - p - 1] == g[k - 1]);
            }
        }
        assert(b[p + 1] == g[p]);
        assert forall|j: int, k: int| 0 <= j < k < b.len() && #[trigger] b[j] == '.' implies #[trigger] b[k] != '.' by {
            if j < p {
                assert(b[j] == g[j]);
            } else {
                assert(k > p);
                assert(b[k] == g[k - 1]);
            }
        }
    } else {
        let z = zeros((-p) as nat);
        assert forall|k: int| 0 <= k < b.len() implies digit(#[trigger] b[k]) || b[k] == '.' by {
            if k >= 2 && k < 2 + z.len() {
                assert(b[k] == z[k - 2]);
            } else if k >= 2 + z.len() {
                assert(b[k] == g[k - 2 - z.len()]);
            }
        }
        assert(b[0] == '0');
        assert forall|j: int, k: int| 0 <= j < k < b.len() && #[trigger] b[j] == '.' implies #[trigger] b[k] != '.' by {
            if j != 1 {
                if j == 0 {
                } else if j < 2 + z.len() {
                    assert(b[j] == z[j - 2]);
                } else {
                    assert(b[j] == g[j - 2 - z.len()]);
                }
            }
            if k < 2 + z.len() {
                assert(b[k] == z[k - 2]);
            } else {
                assert(b[k] == g[k - 2 - z.len()]);
            }
        }
    }
}

/// The value of an unsigned number is not negative.
pub proof fn lemma_number_units_nonneg(u: Seq<char>)
    requires
        number_syntax(u),
    ensures
        number_units(u) >= 0,
{
    if has_exponent(u) {
        lemma_shift_syntax(mantissa(u), exponent_value(exponent_text(u)));
        crate::literal::lemma_literal_value_nonneg(
            shift_point(mantissa(u), exponent_value(exponent_text(u))),
        );
    } else {
        lemma_mark_bound(u, 0);
        assert(u.take(mark_from(u, 0)) =~= u);
        crate::literal::lemma_literal_value_nonneg(u);
    }
}

proof fn lemma_mark_bound(u: Seq<char>, i: int)
    requires
        0 <= i <= u.len(),
    ensures
        i <= mark_from(u, i) <= u.len(),
    decreases u.len() - i,
{
    if i < u.len() && !(u[i] == 'e' || u[i] == 'E') {
        lemma_mark_bound(u, i + 1);
    }
}

proof fn lemma_zero_digits(g: Seq<char>)
    requires
        forall|k: int| 0 <= k < g.len() ==> #[trigger] g[k] == '0',
    ensures
        digits_value(g) == 0,
    decreases g.len(),
{
    if g.len() > 0 {
        assert forall|k: int| 0 <= k < g.drop_last().len() implies #[trigger] g.drop_last()[k] == '0' by {
            assert(g.drop_last()[k] == g[k]);
        }
        lemma_zero_digits(g.drop_last());
        assert(g[g.len() - 1] == '0');
    }
}

proof fn lemma_nonzero_digits(g: Seq<char>, j: int)
    requires
        all_digits(g),
        0 <= j < g.len(),
        g[j] != '0',
    ensures
        digits_value(g) >= 1,
    decreases g.len(),
{
    crate::literal::lemma_digits_value_prefix(g, j + 1);
    let t = g.take(j + 1);
    assert(t.drop_last() =~= g.take(j));
    assert(all_digits(g.take(j))) by {
        assert forall|m: int| 0 <= m < g.take(j).len() implies digit(#[trigger] g.take(j)[m]) by {
            assert(g.take(j)[m] == g[m]);
        }
    }
    crate::literal::lemma_digits_value_nonneg(g.take(j));
    assert(t.last() == g[j]);
    assert(digit(g[j]));
}

proof fn lemma_pow10_grows(a: nat, b: nat)
    requires
        a <= b,
    ensures
        pow10(a) <= pow10(b),
    decreases b,
{
    if a < b {
        lemma_pow10_grows(a, (b - 1) as nat);
        lemma_pow10_positive((b - 1) as nat);
    }
}

/// Digits followed by more than thirty zeros read as zero when every digit
/// is zero, and as a number too large to hold otherwise.
proof fn lemma_many_zeros(g: Seq<char>, z: nat)
    requires
        g.len() > 0,
        all_digits(g),
        z > 330,
    ensures
        (forall|k: int| 0 <= k < g.len() ==> #[trigger] g[k] == '0') ==> literal_value(g + zeros(z)) == 0,
        !(forall|k: int| 0 <= k < g.len() ==> #[trigger] g[k] == '0') ==> !fits(literal_value(g + zeros(z))),
{
    let b = g + zeros(z);
    assert forall|k: int| 0 <= k < b.len() implies digit(#[trigger] b[k]) by {
        if k < g.len() {
            assert(b[k] == g[k]);
        } else {
            assert(b[k] == zeros(z)[k - g.len()]);
        }
    }
    lemma_literal_whole(b);
    lemma_zeros_value(g, z);
    if forall|k: int| 0 <= k < g.len() ==> #[trigger] g[k] == '0' {
        lemma_zero_digits(g);
        assert(digits_value(b) == 0);
        assert(literal_value(b) == 0);
    } else {
        let j = choose|j: int| 0 <= j < g.len() && g[j] != '0';
        lemma_nonzero_digits(g, j);
        lemma_pow10_grows(320, z);
        lemma_pow10_beats_base(32);
        crate::laws::lemma_pow10_positive(z);
        assert(digits_value(g) * pow10(z) >= pow10(z)) by (nonlinear_arith)
            requires
                digits_value(g) >= 1,
                pow10(z) >= 0,
        ;
        assert(pow10(z) * (SCALE as int) >= base_pow(32) * (SCALE as int)) by (nonlinear_arith)
            requires
                pow10(z) >= base_pow(32),
        ;
        assert(digits_value(g) * pow10(z) * (SCALE as int) >= pow10(z) * (SCALE as int)) by (nonlinear_arith)
            requires
                digits_value(g) * pow10(z) >= pow10(z),
        ;
    }
}

/// Ten digits are more than one limb: 10^(10k) is at least base^k.
proof fn lemma_pow10_beats_base(k: nat)
    ensures
        pow10(10 * k) >= base_pow(k),
    decreases k,
{
    if k > 0 {
        lemma_pow10_beats_base((k - 1) as nat);
        lemma_pow10_add(10 * (k - 1) as nat, 10);
        assert(pow10(10) == 10_000_000_000) by {
            reveal_with_fuel(pow10, 11);
        }
        assert((10 * (k - 1)) as nat + 10 == 10 * k);
        crate::laws::lemma_pow10_positive((10 * (k - 1)) as nat);
        lemma_base_pow_nonneg((k - 1) as nat);
        assert(pow10(10 * k) == pow10((10 * (k - 1)) as nat) * 10_000_000_000);
        assert(pow10((10 * (k - 1)) as nat) * 10_000_000_000 >= base_pow((k - 1) as nat) * base()) by (nonlinear_arith)
            requires
                pow10((10 * (k - 1)) as nat) >= base_pow((k - 1) as nat),
                base_pow((k - 1) as nat) >= 0,
                base() == 4_294_967_296,
        ;
        assert(base_pow(k) == base() * base_pow((k - 1) as nat));
        lemma_base_pow_nonneg((k - 1) as nat);
    }
}

proof fn lemma_base_pow_nonneg(k: nat)
    ensures
        base_pow(k) >= 0,
    decreases k,
{
    if k > 0 {
        lemma_base_pow_nonneg((k - 1) as nat);
    }
}

/// A point followed by nine zeros or more reads as zero.
proof fn lemma_small_shift(g: Seq<char>, n: nat)
    requires
        n >= 9,
    ensures
        literal_value(seq!['0', '.'] + zeros(n) + g) == 0,
{
    let b = seq!['0', '.'] + zeros(n) + g;
    let tail = zeros(n) + g;
    assert(b =~= seq!['0'] + seq!['.'] + tail);
    lemma_find_point(seq!['0'], tail);
    assert(point_at(b) == 1);
    assert(b.take(1) =~= seq!['0']);
    assert(fraction_digits(b) =~= tail);
    assert(nine_digits(tail) =~= zeros(9));
    lemma_zero_digits(zeros(9));
    lemma_zero_digits(seq!['0']);
}

/// Where the first exponent mark of `u` is (see `mark_from`).
fn find_mark(u: &Vec<char>) -> (r: usize)
    ensures
        r as int == mark_from(u@, 0),
        r <= u.len(),
        r < u.len() ==> (u@[r as int] == 'e' || u@[r as int] == 'E'),
{
    let mut i: usize = 0;
    while i < u.len() && u[i] != 'e' && u[i] != 'E'
        invariant
            i <= u.len(),
            mark_from(u@, i as int) == mark_from(u@, 0),
        decreases u.len() - i,
    {
        i = i + 1;
    }
    i
}

/// Whether every character is an ASCII digit.
fn is_all_digits(v: &Vec<char>) -> (r: bool)
    ensures
        r == all_digits(v@),
{
    let mut k: usize = 0;
    while k < v.len()
        invariant
            k <= v.len(),
            forall|m: int| 0 <= m < k ==> digit(#[trigger] v@[m]),
        decreases v.len() - k,
    {
        if !is_ascii_digit(v[k]) {
            return false;
        }
        k = k + 1;
    }
    true
}

/// Whether an unsigned number has the syntax of `number_syntax`.
pub fn is_number_syntax(u: &Vec<char>) -> (r: bool)
    ensures
        r == number_syntax(u@),
{
    let k = find_mark(u);
    let m = chars_between(u, 0, k);
    assert(m@ =~= mantissa(u@));
    if !is_decimal_syntax(&m) {
        return false;
    }
    if k == u.len() {
        return true;
    }
    let x = chars_between(u, k + 1, u.len());
    assert(x@ =~= exponent_text(u@));
    let s: usize = if x.len() > 0 && (x[0] == '+' || x[0] == '-') {
        1
    } else {
        0
    };
    let y = chars_between(&x, s, x.len());
    assert(y@ =~= unsigned_part(x@));
    y.len() > 0 && is_all_digits(&y)
}

/// The value of an unsigned number of `number_syntax`, when it fits.
pub fn number_value(u: &Vec<char>) -> (r: Option<Num>)
    requires
        number_syntax(u@),
    ensures
        view_opt(r) == checked(number_units(u@)),
{
    let k = find_mark(u);
    if k == u.len() {
        assert(mantissa(u@) =~= u@);
        return decimal_value(u);
    }
    let m = chars_between(u, 0, k);
    assert(m@ =~= mantissa(u@));
    let x = chars_between(u, k + 1, u.len());
    assert(x@ =~= exponent_text(u@));
    let negative = x[0] == '-';
    let s: usize = if x[0] == '+' || x[0] == '-' {
        1
    } else {
        0
    };
    let ghost digits = unsigned_part(x@);
    assert(x@.skip(s as int) =~= digits);
    // the exponent's magnitude, held exactly up to `bound`
    let bound: u128 = u.len() as u128 + 340;
    let mut e: u128 = 0;
    let mut j: usize = s;
    while j < x.len()
        invariant
            s <= j <= x.len(),
            digits == x@.skip(s as int),
            all_digits(digits),
            bound == u.len() + 340,
            e <= bound ==> e as int == digits_value(digits.take(j - s)),
            e > bound ==> digits_value(digits.take(j - s)) > bound,
            e <= 10 * bound + 9,
        decreases x.len() - j,
    {
        let d = x[j];
        assert(digits[j - s] == d);
        assert(digit(d));
        assert(digits.take(j - s + 1).drop_last() =~= digits.take(j - s));
        proof {
            let t = digits.take(j - s);
            assert(all_digits(t)) by {
                assert forall|q: int| 0 <= q < t.len() implies digit(#[trigger] t[q]) by {
                    assert(t[q] == digits[q]);
                }
            }
            crate::literal::lemma_digits_value_nonneg(t);
        }
        if e <= bound {
            e = e * 10 + (d as u32 - '0' as u32) as u128;
        }
        j = j + 1;
    }
    assert(digits.take(x.len() - s) =~= digits);
    // the digits of the mantissa, and where its point is
    proof {
        lemma_find_facts(m@, '.');
    }
    let ip: usize = match find_char(&m, '.') {
        Some(q) => q,
        None => m.len(),
    };
    assert(ip as int == point_at(m@));
    let mut g = chars_between(&m, 0, ip);
    if ip < m.len() {
        let f = chars_between(&m, ip + 1, m.len());
        append_chars(&mut g, &f);
    }
    assert(g@ =~= literal_digits(m@));
    let ghost xv = exponent_value(exponent_text(u@));
    assert(xv == signed(negative, digits_value(digits)));
    shifted_value(&m, &g, ip, negative, e, bound, Ghost(xv))
}

/// The value of the literal `m` with its point moved by an exponent of
/// magnitude `e`, or by more than `bound` places when `e` is beyond it.
fn shifted_value(
    m: &Vec<char>,
    g: &Vec<char>,
    ip: usize,
    negative: bool,
    e: u128,
    bound: u128,
    x: Ghost<int>,
) -> (r: Option<Num>)
    requires
        decimal_syntax(m@),
        g@ == literal_digits(m@),
        ip as int == point_at(m@),
        bound >= m.len() + 340,
        bound < 0x2_0000_0000_0000_0000,
        e <= 10 * bound + 9,
        e <= bound ==> x@ == signed(negative, e as int),
        e > bound ==> (if negative { x@ < -bound } else { x@ > bound }),
    ensures
        view_opt(r) == checked(literal_value(shift_point(m@, x@))),
{
    proof {
        lemma_literal_digits(m@);
        lemma_shift_syntax(m@, x@);
        crate::text::lemma_find_facts(m@, '.');
        crate::number::lemma_limit_large();
    }
    assert(g.len() <= m.len());
    if !negative || e == 0 {
        if e <= bound && (ip as u128) + e < (g.len() as u128) {
            let p = ip + e as usize;
            let mut b = chars_between(g, 0, p);
            b.push('.');
            let t = chars_between(g, p, g.len());
            append_chars(&mut b, &t);
            assert(b@ =~= shift_point(m@, x@));
            return decimal_value(&b);
        }
        if e <= bound && (ip as u128) + e - (g.len() as u128) <= 330 {
            let z = (ip as u128 + e - g.len() as u128) as usize;
            let mut b = chars_between(g, 0, g.len());
            push_zeros(z, &mut b);
            assert(b@ =~= shift_point(m@, x@));
            return decimal_value(&b);
        }
        let ghost z = (point_at(m@) + x@ - g@.len()) as nat;
        assert(point_at(m@) + x@ - g@.len() > 330);
        assert(shift_point(m@, x@) == g@ + zeros(z));
        proof {
            lemma_many_zeros(g@, z);
        }
        let mut q: usize = 0;
        while q < g.len()
            invariant
                q <= g.len(),
                forall|w: int| 0 <= w < q ==> #[trigger] g@[w] == '0',
                g@.len() > 0,
                all_digits(g@),
                z > 330,
                shift_point(m@, x@) == g@ + zeros(z),
            decreases g.len() - q,
        {
            if g[q] != '0' {
                assert(!(forall|k: int| 0 <= k < g@.len() ==> #[trigger] g@[k] == '0'));
                proof {
                    lemma_many_zeros(g@, z);
                }
                return None;
            }
            q = q + 1;
        }
        proof {
            lemma_many_zeros(g@, z);
        }
        return Some(Num::zero());
    }
    if e > bound || (e > ip as u128 && e - ip as u128 >= 9) {
        proof {
            lemma_small_shift(g@, (-(point_at(m@) + x@)) as nat);
        }
        return Some(Num::zero());
    }
    if e > ip as u128 {
        let n = (e - ip as u128) as usize;
        let mut b: Vec<char> = Vec::new();
        b.push('0');
        b.push('.');
        push_zeros(n, &mut b);
        append_chars(&mut b, g);
        assert(b@ =~= shift_point(m@, x@));
        return decimal_value(&b);
    }
    let p = ip - e as usize;
    let mut b = chars_between(g, 0, p);
    b.push('.');
    let t = chars_between(g, p, g.len());
    append_chars(&mut b, &t);
    assert(b@ =~= shift_point(m@, x@));
    decimal_value(&b)
}

} // verus!
