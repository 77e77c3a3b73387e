use vstd::prelude::*;

use crate::message::Message;

verus! {

/// Whether `d` divides `n`.
pub open spec fn divides(d: nat, n: nat) -> bool {
    exists|k: nat| #[trigger] (d * k) == n
}

/// The greatest common divisor of `a` and `b`, by Euclid's algorithm;
/// zero only for two zeros.
pub open spec fn gcd_spec(a: nat, b: nat) -> nat
    decreases b,
{
    if b == 0 {
        a
    } else {
        gcd_spec(b, a % b)
    }
}

proof fn lemma_divides_mod(d: nat, a: nat, b: nat)
    requires
        b > 0,
        divides(d, a),
        divides(d, b),
    ensures
        divides(d, a % b),
{
    let ka = choose|k: nat| #[trigger] (d * k) == a;
    let kb = choose|k: nat| #[trigger] (d * k) == b;
    let q = a / b;
    assert(a == b * q + a % b) by (nonlinear_arith)
        requires
            b > 0,
            q == a / b,
    ;
    assert(q * kb <= ka) by (nonlinear_arith)
        requires
            d * ka == a,
            d * kb == b,
            b * q <= a,
            b > 0,
    ;
    let k: nat = (ka - q * kb) as nat;
    assert(d * (q * kb) == b * q) by (nonlinear_arith)
        requires
            d * kb == b,
    ;
    assert(d * k == d * ka - d * (q * kb)) by (nonlinear_arith)
        requires
            k == ka - q * kb,
    ;
}

proof fn lemma_divides_from_mod(d: nat, a: nat, b: nat)
    requires
        b > 0,
        divides(d, b),
        divides(d, a % b),
    ensures
        divides(d, a),
{
    let kb = choose|k: nat| #[trigger] (d * k) == b;
    let kr = choose|k: nat| #[trigger] (d * k) == a % b;
    let q = a / b;
    assert(a == b * q + a % b) by (nonlinear_arith)
        requires
            b > 0,
            q == a / b,
    ;
    let k: nat = kb * q + kr;
    assert(d * k == a) by (nonlinear_arith)
        requires
            d * kb == b,
            d * kr == a % b,
            a == b * q + a % b,
            k == kb * q + kr,
    ;
}

/// The greatest common divisor divides both numbers.
pub proof fn lemma_gcd_divides(a: nat, b: nat)
    ensures
        divides(gcd_spec(a, b), a),
        divides(gcd_spec(a, b), b),
    decreases b,
{
    if b == 0 {
        assert(a * 1 == a);
        assert(a * 0 == 0);
    } else {
        lemma_gcd_divides(b, a % b);
        lemma_divides_from_mod(gcd_spec(a, b), a, b);
    }
}

/// Every common divisor of two numbers divides their greatest common
/// divisor.
pub proof fn lemma_common_divisor_divides_gcd(d: nat, a: nat, b: nat)
    requires
        divides(d, a),
        divides(d, b),
    ensures
        divides(d, gcd_spec(a, b)),
    decreases b,
{
    if b > 0 {
        lemma_divides_mod(d, a, b);
        lemma_common_divisor_divides_gcd(d, b, a % b);
    }
}

/// The greatest common divisor is positive unless both numbers are zero.
pub proof fn lemma_gcd_positive(a: nat, b: nat)
    requires
        a > 0 || b > 0,
    ensures
        gcd_spec(a, b) > 0,
    decreases b,
{
    if b > 0 {
        lemma_gcd_positive(b, a % b);
    }
}

/// The greatest common divisor of `a` and `b`.
pub fn gcd(a: u32, b: u32) -> (r: u32)
    ensures
        r == gcd_spec(a as nat, b as nat),
    decreases b,
{
    if b == 0 {
        a
    } else {
        gcd(b, a % b)
    }
}

/// The fraction `num / den` in lowest terms, as (numerator, denominator).
pub fn reduce_fraction(num: u32, den: u32) -> (r: (u32, u32))
    requires
        num > 0 || den > 0,
    ensures
        r.0 == num as nat / gcd_spec(num as nat, den as nat),
        r.1 == den as nat / gcd_spec(num as nat, den as nat),
        r.0 * gcd_spec(num as nat, den as nat) == num,
        r.1 * gcd_spec(num as nat, den as nat) == den,
        gcd_spec(r.0 as nat, r.1 as nat) == 1,
{
    let g = gcd(num, den);
    proof {
        lemma_gcd_positive(num as nat, den as nat);
        lemma_gcd_divides(num as nat, den as nat);
    }
    let reduced_num = num / g;
    let reduced_den = den / g;
    proof {
        lemma_lowest_terms(num as nat, den as nat);
    }
    (reduced_num, reduced_den)
}

/// Dividing two numbers by their greatest common divisor leaves them
/// without a common divisor but one.
pub proof fn lemma_lowest_terms(a: nat, b: nat)
    requires
        a > 0 || b > 0,
    ensures
        (a / gcd_spec(a, b)) * gcd_spec(a, b) == a,
        (b / gcd_spec(a, b)) * gcd_spec(a, b) == b,
        gcd_spec(a / gcd_spec(a, b), b / gcd_spec(a, b)) == 1,
{
    let g = gcd_spec(a, b);
    lemma_gcd_positive(a, b);
    lemma_gcd_divides(a, b);
    let ka = choose|k: nat| #[trigger] (g * k) == a;
    let kb = choose|k: nat| #[trigger] (g * k) == b;
    assert(a / g == ka) by (nonlinear_arith)
        requires
            g * ka == a,
            g > 0,
    ;
    assert(b / g == kb) by (nonlinear_arith)
        requires
            g * kb == b,
            g > 0,
    ;
    assert(ka * g == a) by (nonlinear_arith)
        requires
            g * ka == a,
    ;
    assert(kb * g == b) by (nonlinear_arith)
        requires
            g * kb == b,
    ;
    assert(ka > 0 || kb > 0) by (nonlinear_arith)
        requires
            g * ka == a,
            g * kb == b,
            a > 0 || b > 0,
    ;
    let h = gcd_spec(ka, kb);
    lemma_gcd_positive(ka, kb);
    lemma_gcd_divides(ka, kb);
    let ha = choose|k: nat| #[trigger] (h * k) == ka;
    let hb = choose|k: nat| #[trigger] (h * k) == kb;
    assert((h * g) * ha == a) by (nonlinear_arith)
        requires
            h * ha == ka,
            g * ka == a,
    ;
    assert((h * g) * hb == b) by (nonlinear_arith)
        requires
            h * hb == kb,
            g * kb == b,
    ;
    lemma_common_divisor_divides_gcd(h * g, a, b);
    let m = choose|k: nat| #[trigger] ((h * g) * k) == g;
    assert(h == 1) by (nonlinear_arith)
        requires
            (h * g) * m == g,
            g > 0,
            h > 0,
    ;
}


// ---------------------------------------------------------------------------
// Single precision
// ---------------------------------------------------------------------------

/// Two to the power `n`.
pub open spec fn exp2(n: nat) -> nat
    decreases n,
{
    if n == 0 {
        1
    } else {
        2 * exp2((n - 1) as nat)
    }
}

/// `2^64`, the fixed scale below which a quotient's bits are counted.
pub const SCALE: u128 = 0x1_0000_0000_0000_0000;

/// `2^23` and `2^24`: a single precision significand has 24 bits.
pub const SIG_LOW: u128 = 0x80_0000;
pub const SIG_HIGH: u128 = 0x100_0000;

/// Whether `x / y`, scaled by `2^64`, lies in `[2^23, 2^24)` after
/// division by `2^s`: the binade in which a single precision float has
/// units of `2^(s - 64)`.
pub open spec fn in_binade(x: nat, y: nat, s: nat) -> bool {
    &&& SIG_LOW * (y * exp2(s)) <= x * exp2(64)
    &&& x * exp2(64) < SIG_HIGH * (y * exp2(s))
}

/// The shift `s` of the binade of `x / y`.
pub open spec fn f32_shift(x: nat, y: nat) -> nat {
    choose|s: nat| in_binade(x, y, s)
}

/// The significand of `x / y` rounded to single precision: the quotient in
/// units of its binade, rounded to the nearest integer, ties to even. The
/// float is `f32_significand(x, y) * 2^(f32_shift(x, y) - 64)`.
pub open spec fn f32_significand(x: nat, y: nat) -> nat {
    let n = x * exp2(64);
    let d = y * exp2(f32_shift(x, y));
    let q = n / d;
    let r = n % d;
    if 2 * r > d || (2 * r == d && q % 2 == 1) {
        q + 1
    } else {
        q
    }
}

/// The positive integer `a` converted to single precision (`a as f32`),
/// itself an integer.
pub open spec fn f32_of_nat(a: nat) -> nat {
    (f32_significand(a, 1) * exp2(f32_shift(a, 1))) / exp2(64)
}

/// What `max(num as f32 / den as f32, 1.0).ceil() as u32` gives: the
/// single precision quotient, at least one, rounded up to an integer and
/// capped at `u32::MAX`. A zero denominator gives infinity, so `u32::MAX`,
/// unless the numerator is zero too.
pub open spec fn soft_jank_scale_spec(num: nat, den: nat) -> nat {
    if den == 0 {
        if num == 0 {
            1
        } else {
            u32::MAX as nat
        }
    } else if num == 0 {
        1
    } else {
        let x = f32_of_nat(num);
        let y = f32_of_nat(den);
        let v = f32_significand(x, y) * exp2(f32_shift(x, y));
        let c: nat = ((v + exp2(64) - 1) as nat) / exp2(64);
        if c < 1 {
            1
        } else if c > u32::MAX {
            u32::MAX as nat
        } else {
            c
        }
    }
}

proof fn lemma_exp2_facts()
    ensures
        exp2(0) == 1,
        exp2(23) == SIG_LOW,
        exp2(24) == SIG_HIGH,
        exp2(41) == 0x200_0000_0000,
        exp2(64) == SCALE,
{
    reveal_with_fuel(exp2, 65);
}

proof fn lemma_exp2_positive(n: nat)
    ensures
        exp2(n) >= 1,
    decreases n,
{
    if n > 0 {
        lemma_exp2_positive((n - 1) as nat);
    }
}

/// A larger exponent gives at least twice the power per step.
proof fn lemma_exp2_grows(a: nat, b: nat)
    requires
        a < b,
    ensures
        exp2(b) >= 2 * exp2(a),
    decreases b - a,
{
    lemma_exp2_positive(a);
    if b > a + 1 {
        lemma_exp2_grows(a, (b - 1) as nat);
    }
}

/// A binade, where there is one, is unique.
proof fn lemma_binade_unique(x: nat, y: nat, s1: nat, s2: nat)
    requires
        in_binade(x, y, s1),
        in_binade(x, y, s2),
    ensures
        s1 == s2,
{
    if s1 < s2 {
        lemma_exp2_grows(s1, s2);
        let p1 = exp2(s1);
        let p2 = exp2(s2);
        assert(y * p2 >= 2 * (y * p1)) by (nonlinear_arith)
            requires
                p2 >= 2 * p1,
        ;
    } else if s2 < s1 {
        lemma_exp2_grows(s2, s1);
        let p1 = exp2(s1);
        let p2 = exp2(s2);
        assert(y * p1 >= 2 * (y * p2)) by (nonlinear_arith)
            requires
                p1 >= 2 * p2,
        ;
    }
}

/// `x / y` rounded to single precision, for `x` and `y` between one and
/// `2^34`: its significand and `2^s` for its shift `s`.
fn f32_quotient(x: u64, y: u64) -> (r: (u128, u128))
    requires
        1 <= x <= 0x4_0000_0000,
        1 <= y <= 0x4_0000_0000,
    ensures
        r.0 == f32_significand(x as nat, y as nat),
        r.1 == exp2(f32_shift(x as nat, y as nat)),
        in_binade(x as nat, y as nat, f32_shift(x as nat, y as nat)),
        SIG_LOW <= r.0 <= SIG_HIGH,
        1 <= r.1 <= 0x4000_0000_0000_0000_0000,
{
    proof {
        lemma_exp2_facts();
    }
    let n: u128 = (x as u128) * SCALE;
    let mut d: u128 = y as u128;
    let mut p: u128 = 1;
    let ghost mut s: nat = 0;
    assert(SIG_LOW * d <= n) by (nonlinear_arith)
        requires
            n == x * SCALE,
            d == y,
            1 <= x,
            y <= 0x4_0000_0000,
    ;
    while n / SIG_HIGH >= d
        invariant
            1 <= x <= 0x4_0000_0000,
            1 <= y <= 0x4_0000_0000,
            n == x * SCALE,
            exp2(64) == SCALE,
            d == y * p,
            p == exp2(s),
            1 <= p <= 0x4000_0000_0000_0000_0000,
            SIG_LOW * d <= n,
        decreases 0x4000_0000_0000_0000_0000 - p,
    {
        assert(d <= 0x4_0000_0000_0000_0000_0000 && p <= d) by (nonlinear_arith)
            requires
                n / SIG_HIGH >= d,
                n == x * SCALE,
                x <= 0x4_0000_0000,
                d == y * p,
                y >= 1,
                p >= 1,
        ;
        let ghost d0 = d;
        let ghost p0 = p;
        d = d * 2;
        p = p * 2;
        assert(d == y * p) by (nonlinear_arith)
            requires
                d0 == y * p0,
                d == d0 * 2,
                p == p0 * 2,
        ;
        proof {
            s = s + 1;
            assert(exp2(s) == 2 * exp2((s - 1) as nat));
        }
    }
    assert(in_binade(x as nat, y as nat, s)) by (nonlinear_arith)
        requires
            n == x * SCALE,
            exp2(64) == SCALE,
            d == y * exp2(s),
            SIG_LOW * d <= n,
            n / SIG_HIGH < d,
    ;
    proof {
        lemma_binade_unique(x as nat, y as nat, s, f32_shift(x as nat, y as nat));
    }
    let q = n / d;
    let r = n % d;
    assert(SIG_LOW <= q < SIG_HIGH) by (nonlinear_arith)
        requires
            SIG_LOW * d <= n,
            n < SIG_HIGH * d,
            q == n / d,
            d >= 1,
    ;
    let m = if 2 * r > d || (2 * r == d && q % 2 == 1) {
        q + 1
    } else {
        q
    };
    (m, p)
}

/// `a as f32`, for a positive `a` up to `2^32`.
fn f32_of_u64(a: u64) -> (r: u64)
    requires
        1 <= a <= 0x1_0000_0000,
    ensures
        r == f32_of_nat(a as nat),
        1 <= r <= 0x2_0000_0000,
{
    proof {
        lemma_exp2_facts();
    }
    let (m, p) = f32_quotient(a, 1);
    proof {
        lemma_f32_of_nat_bounds(a as nat);
    }
    assert(m * p <= 0x1_0000_0000_0000_0000_0000_0000_0000) by (nonlinear_arith)
        requires
            m <= SIG_HIGH,
            p <= 0x4000_0000_0000_0000_0000,
    ;
    let v = m * p / SCALE;
    v as u64
}

/// What `max(num as f32 / den as f32, 1.0).ceil() as u32` gives.
pub fn soft_jank_scale(num: u32, den: u32) -> (r: u32)
    ensures
        r == soft_jank_scale_spec(num as nat, den as nat),
{
    if den == 0 {
        if num == 0 {
            1
        } else {
            u32::MAX
        }
    } else if num == 0 {
        1
    } else {
        proof {
            lemma_exp2_facts();
        }
        let x = f32_of_u64(num as u64);
        let y = f32_of_u64(den as u64);
        let (m, p) = f32_quotient(x, y);
        assert(m * p <= 0x1_0000_0000_0000_0000_0000_0000_0000) by (nonlinear_arith)
            requires
                m <= SIG_HIGH,
                p <= 0x4000_0000_0000_0000_0000,
        ;
        let v = m * p;
        let c = (v + (SCALE - 1)) / SCALE;
        if c < 1 {
            1
        } else if c > u32::MAX as u128 {
            u32::MAX
        } else {
            c as u32
        }
    }
}

/// How jank is counted against vsync and composition events.
#[derive(Debug, Copy, Clone, PartialEq, Eq, Structural)]
pub struct Bound {
    /// At most this many vsyncs between two compositions.
    pub vsync_jank_scale: u32,
    /// At least this many compositions in `vsync_do_scale` vsyncs.
    pub soft_jank_scale: u32,
    /// Jank is settled once every `vsync_do_scale` vsyncs.
    pub vsync_do_scale: u32,
}

impl Bound {
    /// The bound for `input`: the vsync rate, the target rate and the event
    /// counted on. The scales are the target over the vsync rate in lowest
    /// terms, and that ratio in single precision, at least one, rounded up.
    pub fn new(input: (u32, u32, Message)) -> (r: Self)
        requires
            input.0 > 0 || input.1 > 0,
        ensures
            r.soft_jank_scale == soft_jank_scale_spec(input.1 as nat, input.0 as nat),
            r.vsync_do_scale == input.1 as nat / gcd_spec(input.1 as nat, input.0 as nat),
            r.vsync_jank_scale == input.0 as nat / gcd_spec(input.1 as nat, input.0 as nat),
    {
        let soft_jank_scale = soft_jank_scale(input.1, input.0);
        let (vsync_do_scale, vsync_jank_scale) = reduce_fraction(input.1, input.0);
        Bound { vsync_jank_scale, soft_jank_scale, vsync_do_scale }
    }
}

proof fn lemma_exp2_adds(a: nat, b: nat)
    ensures
        exp2(a + b) == exp2(a) * exp2(b),
    decreases b,
{
    if b > 0 {
        lemma_exp2_adds(a, (b - 1) as nat);
        assert(exp2(a + b) == 2 * exp2((a + b - 1) as nat));
        assert(exp2(a) * exp2(b) == exp2(a) * (2 * exp2((b - 1) as nat)));
        assert(exp2(a) * (2 * exp2((b - 1) as nat)) == 2 * (exp2(a) * exp2((b - 1) as nat)))
            by (nonlinear_arith);
    } else {
        assert(exp2(0) == 1);
        assert(a + b == a);
    }
}

/// A positive integer below `2^24` is exact in single precision.
pub proof fn law_small_integers_exact(a: nat)
    requires
        1 <= a < SIG_HIGH,
    ensures
        f32_of_nat(a) == a,
{
    lemma_exp2_facts();
    let s = f32_shift(a, 1);
    let p = exp2(s);
    let k = lemma_binade_of_small(a);
    lemma_binade_unique(a, 1, (64 - k) as nat, s);
    assert(s == 64 - k);
    lemma_exp2_adds(s, k);
    assert(exp2(64) == p * exp2(k));
    let n = a * exp2(64);
    assert(n == (a * exp2(k)) * p) by (nonlinear_arith)
        requires
            n == a * exp2(64),
            exp2(64) == p * exp2(k),
    ;
    lemma_exp2_positive(s);
    assert(n / p == a * exp2(k) && n % p == 0) by (nonlinear_arith)
        requires
            n == (a * exp2(k)) * p,
            p >= 1,
    ;
    assert(f32_significand(a, 1) == a * exp2(k)) by {
        assert(1 * p == p);
    }
    assert(f32_significand(a, 1) * p == a * exp2(64)) by (nonlinear_arith)
        requires
            f32_significand(a, 1) == a * exp2(k),
            exp2(64) == p * exp2(k),
    ;
    assert((a * exp2(64)) / exp2(64) == a) by (nonlinear_arith)
        requires
            exp2(64) >= 1,
    ;
}

/// For `1 <= a < 2^24`, the `k <= 23` with `in_binade(a, 1, 64 - k)`.
proof fn lemma_binade_of_small(a: nat) -> (k: nat)
    requires
        1 <= a < SIG_HIGH,
    ensures
        k <= 23,
        in_binade(a, 1, (64 - k) as nat),
{
    lemma_exp2_facts();
    let k = choose_scale(a, 0);
    let s = (64 - k) as nat;
    lemma_exp2_adds(s, k);
    assert(exp2(64) == exp2(s) * exp2(k));
    assert(SIG_LOW * (1 * exp2(s)) <= a * exp2(64) && a * exp2(64) < SIG_HIGH * (1 * exp2(s)))
        by (nonlinear_arith)
        requires
            exp2(64) == exp2(s) * exp2(k),
            SIG_LOW <= a * exp2(k) < SIG_HIGH,
            exp2(s) >= 1,
    ;
    k
}

/// The `k` from `j` up with `2^23 <= a * 2^k < 2^24`.
proof fn choose_scale(a: nat, j: nat) -> (k: nat)
    requires
        1 <= a < SIG_HIGH,
        j <= 23,
        a * exp2(j) < SIG_HIGH,
    ensures
        k <= 23,
        SIG_LOW <= a * exp2(k) < SIG_HIGH,
    decreases 23 - j,
{
    lemma_exp2_facts();
    if a * exp2(j) >= SIG_LOW {
        j
    } else {
        assert(j < 23) by {
            if j == 23 {
                assert(a * exp2(23) >= SIG_LOW) by (nonlinear_arith)
                    requires
                        a >= 1,
                        exp2(23) == SIG_LOW,
                ;
            }
        }
        assert(exp2(j + 1) == 2 * exp2(j));
        assert(a * exp2(j + 1) == 2 * (a * exp2(j))) by (nonlinear_arith)
            requires
                exp2(j + 1) == 2 * exp2(j),
        ;
        choose_scale(a, j + 1)
    }
}

/// Every quotient of two numbers from one to `2^34` has a binade, found
/// from the shift `s` up.
proof fn lemma_binade_from(x: nat, y: nat, s: nat) -> (t: nat)
    requires
        1 <= x <= 0x4_0000_0000,
        1 <= y <= 0x4_0000_0000,
        SIG_LOW * (y * exp2(s)) <= x * exp2(64),
    ensures
        in_binade(x, y, t),
    decreases 0x4000_0000_0000_0000_0000 - exp2(s),
{
    lemma_exp2_facts();
    if x * exp2(64) < SIG_HIGH * (y * exp2(s)) {
        s
    } else {
        let p = exp2(s);
        assert(p <= 0x400_0000_0000_0000_0000 && y * (2 * p) == 2 * (y * p)) by (nonlinear_arith)
            requires
                x * SCALE >= SIG_HIGH * (y * p),
                x <= 0x4_0000_0000,
                y >= 1,
        ;
        assert(exp2(s + 1) == 2 * p);
        lemma_exp2_positive(s);
        assert(0x4000_0000_0000_0000_0000 - exp2(s + 1) < 0x4000_0000_0000_0000_0000 - exp2(s));
        assert(0x4000_0000_0000_0000_0000 - exp2(s + 1) >= 0);
        lemma_binade_from(x, y, s + 1)
    }
}

/// Every quotient of two numbers from one to `2^34` has a binade.
proof fn lemma_binade_exists(x: nat, y: nat)
    requires
        1 <= x <= 0x4_0000_0000,
        1 <= y <= 0x4_0000_0000,
    ensures
        in_binade(x, y, f32_shift(x, y)),
{
    lemma_exp2_facts();
    assert(SIG_LOW * (y * exp2(0)) <= x * exp2(64)) by (nonlinear_arith)
        requires
            exp2(0) == 1,
            exp2(64) == SCALE,
            x >= 1,
            y <= 0x4_0000_0000,
    ;
    let t = lemma_binade_from(x, y, 0);
    assert(in_binade(x, y, t));
}

/// A positive integer up to `2^32` converts to a single precision value
/// from one to `2^33`.
pub proof fn lemma_f32_of_nat_bounds(a: nat)
    requires
        1 <= a <= 0x1_0000_0000,
    ensures
        1 <= f32_of_nat(a) <= 0x2_0000_0000,
{
    lemma_exp2_facts();
    lemma_binade_exists(a, 1);
    let s = f32_shift(a, 1);
    let p = exp2(s);
    let m = f32_significand(a, 1);
    let n = a * exp2(64);
    let q = n / p;
    lemma_exp2_positive(s);
    assert(1 * p == p);
    assert(SIG_LOW <= q < SIG_HIGH) by (nonlinear_arith)
        requires
            SIG_LOW * p <= n,
            n < SIG_HIGH * p,
            q == n / p,
            p >= 1,
    ;
    assert(m == q || m == q + 1);
    assert(p >= 0x200_0000_0000) by {
        if s < 41 {
            lemma_exp2_grows(s, 41);
            assert(false) by (nonlinear_arith)
                requires
                    exp2(41) >= 2 * p,
                    exp2(41) == 0x200_0000_0000,
                    a * SCALE < SIG_HIGH * p,
                    a >= 1,
            ;
        } else if s > 41 {
            lemma_exp2_grows(41, s);
        }
    }
    assert(1 <= (m * p) / (SCALE as nat) <= 0x2_0000_0000) by (nonlinear_arith)
        requires
            SIG_LOW <= m <= SIG_HIGH,
            p >= 0x200_0000_0000,
            SIG_LOW * p <= a * SCALE,
            a <= 0x1_0000_0000,
    ;
}

/// The single precision quotient of a number by itself is exactly one.
proof fn lemma_equal_rates_scale_one(n: nat)
    requires
        1 <= n <= u32::MAX,
    ensures
        soft_jank_scale_spec(n, n) == 1,
{
    lemma_exp2_facts();
    lemma_f32_of_nat_bounds(n);
    let x = f32_of_nat(n);
    lemma_exp2_adds(41, 23);
    assert(exp2(64) == exp2(41) * SIG_LOW);
    let p = exp2(41);
    assert(in_binade(x, x, 41)) by (nonlinear_arith)
        requires
            exp2(64) == p * SIG_LOW,
            p == exp2(41),
            p >= 1,
            x >= 1,
    ;
    lemma_binade_exists(x, x);
    lemma_binade_unique(x, x, 41, f32_shift(x, x));
    let d = x * p;
    let big = x * exp2(64);
    assert(big == SIG_LOW * d && big / d == SIG_LOW && big % d == 0) by (nonlinear_arith)
        requires
            exp2(64) == p * SIG_LOW,
            d == x * p,
            big == x * exp2(64),
            d >= 1,
    ;
    assert(f32_significand(x, x) == SIG_LOW);
    assert(f32_significand(x, x) * exp2(f32_shift(x, x)) == exp2(64));
}

/// The soft jank scale is never below one.
pub proof fn law_soft_scale_at_least_one(num: nat, den: nat)
    ensures
        soft_jank_scale_spec(num, den) >= 1,
{
}

/// Equal vsync and target rates give the unit bound.
pub proof fn law_equal_rates_unit_bound(n: nat)
    requires
        1 <= n <= u32::MAX,
    ensures
        soft_jank_scale_spec(n, n) == 1,
        n / gcd_spec(n, n) == 1,
{
    lemma_equal_rates_scale_one(n);
    assert(n % n == 0) by (nonlinear_arith)
        requires
            n >= 1,
    ;
    assert(gcd_spec(0, n % n) == 0);
    assert(gcd_spec(n, n) == gcd_spec(n, 0));
    assert(n / n == 1) by (nonlinear_arith)
        requires
            n >= 1,
    ;
}

/// Dividing `k * x` by `k * y` gives the quotient of `x` by `y` and `k`
/// times its remainder.
proof fn lemma_div_mod_scale(x: nat, y: nat, k: nat)
    requires
        y > 0,
        k > 0,
    ensures
        (k * x) / (k * y) == x / y,
        (k * x) % (k * y) == k * (x % y),
{
    let q = x / y;
    let r = x % y;
    assert(x == y * q + r && r < y) by (nonlinear_arith)
        requires
            y > 0,
            q == x / y,
            r == x % y,
    ;
    assert(k * x == (k * y) * q + k * r && k * r < k * y) by (nonlinear_arith)
        requires
            x == y * q + r,
            r < y,
            k > 0,
    ;
    vstd::arithmetic::div_mod::lemma_fundamental_div_mod_converse(
        (k * x) as int,
        (k * y) as int,
        q as int,
        (k * r) as int,
    );
}

/// The greatest common divisor of `k * a` and `k * b` is `k` times that of
/// `a` and `b`.
proof fn lemma_gcd_scale(a: nat, b: nat, k: nat)
    requires
        k > 0,
    ensures
        gcd_spec(k * a, k * b) == k * gcd_spec(a, b),
    decreases b,
{
    if b == 0 {
        assert(k * b == 0) by (nonlinear_arith)
            requires
                b == 0,
        ;
    } else {
        assert(k * b > 0) by (nonlinear_arith)
            requires
                k > 0,
                b > 0,
        ;
        lemma_div_mod_scale(a, b, k);
        lemma_gcd_scale(b, a % b, k);
    }
}

proof fn lemma_exp2_monotone(a: nat, b: nat)
    requires
        a <= b,
    ensures
        exp2(a) <= exp2(b),
{
    lemma_exp2_positive(a);
    if a < b {
        lemma_exp2_grows(a, b);
    }
}

/// Scaling both numbers of a quotient by `k` keeps its binade.
proof fn lemma_binade_scale(x: nat, y: nat, k: nat, s: nat)
    requires
        k > 0,
    ensures
        in_binade(k * x, k * y, s) == in_binade(x, y, s),
{
    let p = exp2(s);
    let e = exp2(64);
    assert((SIG_LOW * (k * y * p) <= k * x * e) == (SIG_LOW * (y * p) <= x * e))
        by (nonlinear_arith)
        requires
            k > 0,
    ;
    assert((k * x * e < SIG_HIGH * (k * y * p)) == (x * e < SIG_HIGH * (y * p)))
        by (nonlinear_arith)
        requires
            k > 0,
    ;
    assert(k * x * e == (k * x) * e && k * y * p == (k * y) * p) by (nonlinear_arith);
}

/// Scaling both numbers of a quotient by `k` keeps its single precision
/// value.
proof fn lemma_f32_scale(x: nat, y: nat, k: nat)
    requires
        1 <= x <= 0x4_0000_0000,
        1 <= y <= 0x4_0000_0000,
        1 <= k,
        k * x <= 0x4_0000_0000,
        k * y <= 0x4_0000_0000,
    ensures
        f32_shift(k * x, k * y) == f32_shift(x, y),
        f32_significand(k * x, k * y) == f32_significand(x, y),
{
    assert(1 <= k * x && 1 <= k * y) by (nonlinear_arith)
        requires
            1 <= k,
            1 <= x,
            1 <= y,
    ;
    lemma_binade_exists(x, y);
    lemma_binade_exists(k * x, k * y);
    let s = f32_shift(x, y);
    lemma_binade_scale(x, y, k, s);
    lemma_binade_unique(k * x, k * y, s, f32_shift(k * x, k * y));
    let p = exp2(s);
    let e = exp2(64);
    lemma_exp2_positive(s);
    assert(y * p > 0) by (nonlinear_arith)
        requires
            y >= 1,
            p >= 1,
    ;
    lemma_div_mod_scale(x * e, y * p, k);
    assert(k * (x * e) == (k * x) * e && k * (y * p) == (k * y) * p) by (nonlinear_arith);
    let d = y * p;
    let r = (x * e) % d;
    assert((2 * (k * r) > k * d) == (2 * r > d) && (2 * (k * r) == k * d) == (2 * r == d))
        by (nonlinear_arith)
        requires
            k > 0,
    ;
}

/// Every positive integer up to `2^24` is exact in single precision.
proof fn lemma_exact_up_to_sig_high(a: nat)
    requires
        1 <= a <= SIG_HIGH,
    ensures
        f32_of_nat(a) == a,
{
    if a < SIG_HIGH {
        law_small_integers_exact(a);
    } else {
        lemma_exp2_facts();
        lemma_exp2_adds(64, 1);
        lemma_exp2_adds(23, 65);
        lemma_exp2_adds(24, 64);
        let p = exp2(65);
        assert(p == 2 * SCALE);
        assert(in_binade(a, 1, 65)) by (nonlinear_arith)
            requires
                a == SIG_HIGH,
                p == 2 * SCALE,
                exp2(64) == SCALE,
        ;
        lemma_binade_exists(a, 1);
        lemma_binade_unique(a, 1, 65, f32_shift(a, 1));
        let n = a * exp2(64);
        assert(n / (1 * p) == SIG_LOW && n % (1 * p) == 0) by (nonlinear_arith)
            requires
                a == SIG_HIGH,
                p == 2 * SCALE,
                n == a * exp2(64),
                exp2(64) == SCALE,
        ;
        assert(f32_significand(a, 1) == SIG_LOW);
        assert(((SIG_LOW * p) as nat) / exp2(64) == a) by (nonlinear_arith)
            requires
                a == SIG_HIGH,
                p == 2 * SCALE,
                exp2(64) == SCALE,
        ;
    }
}

/// A positive integer from `2^24` to `2^32` is at least `2^24` in single
/// precision.
proof fn lemma_f32_large(a: nat)
    requires
        SIG_HIGH <= a <= 0x1_0000_0000,
    ensures
        f32_of_nat(a) >= SIG_HIGH,
{
    lemma_exp2_facts();
    lemma_binade_exists(a, 1);
    let s = f32_shift(a, 1);
    let p = exp2(s);
    lemma_exp2_adds(64, 1);
    lemma_exp2_adds(23, 65);
    assert(p > SCALE) by (nonlinear_arith)
        requires
            a * SCALE < SIG_HIGH * (1 * p),
            a >= SIG_HIGH,
    ;
    assert(s >= 65) by {
        if s <= 64 {
            lemma_exp2_monotone(s, 64);
        }
    }
    lemma_exp2_monotone(65, s);
    let n = a * exp2(64);
    let q = n / (1 * p);
    lemma_exp2_positive(s);
    assert(SIG_LOW <= q) by (nonlinear_arith)
        requires
            SIG_LOW * (1 * p) <= n,
            q == n / (1 * p),
            p >= 1,
    ;
    let m = f32_significand(a, 1);
    assert(m >= q);
    assert((m * p) / (SCALE as nat) >= SIG_HIGH) by (nonlinear_arith)
        requires
            m >= SIG_LOW,
            p >= exp2(65),
            exp2(65) == 2 * SCALE,
    ;
}

/// A single precision quotient `x / y` with `x <= y` is at most one: its
/// value times `2^64` is at most `2^64`.
proof fn lemma_quotient_at_most_one(x: nat, y: nat)
    requires
        1 <= x <= y <= 0x4_0000_0000,
    ensures
        f32_significand(x, y) * exp2(f32_shift(x, y)) <= exp2(64),
{
    lemma_exp2_facts();
    lemma_binade_exists(x, y);
    let s = f32_shift(x, y);
    let p = exp2(s);
    lemma_exp2_positive(s);
    assert(SIG_LOW * p <= SCALE) by (nonlinear_arith)
        requires
            SIG_LOW * (y * p) <= x * SCALE,
            x <= y,
            y >= 1,
    ;
    assert(s <= 41) by {
        if s > 41 {
            lemma_exp2_grows(41, s);
        }
    }
    lemma_exp2_adds(s, (64 - s) as nat);
    assert(s + (64 - s) as nat == 64);
    let t = exp2((64 - s) as nat);
    assert(t * p == SCALE) by (nonlinear_arith)
        requires
            exp2(64) == p * t,
            exp2(64) == SCALE,
    ;
    let n: nat = x * exp2(64);
    let d: nat = y * p;
    let q = n / d;
    let r = n % d;
    assert(d >= 1) by (nonlinear_arith)
        requires
            d == y * p,
            y >= 1,
            p >= 1,
    ;
    assert(q <= t) by (nonlinear_arith)
        requires
            q == n / d,
            n == x * SCALE,
            d == y * p,
            t * p == SCALE,
            x <= y,
            d >= 1,
            p >= 1,
    ;
    if q == t {
        assert(r == 0) by (nonlinear_arith)
            requires
                q == n / d,
                r == n % d,
                q == t,
                n == x * SCALE,
                d == y * p,
                t * p == SCALE,
                x <= y,
                d >= 1,
        ;
    }
    let m = f32_significand(x, y);
    assert(m <= t);
    assert(m * p <= SCALE) by (nonlinear_arith)
        requires
            m <= t,
            t * p == SCALE,
    ;
}

/// Where the numerator's single precision value is at most the
/// denominator's, the soft jank scale is one.
proof fn lemma_scale_one_when_at_most(num: nat, den: nat)
    requires
        1 <= num <= 0x1_0000_0000,
        1 <= den <= 0x1_0000_0000,
        f32_of_nat(num) <= f32_of_nat(den),
    ensures
        soft_jank_scale_spec(num, den) == 1,
{
    lemma_exp2_facts();
    lemma_f32_of_nat_bounds(num);
    lemma_f32_of_nat_bounds(den);
    let x = f32_of_nat(num);
    let y = f32_of_nat(den);
    lemma_quotient_at_most_one(x, y);
    let v = f32_significand(x, y) * exp2(f32_shift(x, y));
    assert(((v + exp2(64) - 1) as nat) / exp2(64) <= 1) by (nonlinear_arith)
        requires
            v <= exp2(64),
            exp2(64) == SCALE,
    ;
}

/// Only the ratio of the two rates matters to the bound, not the rates
/// themselves nor the event counted on: scaling both by `k` gives the same
/// bound, where the target rate stays within `2^24` after scaling.
pub proof fn law_bound_depends_on_ratio(a: nat, b: nat, k: nat)
    requires
        0 < a,
        1 <= k,
        k * a <= u32::MAX,
        k * b <= SIG_HIGH,
    ensures
        soft_jank_scale_spec(k * b, k * a) == soft_jank_scale_spec(b, a),
        (k * b) / gcd_spec(k * b, k * a) == b / gcd_spec(b, a),
        (k * a) / gcd_spec(k * b, k * a) == a / gcd_spec(b, a),
{
    lemma_exp2_facts();
    // The reduced fraction.
    lemma_gcd_scale(b, a, k);
    lemma_gcd_positive(b, a);
    lemma_gcd_divides(b, a);
    let g = gcd_spec(b, a);
    let kb_ = choose|t: nat| #[trigger] (g * t) == b;
    let ka_ = choose|t: nat| #[trigger] (g * t) == a;
    assert((k * b) / (k * g) == b / g && (k * a) / (k * g) == a / g) by (nonlinear_arith)
        requires
            g * kb_ == b,
            g * ka_ == a,
            g > 0,
            k > 0,
    ;
    // The soft scale.
    assert(k * a >= a && k * b >= b && k * a >= 1) by (nonlinear_arith)
        requires
            k >= 1,
            a >= 1,
    ;
    if b == 0 {
        assert(k * b == 0) by (nonlinear_arith)
            requires
                b == 0,
        ;
    } else if k * a < SIG_HIGH {
        lemma_exact_up_to_sig_high(a);
        lemma_exact_up_to_sig_high(b);
        lemma_exact_up_to_sig_high(k * a);
        lemma_exact_up_to_sig_high(k * b);
        lemma_f32_scale(b, a, k);
    } else {
        assert(b <= a) by (nonlinear_arith)
            requires
                k * b <= SIG_HIGH,
                k * a >= SIG_HIGH,
                k >= 1,
                b >= 1,
                a >= 1,
        ;
        lemma_exact_up_to_sig_high(k * b);
        lemma_f32_large(k * a);
        lemma_scale_one_when_at_most(k * b, k * a);
        lemma_exact_up_to_sig_high(b);
        if a < SIG_HIGH {
            lemma_exact_up_to_sig_high(a);
        } else {
            lemma_f32_large(a);
        }
        lemma_scale_one_when_at_most(b, a);
    }
}

/// For `y < x <= 2^24`, except `x = 2^24` over `y = 1`, the single
/// precision quotient `x / y` rounds up to the same integer as the exact one.
proof fn lemma_ceil_exact(x: nat, y: nat)
    requires
        1 <= y < x <= SIG_HIGH,
        !(x == SIG_HIGH && y == 1),
    ensures
        ((f32_significand(x, y) * exp2(f32_shift(x, y)) + exp2(64) - 1) as nat) / exp2(64) == (x
            + y - 1) as nat / y,
{
    lemma_exp2_facts();
    lemma_binade_exists(x, y);
    let s = f32_shift(x, y);
    let p = exp2(s);
    lemma_exp2_positive(s);
    let e = exp2(64);
    let n: nat = x * e;
    let d: nat = y * p;
    // The unit of the binade divides 2^64.
    assert(p < 2 * SCALE) by (nonlinear_arith)
        requires
            SIG_LOW * (y * p) <= x * SCALE,
            x <= SIG_HIGH,
            y >= 1,
            x == SIG_HIGH ==> y >= 2,
    ;
    lemma_exp2_adds(64, 1);
    assert(s <= 64) by {
        if s > 64 {
            lemma_exp2_monotone(65, s);
        }
    }
    lemma_exp2_adds(s, (64 - s) as nat);
    assert(s + (64 - s) as nat == 64);
    let t = exp2((64 - s) as nat);
    assert(t * p == e) by (nonlinear_arith)
        requires
            e == p * t,
    ;
    assert(d >= 1 && d <= 2 * SCALE) by (nonlinear_arith)
        requires
            d == y * p,
            y >= 1,
            p >= 1,
            SIG_LOW * d <= x * SCALE,
            x <= SIG_HIGH,
    ;
    let q = n / d;
    let r = n % d;
    assert(n == q * d + r && r < d) by (nonlinear_arith)
        requires
            q == n / d,
            r == n % d,
            d >= 1,
    ;
    let k: nat = (x + y - 1) as nat / y;
    assert((k - 1) * y < x && x <= k * y && k >= 2) by (nonlinear_arith)
        requires
            k == (x + y - 1) as nat / y,
            y >= 1,
            x > y,
    ;
    let m = f32_significand(x, y);
    assert(m == q || m == q + 1);
    assert(m == q + 1 <==> (2 * r > d || (2 * r == d && q % 2 == 1)));
    // Not above k.
    let big_k = k * t;
    assert(big_k * d == k * y * e) by (nonlinear_arith)
        requires
            big_k == k * t,
            d == y * p,
            t * p == e,
    ;
    assert(n <= big_k * d) by (nonlinear_arith)
        requires
            n == x * e,
            big_k * d == k * y * e,
            x <= k * y,
    ;
    assert(q <= big_k) by (nonlinear_arith)
        requires
            n == q * d + r,
            n <= big_k * d,
            d >= 1,
    ;
    if q == big_k {
        assert(r == 0) by (nonlinear_arith)
            requires
                n == q * d + r,
                n <= big_k * d,
                q == big_k,
        ;
    }
    assert(m <= big_k);
    assert(m * p <= k * e) by (nonlinear_arith)
        requires
            m <= big_k,
            big_k == k * t,
            t * p == e,
    ;
    // Above k - 1.
    let low_k = ((k - 1) as nat) * t;
    assert(low_k * d == ((k - 1) as nat) * y * e) by (nonlinear_arith)
        requires
            low_k == ((k - 1) as nat) * t,
            d == y * p,
            t * p == e,
    ;
    assert(n >= low_k * d + e) by (nonlinear_arith)
        requires
            n == x * e,
            low_k * d == ((k - 1) as nat) * y * e,
            ((k - 1) as nat) * y + 1 <= x,
    ;
    assert(q >= low_k) by (nonlinear_arith)
        requires
            n == q * d + r,
            n >= low_k * d + e,
            r < d,
            d >= 1,
    ;
    if q == low_k {
        assert(r >= e) by (nonlinear_arith)
            requires
                n == q * d + r,
                n >= low_k * d + e,
                q == low_k,
        ;
        if d == 2 * SCALE {
            assert(n == SIG_LOW * d) by (nonlinear_arith)
                requires
                    d == 2 * SCALE,
                    SIG_LOW * d <= n,
                    n == x * e,
                    e == SCALE,
                    x <= SIG_HIGH,
            ;
            assert(r == 0) by (nonlinear_arith)
                requires
                    n == SIG_LOW * d,
                    n == q * d + r,
                    r < d,
                    d >= 1,
            ;
        }
        assert(2 * r > d);
        assert(m == q + 1);
    }
    assert(m >= low_k + 1);
    assert(m * p >= ((k - 1) as nat) * e + 1) by (nonlinear_arith)
        requires
            m >= low_k + 1,
            low_k == ((k - 1) as nat) * t,
            t * p == e,
            p >= 1,
    ;
    assert(((m * p + e - 1) as nat) / e == k) by (nonlinear_arith)
        requires
            m * p <= k * e,
            m * p >= ((k - 1) as nat) * e + 1,
            e >= 1,
            k >= 2,
    ;
}

/// For a target rate and a vsync rate up to `2^24`, which single
/// precision holds exactly, the soft jank scale is the exact ratio of the
/// rates rounded up, and at least one.
pub proof fn law_soft_scale_is_exact_ceiling(num: nat, den: nat)
    requires
        num <= SIG_HIGH,
        1 <= den <= SIG_HIGH,
    ensures
        soft_jank_scale_spec(num, den) == (if num <= den {
            1
        } else {
            (num + den - 1) as nat / den
        }),
{
    lemma_exp2_facts();
    if num == 0 {
        assert(soft_jank_scale_spec(num, den) == 1);
    } else {
        lemma_exact_up_to_sig_high(num);
        lemma_exact_up_to_sig_high(den);
        if num <= den {
            lemma_scale_one_when_at_most(num, den);
        } else if num == SIG_HIGH && den == 1 {
            lemma_exp2_adds(64, 1);
            lemma_exp2_adds(23, 65);
            let p = exp2(65);
            assert(in_binade(num, den, 65)) by (nonlinear_arith)
                requires
                    num == SIG_HIGH,
                    den == 1,
                    p == 2 * SCALE,
                    exp2(64) == SCALE,
            ;
            lemma_binade_exists(num, den);
            lemma_binade_unique(num, den, 65, f32_shift(num, den));
            let n = num * exp2(64);
            assert(n / (den * p) == SIG_LOW && n % (den * p) == 0) by (nonlinear_arith)
                requires
                    num == SIG_HIGH,
                    den == 1,
                    p == 2 * SCALE,
                    n == num * exp2(64),
                    exp2(64) == SCALE,
            ;
            assert(f32_significand(num, den) == SIG_LOW);
            assert(((SIG_LOW * p + exp2(64) - 1) as nat) / exp2(64) == SIG_HIGH) by (nonlinear_arith)
                requires
                    p == 2 * SCALE,
                    exp2(64) == SCALE,
            ;
            assert(soft_jank_scale_spec(num, den) == SIG_HIGH);
        } else {
            assert(f32_of_nat(num) == num && f32_of_nat(den) == den);
            lemma_ceil_exact(num, den);
            assert((num + den - 1) as nat / den <= SIG_HIGH) by (nonlinear_arith)
                requires
                    num <= SIG_HIGH,
                    den >= 1,
            ;
            assert((num + den - 1) as nat / den >= 1) by (nonlinear_arith)
                requires
                    num > den,
                    den >= 1,
            ;
            assert(soft_jank_scale_spec(num, den) == (num + den - 1) as nat / den);
        }
    }
}

} // verus!
