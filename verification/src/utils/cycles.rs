//! Powers of two modulo powers of three.
//!
//! The in-place interleave moves elements along the cycles of `j -> 2j mod 3^k`.  Two is a
//! primitive root modulo every power of three, so the cycle through `3^v` has length
//! `2 * 3^(k - v - 1)` and visits exactly the numbers below `3^k` divisible by `3^v` and
//! not by `3^(v + 1)`.
use vstd::arithmetic::div_mod::{
    lemma_fundamental_div_mod, lemma_fundamental_div_mod_converse, lemma_mod_bound,
};
use vstd::prelude::*;

verus! {

/// `3^j`.
pub open spec fn p3(j: nat) -> int
    decreases j,
{
    if j == 0 {
        1
    } else {
        3 * p3((j - 1) as nat)
    }
}

/// `2^t`.
pub open spec fn p2(t: nat) -> int
    decreases t,
{
    if t == 0 {
        1
    } else {
        2 * p2((t - 1) as nat)
    }
}

/// `b^m`.
pub open spec fn pw(b: int, m: nat) -> int
    decreases m,
{
    if m == 0 {
        1
    } else {
        b * pw(b, (m - 1) as nat)
    }
}

pub proof fn lemma_p3_pos(j: nat)
    ensures
        p3(j) >= 1,
        j >= 1 ==> p3(j) >= 3,
        j >= 1 ==> p3(j) == 3 * p3((j - 1) as nat),
    decreases j,
{
    if j > 0 {
        lemma_p3_pos((j - 1) as nat);
    }
}

pub proof fn lemma_p2_pos(t: nat)
    ensures
        p2(t) >= 1,
    decreases t,
{
    if t > 0 {
        lemma_p2_pos((t - 1) as nat);
    }
}

pub proof fn lemma_p2_add(a: nat, b: nat)
    ensures
        p2(a + b) == p2(a) * p2(b),
    decreases b,
{
    if b > 0 {
        lemma_p2_add(a, (b - 1) as nat);
        assert(p2(a + b) == 2 * p2((a + b - 1) as nat));
        assert((a + b - 1) as nat == a + (b - 1) as nat);
        let x = p2(a);
        let y = p2((b - 1) as nat);
        assert(2 * (x * y) == x * (2 * y)) by (nonlinear_arith);
    }
}

pub proof fn lemma_p3_add(a: nat, b: nat)
    ensures
        p3(a + b) == p3(a) * p3(b),
    decreases b,
{
    if b > 0 {
        lemma_p3_add(a, (b - 1) as nat);
        assert((a + b - 1) as nat == a + (b - 1) as nat);
        let x = p3(a);
        let y = p3((b - 1) as nat);
        assert(3 * (x * y) == x * (3 * y)) by (nonlinear_arith);
    }
}

pub proof fn lemma_p2_mul(x: nat, m: nat)
    ensures
        p2(x * m) == pw(p2(x), m),
    decreases m,
{
    if m > 0 {
        let mm = (m - 1) as nat;
        lemma_p2_mul(x, mm);
        let xm: nat = x * mm;
        assert(x * m == xm + x) by (nonlinear_arith)
            requires
                m == mm + 1,
                xm == x * mm,
        ;
        lemma_p2_add(xm, x);
        let a = p2(xm);
        let b = p2(x);
        assert(a * b == b * a) by (nonlinear_arith);
        assert(pw(b, m) == b * pw(b, mm));
        assert(p2(x * m) == p2(xm + x));
    } else {
        assert(x * m == 0) by (nonlinear_arith)
            requires
                m == 0,
        ;
    }
}

/// `2^t` modulo three is one for even `t` and two for odd `t`.
pub proof fn lemma_p2_mod3(t: nat)
    ensures
        p2(t) % 3 == (if t % 2 == 0 {
            1int
        } else {
            2int
        }),
    decreases t,
{
    if t > 0 {
        lemma_p2_mod3((t - 1) as nat);
        let q = p2((t - 1) as nat) / 3;
        lemma_fundamental_div_mod(p2((t - 1) as nat), 3);
        if (t - 1) as nat % 2 == 0 {
            lemma_fundamental_div_mod_converse(p2(t), 3, 2 * q, 2);
        } else {
            lemma_fundamental_div_mod_converse(p2(t), 3, 2 * q + 1, 1);
        }
    } else {
        assert(p2(0) == 1);
    }
}

/// Witness of `2^(3^(j-1)) + 1 == 3^j * c`.
pub open spec fn lift_c(j: nat) -> int {
    (p2(p3((j - 1) as nat) as nat) + 1) / p3(j)
}

/// `2^(3^(j-1)) + 1` is divisible by `3^j` and not by `3^(j+1)`.
pub proof fn lemma_lift(j: nat)
    requires
        j >= 1,
    ensures
        p2(p3((j - 1) as nat) as nat) + 1 == p3(j) * lift_c(j),
        lift_c(j) % 3 != 0,
    decreases j,
{
    lemma_p3_pos(j);
    if j == 1 {
        assert(p3(0) == 1);
        assert(p2(1) == 2) by {
            assert(p2(0) == 1);
        }
        assert(p3(1) == 3);
        lemma_fundamental_div_mod_converse(3, 3, 1, 0);
    } else {
        let jm = (j - 1) as nat;
        lemma_lift(jm);
        lemma_p3_pos(jm);
        lemma_p3_pos((jm - 1) as nat);
        let pp = p3((jm - 1) as nat);
        let p = p3(jm);
        let c = lift_c(jm);
        let a = p2(pp as nat);
        assert(p == 3 * pp);
        assert(p3(j) == 3 * p);
        // 2^(3^(j-1)) is the cube of 2^(3^(j-2)).
        lemma_p2_mul(pp as nat, 3);
        assert(pp as nat * 3 == p3((j - 1) as nat) as nat);
        reveal_with_fuel(pw, 4);
        assert(pw(a, 3) == a * (a * (a * 1)));
        let w = 3 * pp * pp * c * c - 3 * pp * c + 1;
        assert(a * (a * (a * 1)) + 1 == 3 * p * (c * w)) by (nonlinear_arith)
            requires
                a + 1 == p * c,
                p == 3 * pp,
                w == 3 * pp * pp * c * c - 3 * pp * c + 1,
        ;
        lemma_fundamental_div_mod_converse(p2(p3(jm) as nat) + 1, p3(j), c * w, 0);
        assert(c * w == 3 * (c * (pp * pp * c * c - pp * c)) + c) by (nonlinear_arith)
            requires
                w == 3 * pp * pp * c * c - 3 * pp * c + 1,
        ;
        lemma_fundamental_div_mod(c, 3);
        lemma_mod_bound(c, 3);
        lemma_fundamental_div_mod_converse(
            c * w,
            3,
            c * (pp * pp * c * c - pp * c) + c / 3,
            c % 3,
        );
    }
}

/// Witness of `2^(2 * 3^(j-1)) == 1 + 3^j * e`.
pub open spec fn sq_e(j: nat) -> int {
    (p2(2 * p3((j - 1) as nat) as nat) - 1) / p3(j)
}

/// `2^(2 * 3^(j-1))` is one more than `3^j` times a number not divisible by three.
pub proof fn lemma_square(j: nat)
    requires
        j >= 1,
    ensures
        p2(2 * p3((j - 1) as nat) as nat) == 1 + p3(j) * sq_e(j),
        sq_e(j) % 3 != 0,
{
    lemma_lift(j);
    lemma_p3_pos(j);
    lemma_p3_pos((j - 1) as nat);
    let pp = p3((j - 1) as nat);
    let p = p3(j);
    let c = lift_c(j);
    let a = p2(pp as nat);
    lemma_p2_add(pp as nat, pp as nat);
    assert(pp as nat + pp as nat == (2 * pp) as nat);
    let e = p * c * c - 2 * c;
    assert(a * a == 1 + p * e) by (nonlinear_arith)
        requires
            a + 1 == p * c,
            e == p * c * c - 2 * c,
    ;
    lemma_fundamental_div_mod_converse(a * a - 1, p, e, 0);
    assert(e == 3 * (pp * c * c - c) + c) by (nonlinear_arith)
        requires
            e == p * c * c - 2 * c,
            p == 3 * pp,
    ;
    lemma_fundamental_div_mod(c, 3);
    lemma_mod_bound(c, 3);
    lemma_fundamental_div_mod_converse(e, 3, pp * c * c - c + c / 3, c % 3);
}

/// `t` witnesses `(1 + 3^j e)^m == 1 + m 3^j e + 3^(j+1) t`.
pub open spec fn binom_at(j: nat, e: int, m: nat, t: int) -> bool {
    pw(1 + p3(j) * e, m) == 1 + m * p3(j) * e + 3 * p3(j) * t
}

/// `(1 + 3^j e)^m` is `1 + m 3^j e` modulo `3^(j+1)`.
pub proof fn lemma_binom(j: nat, e: int, m: nat)
    requires
        j >= 1,
    ensures
        exists|t: int| #[trigger] binom_at(j, e, m, t),
    decreases m,
{
    lemma_p3_pos(j);
    let p = p3(j);
    let pp = p3((j - 1) as nat);
    if m == 0 {
        assert(1 + m * p * e + 3 * p * 0 == 1) by (nonlinear_arith)
            requires
                m == 0,
        ;
        assert(binom_at(j, e, m, 0));
    } else {
        let mm = (m - 1) as nat;
        lemma_binom(j, e, mm);
        let t = choose|t: int| #[trigger] binom_at(j, e, mm, t);
        let a = p * e;
        let y = 1 + mm * a + 3 * p * t;
        let t2 = t + t * a + mm * (pp * e * e);
        assert((1 + a) * y == y + a * y) by (nonlinear_arith);
        assert(a * y == a + mm * (a * a) + 3 * p * (t * a)) by (nonlinear_arith)
            requires
                y == 1 + mm * a + 3 * p * t,
        ;
        assert(a * a == 3 * p * (pp * e * e)) by (nonlinear_arith)
            requires
                a == p * e,
                p == 3 * pp,
        ;
        assert(mm * (3 * p * (pp * e * e)) == 3 * p * (mm * (pp * e * e))) by (nonlinear_arith);
        assert(3 * p * t + 3 * p * (t * a) + 3 * p * (mm * (pp * e * e)) == 3 * p * t2)
            by (nonlinear_arith)
            requires
                t2 == t + t * a + mm * (pp * e * e),
        ;
        assert(m * p * e == mm * a + a) by (nonlinear_arith)
            requires
                m == mm + 1,
                a == p * e,
        ;
        assert(mm * p * e == mm * (p * e)) by (nonlinear_arith);
        assert(pw(1 + p * e, mm) == y);
        assert(pw(1 + p * e, m) == (1 + a) * y);
        assert(binom_at(j, e, m, t2));
    }
}

/// A product is divisible by three only when a factor is.
proof fn lemma_three_divides_product(m: int, e: int)
    requires
        (m * e) % 3 == 0,
        e % 3 != 0,
    ensures
        m % 3 == 0,
{
    vstd::arithmetic::div_mod::lemma_mul_mod_noop(m, e, 3);
    lemma_mod_bound(m, 3);
    lemma_mod_bound(e, 3);
    let a = m % 3;
    let b = e % 3;
    assert((a * b) % 3 == 0);
    if a == 1 {
        assert(a * b == b);
    } else if a == 2 {
        if b == 1 {
            assert(a * b == 2);
        } else {
            assert(a * b == 4);
        }
    }
}

/// If `2^q` is one modulo `3^j` then `q` is a multiple of `2 * 3^(j-1)`.
pub proof fn lemma_order(j: nat, q: nat)
    requires
        j >= 1,
        p2(q) % p3(j) == 1,
    ensures
        (q as int) % (2 * p3((j - 1) as nat)) == 0,
    decreases j,
{
    lemma_p3_pos(j);
    if j == 1 {
        lemma_p2_mod3(q);
        assert(p3(0) == 1);
        assert(p3(1) == 3);
    } else {
        let jm = (j - 1) as nat;
        lemma_p3_pos(jm);
        lemma_p3_pos((jm - 1) as nat);
        let p = p3(jm);
        let l = 2 * p3((jm - 1) as nat);
        lemma_p2_pos(q);
        lemma_fundamental_div_mod(p2(q), 3 * p);
        let big_q = p2(q) / (3 * p);
        assert(p2(q) == (3 * big_q) * p + 1) by (nonlinear_arith)
            requires
                p2(q) == (3 * p) * big_q + p2(q) % (3 * p),
                p2(q) % (3 * p) == 1,
        ;
        lemma_fundamental_div_mod_converse(p2(q), p, 3 * big_q, 1);
        lemma_order(jm, q);
        lemma_fundamental_div_mod(q as int, l);
        let m = q as int / l;
        assert(m >= 0) by (nonlinear_arith)
            requires
                q == l * m + 0,
                l >= 2,
                q >= 0,
        ;
        assert(q == (l as nat) * (m as nat));
        lemma_p2_mul(l as nat, m as nat);
        lemma_square(jm);
        let e = sq_e(jm);
        assert(p2(l as nat) == 1 + p * e);
        lemma_binom(jm, e, m as nat);
        let t = choose|t: int| #[trigger] binom_at(jm, e, m as nat, t);
        assert(m * e == 3 * (big_q - t)) by (nonlinear_arith)
            requires
                p2(q) == 3 * p * big_q + 1,
                p2(q) == 1 + m * p * e + 3 * p * t,
                p >= 3,
        ;
        lemma_fundamental_div_mod_converse(m * e, 3, big_q - t, 0);
        lemma_three_divides_product(m, e);
        lemma_fundamental_div_mod(m, 3);
        assert(q == (2 * p) * (m / 3)) by (nonlinear_arith)
            requires
                q == l * m,
                l == 2 * p3((jm - 1) as nat),
                p == 3 * p3((jm - 1) as nat),
                m == 3 * (m / 3) + 0,
        ;
        lemma_fundamental_div_mod_converse(q as int, 2 * p, m / 3, 0);
    }
}

/// `2^(2 * 3^(j-1))` is one modulo `3^j`.
pub proof fn lemma_period(j: nat)
    requires
        j >= 1,
    ensures
        p2(2 * p3((j - 1) as nat) as nat) % p3(j) == 1,
{
    lemma_square(j);
    lemma_p3_pos(j);
    lemma_fundamental_div_mod_converse(p2(2 * p3((j - 1) as nat) as nat), p3(j), sq_e(j), 1);
}

/// `t` is an exponent below `2 * 3^(j-1)` with `2^t == u` modulo `3^j`.
pub open spec fn covers_at(j: nat, u: int, t: nat) -> bool {
    t < 2 * p3((j - 1) as nat) && p2(t) % p3(j) == u
}

/// Every number below `3^j` that three does not divide is a power of two modulo `3^j`.
pub proof fn lemma_cover(j: nat, u: int)
    requires
        j >= 1,
        0 < u < p3(j),
        u % 3 != 0,
    ensures
        exists|t: nat| #[trigger] covers_at(j, u, t),
    decreases j,
{
    lemma_p3_pos(j);
    if j == 1 {
        assert(p3(0) == 1 && p3(1) == 3);
        assert(p2(0) == 1);
        assert(p2(1) == 2);
        let t = (u - 1) as nat;
        assert(p2(t) == u);
        lemma_fundamental_div_mod_converse(u, 3, 0, u);
        assert(covers_at(j, u, t));
    } else {
        let jm = (j - 1) as nat;
        lemma_p3_pos(jm);
        lemma_p3_pos((jm - 1) as nat);
        let p = p3(jm);
        let pp = p3((jm - 1) as nat);
        let l = 2 * pp;
        lemma_fundamental_div_mod(u, p);
        lemma_mod_bound(u, p);
        let z = u / p;
        let u0 = u % p;
        assert(0 <= z < 3) by (nonlinear_arith)
            requires
                u == p * z + u0,
                0 <= u0 < p,
                0 < u < 3 * p,
        ;
        // u0 keeps the residue of u modulo three
        lemma_fundamental_div_mod(u0, 3);
        lemma_mod_bound(u0, 3);
        assert(u == 3 * (pp * z + u0 / 3) + u0 % 3) by (nonlinear_arith)
            requires
                u == p * z + u0,
                p == 3 * pp,
                u0 == 3 * (u0 / 3) + u0 % 3,
        ;
        lemma_fundamental_div_mod_converse(u, 3, pp * z + u0 / 3, u0 % 3);
        assert(u0 > 0);
        lemma_cover(jm, u0);
        let t0 = choose|t: nat| #[trigger] covers_at(jm, u0, t);
        lemma_p2_pos(t0);
        lemma_fundamental_div_mod(p2(t0), p);
        let w0 = p2(t0) / p;
        lemma_square(jm);
        let e = sq_e(jm);
        // choose m in {0, 1, 2} with w0 + u0 m e == z (mod 3)
        let d = (w0 - z) % 3;
        let sres = (u0 * e) % 3;
        lemma_mod_bound(w0 - z, 3);
        lemma_mod_bound(u0 * e, 3);
        assert(sres != 0) by {
            if sres == 0 {
                lemma_three_divides_product(u0, e);
            }
        }
        let m: int = if sres == 1 {
            (3 - d) % 3
        } else {
            d
        };
        assert(0 <= m < 3);
        lemma_fundamental_div_mod(w0 - z, 3);
        lemma_fundamental_div_mod(u0 * e, 3);
        let qd = (w0 - z) / 3;
        let qs = (u0 * e) / 3;
        // w0 - z + m * u0 * e is a multiple of three
        let r3: int = if sres == 1 {
            qd + m * qs + (if d == 0 { 0int } else { 1int })
        } else {
            qd + m * qs + d
        };
        assert(w0 - z + m * (u0 * e) == 3 * r3) by (nonlinear_arith)
            requires
                w0 - z == 3 * qd + d,
                u0 * e == 3 * qs + sres,
                0 <= d < 3,
                sres == 1 || sres == 2,
                sres == 1 ==> m == (3 - d) % 3,
                sres == 2 ==> m == d,
                r3 == (if sres == 1 {
                    qd + m * qs + (if d == 0 { 0int } else { 1int })
                } else {
                    qd + m * qs + d
                }),
                (3 - 0) % 3 == 0,
                (3 - 1) % 3 == 2,
                (3 - 2) % 3 == 1,
        ;
        let t = (t0 + l * m) as nat;
        lemma_p2_add(t0, (l * m) as nat);
        lemma_p2_mul(l as nat, m as nat);
        assert((l * m) as nat == (l as nat) * (m as nat));
        lemma_binom(jm, e, m as nat);
        let tm = choose|tt: int| #[trigger] binom_at(jm, e, m as nat, tt);
        let beta = m * e + 3 * tm;
        let x0 = p2(t0);
        let k = r3 + u0 * tm + pp * (w0 * beta);
        assert(1 + m * p * e + 3 * p * tm == 1 + p * beta) by (nonlinear_arith)
            requires
                beta == m * e + 3 * tm,
        ;
        assert(x0 * (1 + p * beta) == x0 + p * (x0 * beta)) by (nonlinear_arith);
        assert(x0 * beta == p * (w0 * beta) + u0 * beta) by (nonlinear_arith)
            requires
                x0 == p * w0 + u0,
        ;
        assert(p * (p * (w0 * beta)) == 3 * p * (pp * (w0 * beta))) by (nonlinear_arith)
            requires
                p == 3 * pp,
        ;
        assert(u0 * beta == m * (u0 * e) + 3 * (u0 * tm)) by (nonlinear_arith)
            requires
                beta == m * e + 3 * tm,
        ;
        assert(p * (u0 * beta) == p * (m * (u0 * e)) + 3 * p * (u0 * tm)) by (nonlinear_arith)
            requires
                u0 * beta == m * (u0 * e) + 3 * (u0 * tm),
        ;
        assert(p * (x0 * beta) == p * (p * (w0 * beta)) + p * (u0 * beta)) by (nonlinear_arith)
            requires
                x0 * beta == p * (w0 * beta) + u0 * beta,
        ;
        assert(p * w0 + p * (m * (u0 * e)) == p * z + 3 * p * r3) by (nonlinear_arith)
            requires
                w0 - z + m * (u0 * e) == 3 * r3,
        ;
        assert(3 * p * (pp * (w0 * beta)) + 3 * p * (u0 * tm) + 3 * p * r3 == (3 * p) * k)
            by (nonlinear_arith)
            requires
                k == r3 + u0 * tm + pp * (w0 * beta),
        ;
        assert(x0 == p * w0 + u0);
        assert(u == p * z + u0);
        assert(x0 * (1 + m * p * e + 3 * p * tm) == u + (3 * p) * k);
        assert(p2(t) == u + (3 * p) * k);
        assert(p3(j) == 3 * p);
        lemma_fundamental_div_mod_converse(p2(t), 3 * p, k, u);
        assert(t < 2 * p) by (nonlinear_arith)
            requires
                t == t0 + l * m,
                t0 < l,
                0 <= m <= 2,
                l == 2 * pp,
                p == 3 * pp,
        ;
        assert(covers_at(j, u, t));
    }
}

// ---------------------------------------------------------------------------------------
// Three-adic valuation
// ---------------------------------------------------------------------------------------
/// The exponent of the largest power of three dividing `p` (zero when `p <= 0`).
pub open spec fn v3(p: int) -> nat
    decreases p,
{
    if p > 0 && p % 3 == 0 {
        proof {
            lemma_fundamental_div_mod(p, 3);
        }
        1 + v3(p / 3)
    } else {
        0
    }
}

/// `p` divided by its largest power-of-three factor.
pub open spec fn unit3(p: int) -> int {
    p / p3(v3(p))
}

/// `(c x) % (c m) == c (x % m)` for positive `c` and `m`.
pub proof fn lemma_scaled_mod(c: int, x: int, m: int)
    requires
        c > 0,
        m > 0,
    ensures
        (c * x) % (c * m) == c * (x % m),
        c * m > 0,
{
    lemma_fundamental_div_mod(x, m);
    lemma_mod_bound(x, m);
    let q = x / m;
    let r = x % m;
    assert(c * x == (c * m) * q + c * r) by (nonlinear_arith)
        requires
            x == m * q + r,
    ;
    assert(0 <= c * r < c * m) by (nonlinear_arith)
        requires
            0 <= r < m,
            c > 0,
    ;
    lemma_fundamental_div_mod_converse(c * x, c * m, q, c * r);
}

/// A positive number is its largest power-of-three factor times a number three does not
/// divide.
pub proof fn lemma_v3_split(p: int)
    requires
        p > 0,
    ensures
        p == p3(v3(p)) * unit3(p),
        unit3(p) % 3 != 0,
        unit3(p) > 0,
    decreases p,
{
    lemma_p3_pos(v3(p));
    if p % 3 == 0 {
        lemma_fundamental_div_mod(p, 3);
        let p1 = p / 3;
        assert(p1 > 0);
        lemma_v3_split(p1);
        let w = v3(p1);
        assert(v3(p) == 1 + w);
        lemma_p3_pos(w);
        lemma_p3_pos(w + 1);
        let u = unit3(p1);
        assert(p == p3(w + 1) * u) by (nonlinear_arith)
            requires
                p == 3 * p1,
                p1 == p3(w) * u,
                p3(w + 1) == 3 * p3(w),
        ;
        assert(p == u * p3(w + 1)) by (nonlinear_arith)
            requires
                p == p3(w + 1) * u,
        ;
        lemma_fundamental_div_mod_converse(p, p3(w + 1), u, 0);
        assert(unit3(p) == u);
    } else {
        assert(v3(p) == 0);
        assert(p3(0) == 1);
        assert(unit3(p) == p);
    }
}

/// `3^w u` has valuation `w` when three does not divide `u`.
pub proof fn lemma_v3_of(w: nat, u: int)
    requires
        u > 0,
        u % 3 != 0,
    ensures
        v3(p3(w) * u) == w,
    decreases w,
{
    lemma_p3_pos(w);
    if w == 0 {
        assert(p3(0) * u == u);
    } else {
        let wm = (w - 1) as nat;
        lemma_v3_of(wm, u);
        lemma_p3_pos(wm);
        let x = p3(w) * u;
        let y = p3(wm) * u;
        assert(x == 3 * y) by (nonlinear_arith)
            requires
                x == p3(w) * u,
                y == p3(wm) * u,
                p3(w) == 3 * p3(wm),
        ;
        assert(y > 0) by (nonlinear_arith)
            requires
                y == p3(wm) * u,
                p3(wm) >= 1,
                u > 0,
        ;
        lemma_fundamental_div_mod_converse(x, 3, y, 0);
    }
}

/// Below `3^k` the valuation is below `k` and the cofactor below `3^(k - v)`.
pub proof fn lemma_v3_bound(p: int, k: nat)
    requires
        0 < p < p3(k),
    ensures
        v3(p) < k,
        unit3(p) < p3((k - v3(p)) as nat),
        p3(k) == p3(v3(p)) * p3((k - v3(p)) as nat),
{
    lemma_v3_split(p);
    let w = v3(p);
    let u = unit3(p);
    lemma_p3_pos(w);
    if w >= k {
        lemma_p3_add(k, (w - k) as nat);
        lemma_p3_pos((w - k) as nat);
        assert(p >= p3(k)) by (nonlinear_arith)
            requires
                p == p3(w) * u,
                u >= 1,
                p3(w) == p3(k) * p3((w - k) as nat),
                p3((w - k) as nat) >= 1,
                p3(k) >= 1,
        ;
    }
    lemma_p3_add(w, (k - w) as nat);
    assert(u < p3((k - w) as nat)) by (nonlinear_arith)
        requires
            p == p3(w) * u,
            p < p3(w) * p3((k - w) as nat),
            p3(w) >= 1,
    ;
}

/// Three divides `p3(j) x` exactly when ... cancelling a power of two: `3^j | 2^a y`
/// implies `3^j | y`.
pub proof fn lemma_cancel_p2(j: nat, a: nat, y: int)
    requires
        (p2(a) * y) % p3(j) == 0,
    ensures
        y % p3(j) == 0,
    decreases j,
{
    lemma_p3_pos(j);
    if j == 0 {
        assert(p3(0) == 1);
    } else {
        let jm = (j - 1) as nat;
        lemma_p3_pos(jm);
        lemma_p2_mod3(a);
        lemma_fundamental_div_mod(p2(a) * y, p3(j));
        let q = (p2(a) * y) / p3(j);
        assert(p2(a) * y == 3 * (p3(jm) * q)) by (nonlinear_arith)
            requires
                p2(a) * y == p3(j) * q,
                p3(j) == 3 * p3(jm),
        ;
        lemma_fundamental_div_mod_converse(y * p2(a), 3, p3(jm) * q, 0);
        assert(y * p2(a) == p2(a) * y) by (nonlinear_arith);
        lemma_three_divides_product(y, p2(a));
        lemma_fundamental_div_mod(y, 3);
        let y1 = y / 3;
        assert(p2(a) * y1 == p3(jm) * q) by (nonlinear_arith)
            requires
                p2(a) * y == 3 * (p3(jm) * q),
                y == 3 * y1,
        ;
        lemma_fundamental_div_mod_converse(p2(a) * y1, p3(jm), q, 0);
        lemma_cancel_p2(jm, a, y1);
        lemma_fundamental_div_mod(y1, p3(jm));
        let q1 = y1 / p3(jm);
        assert(y == p3(j) * q1) by (nonlinear_arith)
            requires
                y == 3 * y1,
                y1 == p3(jm) * q1,
                p3(j) == 3 * p3(jm),
        ;
        lemma_fundamental_div_mod_converse(y, p3(j), q1, 0);
    }
}

// ---------------------------------------------------------------------------------------
// Orbits of doubling modulo 3^k
// ---------------------------------------------------------------------------------------
/// Where `s` is after `q` doublings modulo `n1`.
pub open spec fn orb(n1: int, s: int, q: nat) -> int {
    (s * p2(q)) % n1
}

/// Length of the orbit of `3^v` under doubling modulo `3^k`.
pub open spec fn orbit_len(k: nat, v: nat) -> nat {
    (2 * p3((k - v - 1) as nat)) as nat
}

/// One more doubling doubles the position modulo `n1`.
pub proof fn lemma_orb_step(n1: int, s: int, q: nat)
    requires
        n1 > 0,
    ensures
        orb(n1, s, q + 1) == (2 * orb(n1, s, q)) % n1,
{
    assert(p2(q + 1) == 2 * p2(q));
    assert(s * p2(q + 1) == 2 * (s * p2(q))) by (nonlinear_arith)
        requires
            p2(q + 1) == 2 * p2(q),
    ;
    vstd::arithmetic::div_mod::lemma_mul_mod_noop_right(2, s * p2(q), n1);
}

/// The orbit of `3^v` stays among the multiples of `3^v` that `3^(v+1)` does not divide.
pub proof fn lemma_orb_form(k: nat, v: nat, q: nat)
    requires
        v < k,
    ensures
        orb(p3(k), p3(v), q) == p3(v) * (p2(q) % p3((k - v) as nat)),
        0 < p2(q) % p3((k - v) as nat) < p3((k - v) as nat),
        (p2(q) % p3((k - v) as nat)) % 3 != 0,
        v3(orb(p3(k), p3(v), q)) == v,
        0 < orb(p3(k), p3(v), q) < p3(k),
{
    let j = (k - v) as nat;
    lemma_p3_pos(v);
    lemma_p3_pos(j);
    lemma_p3_pos((j - 1) as nat);
    lemma_p3_add(v, j);
    assert(v + j == k);
    lemma_scaled_mod(p3(v), p2(q), p3(j));
    let r = p2(q) % p3(j);
    lemma_mod_bound(p2(q), p3(j));
    vstd::arithmetic::div_mod::lemma_mod_mod(p2(q), 3, p3((j - 1) as nat));
    lemma_p2_mod3(q);
    assert(r % 3 != 0);
    assert(r != 0) by {
        if r == 0 {
            assert(0int % 3 == 0);
        }
    }
    lemma_v3_of(v, r);
    assert(p3(v) * r < p3(v) * p3(j)) by (nonlinear_arith)
        requires
            r < p3(j),
            p3(v) >= 1,
    ;
    assert(p3(v) * r > 0) by (nonlinear_arith)
        requires
            r > 0,
            p3(v) >= 1,
    ;
}

/// After `orbit_len(k, v)` doublings `3^v` is back where it started.
pub proof fn lemma_orb_period(k: nat, v: nat)
    requires
        v < k,
    ensures
        orb(p3(k), p3(v), orbit_len(k, v)) == p3(v),
{
    let j = (k - v) as nat;
    lemma_p3_pos((j - 1) as nat);
    lemma_period(j);
    assert(orbit_len(k, v) == (2 * p3((j - 1) as nat)) as nat);
    lemma_orb_form(k, v, orbit_len(k, v));
}

/// Within one period the orbit does not repeat.
pub proof fn lemma_orb_distinct(k: nat, v: nat, a: nat, b: nat)
    requires
        v < k,
        a < b <= orbit_len(k, v),
        b - a < orbit_len(k, v),
    ensures
        orb(p3(k), p3(v), a) != orb(p3(k), p3(v), b),
{
    let j = (k - v) as nat;
    let m = p3(j);
    lemma_p3_pos(j);
    lemma_p3_pos((j - 1) as nat);
    lemma_orb_form(k, v, a);
    lemma_orb_form(k, v, b);
    if orb(p3(k), p3(v), a) == orb(p3(k), p3(v), b) {
        lemma_p3_pos(v);
        assert(p2(a) % m == p2(b) % m) by (nonlinear_arith)
            requires
                p3(v) * (p2(a) % m) == p3(v) * (p2(b) % m),
                p3(v) >= 1,
        ;
        let d = (b - a) as nat;
        lemma_p2_add(a, d);
        assert(a + d == b);
        lemma_fundamental_div_mod(p2(a), m);
        lemma_fundamental_div_mod(p2(b), m);
        let qa = p2(a) / m;
        let qb = p2(b) / m;
        assert(p2(a) * (p2(d) - 1) == (qb - qa) * m + 0) by (nonlinear_arith)
            requires
                p2(b) == p2(a) * p2(d),
                p2(a) == m * qa + p2(a) % m,
                p2(b) == m * qb + p2(b) % m,
                p2(a) % m == p2(b) % m,
        ;
        lemma_fundamental_div_mod_converse(p2(a) * (p2(d) - 1), m, qb - qa, 0);
        lemma_cancel_p2(j, a, p2(d) - 1);
        lemma_fundamental_div_mod(p2(d) - 1, m);
        lemma_fundamental_div_mod_converse(p2(d), m, (p2(d) - 1) / m, 1);
        lemma_order(j, d);
        assert(orbit_len(k, v) == (2 * p3((j - 1) as nat)) as nat);
        lemma_fundamental_div_mod(d as int, 2 * p3((j - 1) as nat));
        let qd = d as int / (2 * p3((j - 1) as nat));
        assert(false) by (nonlinear_arith)
            requires
                d == (2 * p3((j - 1) as nat)) * qd + 0,
                0 < d < 2 * p3((j - 1) as nat),
        ;
    }
}

/// `q` is a step count within one period that brings `3^v` to `p`.
pub open spec fn orb_hits(k: nat, v: nat, p: int, q: nat) -> bool {
    q < orbit_len(k, v) && orb(p3(k), p3(v), q) == p
}

/// Every number below `3^k` with valuation `v` is on the orbit of `3^v`.
pub proof fn lemma_orb_cover(k: nat, v: nat, p: int)
    requires
        v < k,
        0 < p < p3(k),
        v3(p) == v,
    ensures
        exists|q: nat| #[trigger] orb_hits(k, v, p, q),
{
    let j = (k - v) as nat;
    lemma_v3_split(p);
    lemma_v3_bound(p, k);
    let u = unit3(p);
    lemma_cover(j, u);
    let t = choose|t: nat| #[trigger] covers_at(j, u, t);
    lemma_orb_form(k, v, t);
    assert(orb_hits(k, v, p, t));
}

/// Doubling modulo `3^k` keeps a nonzero position nonzero and keeps its valuation.
pub proof fn lemma_double_v3(k: nat, p: int)
    requires
        0 < p < p3(k),
    ensures
        0 < (2 * p) % p3(k) < p3(k),
        v3((2 * p) % p3(k)) == v3(p),
{
    lemma_v3_split(p);
    lemma_v3_bound(p, k);
    let w = v3(p);
    let u = unit3(p);
    let j = (k - w) as nat;
    let m = p3(j);
    lemma_p3_pos(w);
    lemma_p3_pos(j);
    lemma_p3_pos((j - 1) as nat);
    assert(2 * p == p3(w) * (2 * u)) by (nonlinear_arith)
        requires
            p == p3(w) * u,
    ;
    lemma_scaled_mod(p3(w), 2 * u, m);
    let r = (2 * u) % m;
    lemma_mod_bound(2 * u, m);
    vstd::arithmetic::div_mod::lemma_mod_mod(2 * u, 3, p3((j - 1) as nat));
    assert((2 * u) % 3 != 0) by {
        if (u * 2) % 3 == 0 {
            lemma_three_divides_product(u, 2);
        }
        assert(u * 2 == 2 * u);
    }
    assert(r % 3 != 0);
    assert(r > 0) by {
        if r == 0 {
            assert(0int % 3 == 0);
        }
    }
    lemma_v3_of(w, r);
    assert(0 < p3(w) * r < p3(w) * m) by (nonlinear_arith)
        requires
            0 < r < m,
            p3(w) >= 1,
    ;
}

} // verus!
