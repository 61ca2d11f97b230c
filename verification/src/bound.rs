//! The depth bound of a scapegoat tree with weight factor 2/3.
//!
//! A new leaf may sit at depth `d` in a tree of `n` entries without a
//! rebuild when `d <= log_{3/2}(n)`, that is when `(3/2)^d <= n`, or in
//! integers `3^d <= n * 2^d`.
use vstd::prelude::*;
use vstd::arithmetic::power::{pow, lemma_pow_adds};

verus! {

/// `(3/2)^d <= n`, the condition under which depth `d` is within the bound
/// `log_{3/2}(n)`.
pub open spec fn within_log_bound(d: nat, n: nat) -> bool {
    pow(3, d) <= n * pow(2, d)
}

/// The powers of two and three that bound the computation below.
proof fn lemma_pow_values()
    ensures
        pow(2, 109) == 0x2000_0000_0000_0000_0000_0000_0000,
        pow(3, 110) > 0x1_0000_0000_0000_0000 * pow(2, 110),
{
    reveal_with_fuel(pow, 11);
    assert(pow(3, 10) == 59049);
    assert(pow(2, 10) == 1024);
    assert(pow(2, 9) == 512);
    lemma_pow_adds(3, 10, 10);
    assert(pow(3, 20) == 3486784401);
    lemma_pow_adds(3, 20, 20);
    assert(pow(3, 40) == 12157665459056928801);
    lemma_pow_adds(3, 40, 40);
    assert(pow(3, 80) == 147808829414345923316083210206383297601);
    lemma_pow_adds(3, 80, 20);
    assert(pow(3, 100) == 515377520732011331036461129765621272702107522001);
    lemma_pow_adds(3, 100, 10);
    assert(pow(3, 110) == 30432527221704537086371993251530170531786747066637049);
    lemma_pow_adds(2, 10, 10);
    assert(pow(2, 20) == 1048576);
    lemma_pow_adds(2, 20, 20);
    assert(pow(2, 40) == 1099511627776);
    lemma_pow_adds(2, 40, 40);
    assert(pow(2, 80) == 1208925819614629174706176);
    lemma_pow_adds(2, 80, 20);
    assert(pow(2, 100) == 1267650600228229401496703205376);
    lemma_pow_adds(2, 100, 10);
    assert(pow(2, 110) == 1298074214633706907132624082305024);
    lemma_pow_adds(2, 100, 9);
    assert(pow(2, 109) == 649037107316853453566312041152512);
}

pub proof fn lemma_pow_unfold(b: int, e: nat)
    ensures
        pow(b, e + 1) == b * pow(b, e),
{
    reveal(pow);
}

/// For `i >= 110`, `(3/2)^i` exceeds `2^64`, so no `usize` count reaches it.
proof fn lemma_three_halves_outgrow(i: nat)
    requires
        i >= 110,
    ensures
        pow(3, i) > 0x1_0000_0000_0000_0000 * pow(2, i),
    decreases i,
{
    if i == 110 {
        lemma_pow_values();
    } else {
        lemma_three_halves_outgrow((i - 1) as nat);
        lemma_pow_unfold(3, (i - 1) as nat);
        lemma_pow_unfold(2, (i - 1) as nat);
        lemma_pow_positive(2, (i - 1) as nat);
    }
}

pub proof fn lemma_pow_positive(b: int, e: nat)
    requires
        b > 0,
    ensures
        pow(b, e) > 0,
    decreases e,
{
    reveal(pow);
    if e > 0 {
        lemma_pow_positive(b, (e - 1) as nat);
        assert(b * pow(b, (e - 1) as nat) > 0) by (nonlinear_arith)
            requires
                b > 0,
                pow(b, (e - 1) as nat) > 0,
        ;
    }
}

/// Once `(3/2)^i > n`, every larger power exceeds `n` too.
proof fn lemma_beyond_bound_stays(i: nat, j: nat, n: nat)
    requires
        i <= j,
        !within_log_bound(i, n),
    ensures
        !within_log_bound(j, n),
    decreases j - i,
{
    if i < j {
        lemma_pow_unfold(3, i);
        lemma_pow_unfold(2, i);
        lemma_pow_positive(2, i);
        let a = pow(3, i);
        let b = pow(2, i);
        assert(3 * a > n * (2 * b)) by (nonlinear_arith)
            requires
                a > n * b,
                b > 0,
        ;
        lemma_beyond_bound_stays(i + 1, j, n);
    }
}

pub proof fn lemma_pow2_monotone(i: nat, j: nat)
    requires
        i <= j,
    ensures
        pow(2, i) <= pow(2, j),
    decreases j - i,
{
    if i < j {
        lemma_pow2_monotone(i + 1, j);
        lemma_pow_unfold(2, i);
        lemma_pow_positive(2, i);
    }
}

/// Decides `(3/2)^depth <= n` exactly, in integer arithmetic.
///
/// It keeps `3^i = q * 2^i + r` with `0 <= r < 2^i`, so that `q` is the
/// integer part of `(3/2)^i`, and stops as soon as `(3/2)^i` passes `n`.
pub fn depth_within_bound(depth: usize, n: usize) -> (b: bool)
    ensures
        b == within_log_bound(depth as nat, n as nat),
{
    if n == 0 {
        proof {
            lemma_pow_positive(3, depth as nat);
        }
        return false;
    }
    let mut i: usize = 0;
    let mut q: u128 = 1;
    let mut r: u128 = 0;
    let mut p: u128 = 1;
    proof {
        reveal(pow);
        lemma_pow_values();
    }
    while i < depth
        invariant
            i <= depth,
            pow(3, i as nat) == q * pow(2, i as nat) + r,
            p == pow(2, i as nat),
            r < p,
            within_log_bound(i as nat, n as nat),
            q <= n,
            i < 110,
            pow(2, 109) == 0x2000_0000_0000_0000_0000_0000_0000,
        decreases depth - i,
    {
        proof {
            lemma_pow_unfold(3, i as nat);
            lemma_pow_unfold(2, i as nat);
            lemma_pow2_monotone(i as nat, 109);
        }
        let q3 = 3 * q;
        let half = q3 / 2;
        let s = q3 % 2;
        let mut q2 = half;
        let mut r2 = if s == 1 { p + 3 * r } else { 3 * r };
        if r2 >= 2 * p {
            r2 = r2 - 2 * p;
            q2 = q2 + 1;
        }
        let ghost old_i = i as nat;
        proof {
            let pp = pow(2, old_i);
            assert(pow(3, old_i + 1) == q2 * (2 * pp) + r2) by (nonlinear_arith)
                requires
                    pow(3, old_i + 1) == 3 * pow(3, old_i),
                    pow(3, old_i) == q * pp + r,
                    q3 == 3 * q,
                    q3 == 2 * half + s,
                    s == 0 || s == 1,
                    (r2 == (if s == 1 { pp } else { 0 }) + 3 * r && q2 == half) || (r2 == (if s
                        == 1 { pp } else { 0 }) + 3 * r - 2 * pp && q2 == half + 1),
            ;
        }
        i = i + 1;
        q = q2;
        r = r2;
        p = 2 * p;
        if q > n as u128 || (q == n as u128 && r > 0) {
            proof {
                let qi = q as int;
                let ni = n as int;
                let pi = p as int;
                let ri = r as int;
                assert(qi * pi + ri > ni * pi) by (nonlinear_arith)
                    requires
                        pi > 0,
                        ri >= 0,
                        qi > ni || (qi == ni && ri > 0),
                ;
                lemma_beyond_bound_stays(i as nat, depth as nat, n as nat);
            }
            return false;
        }
        proof {
            let qi = q as int;
            let ni = n as int;
            let pi = p as int;
            let ri = r as int;
            assert(qi * pi + ri <= ni * pi) by (nonlinear_arith)
                requires
                    ri < pi,
                    ri >= 0,
                    qi < ni || (qi == ni && ri == 0),
            ;
            if i >= 110 {
                lemma_three_halves_outgrow(i as nat);
                lemma_pow_positive(2, i as nat);
                assert(false) by (nonlinear_arith)
                    requires
                        pow(3, i as nat) > 0x1_0000_0000_0000_0000 * pow(2, i as nat),
                        pow(3, i as nat) <= n * pow(2, i as nat),
                        n < 0x1_0000_0000_0000_0000,
                        pow(2, i as nat) > 0,
                ;
            }
        }
    }
    true
}

/// A shallower depth, or more entries, stays within the bound.
pub proof fn lemma_within_monotone(d: nat, n: nat, d2: nat, n2: nat)
    requires
        within_log_bound(d, n),
        d2 <= d,
        n <= n2,
    ensures
        within_log_bound(d2, n2),
{
    if !within_log_bound(d2, n) {
        lemma_beyond_bound_stays(d2, d, n);
    }
    lemma_pow_positive(2, d2);
    let p2 = pow(2, d2);
    assert(n * p2 <= n2 * p2) by (nonlinear_arith)
        requires
            n <= n2,
            p2 > 0,
    ;
}

proof fn lemma_three_below_four(k: nat)
    ensures
        pow(3, k) <= pow(2, k) * pow(2, k),
    decreases k,
{
    reveal(pow);
    if k > 0 {
        lemma_three_below_four((k - 1) as nat);
        let a = pow(3, (k - 1) as nat);
        let b = pow(2, (k - 1) as nat);
        lemma_pow_positive(2, (k - 1) as nat);
        assert(3 * a <= (2 * b) * (2 * b)) by (nonlinear_arith)
            requires
                a <= b * b,
                b > 0,
        ;
    }
}

/// A depth `k` with `2^k <= n` is within `log_{3/2}(n)`: a tree of least
/// height is within the bound.
pub proof fn lemma_binary_depth_within(k: nat, n: nat)
    requires
        pow(2, k) <= n,
    ensures
        within_log_bound(k, n),
{
    lemma_three_below_four(k);
    lemma_pow_positive(2, k);
    let p = pow(2, k);
    assert(p * p <= n * p) by (nonlinear_arith)
        requires
            p <= n,
            p > 0,
    ;
}

} // verus!
