//! Powers of two and base-2 logarithms of machine words.
use vstd::prelude::*;
use vstd::arithmetic::div_mod::{lemma_fundamental_div_mod, lemma_mod_multiples_basic};

verus! {

/// Two to the power `k`.
pub open spec fn pow2(k: nat) -> nat
    decreases k,
{
    if k == 0 {
        1
    } else {
        2 * pow2((k - 1) as nat)
    }
}

/// `x` is a power of two.
pub open spec fn is_pow2(x: int) -> bool {
    exists|k: nat| pow2(k) == x
}

/// The least power of two that is at least `x`.
pub open spec fn round_up_pow2(x: nat) -> nat
    decreases x,
{
    if x <= 1 {
        1
    } else {
        2 * round_up_pow2(((x + 1) / 2) as nat)
    }
}

pub proof fn lemma_pow2_pos(k: nat)
    ensures
        pow2(k) >= 1,
    decreases k,
{
    if k > 0 {
        lemma_pow2_pos((k - 1) as nat);
    }
}

/// Powers of two grow strictly with the exponent.
pub proof fn lemma_pow2_strict(i: nat, j: nat)
    requires
        i < j,
    ensures
        pow2(i) < pow2(j),
    decreases j,
{
    lemma_pow2_pos(i);
    if j > i + 1 {
        lemma_pow2_strict(i, (j - 1) as nat);
    }
}

/// `pow2(j)` is `pow2(i)` times `pow2(j - i)`.
pub proof fn lemma_pow2_split(i: nat, j: nat)
    requires
        i <= j,
    ensures
        pow2(j) == pow2(i) * pow2((j - i) as nat),
    decreases j,
{
    if j == i {
        assert(pow2(0) == 1);
        assert(pow2(i) * 1 == pow2(i));
    } else {
        lemma_pow2_split(i, (j - 1) as nat);
        assert(pow2(j) == 2 * pow2((j - 1) as nat));
        assert(pow2((j - i) as nat) == 2 * pow2((j - 1 - i) as nat));
        assert(pow2(i) * (2 * pow2((j - 1 - i) as nat)) == 2 * (pow2(i) * pow2((j - 1 - i) as nat))) by (nonlinear_arith);
    }
}

/// A smaller power of two divides a larger one.
pub proof fn lemma_pow2_divides(i: nat, j: nat)
    requires
        i <= j,
    ensures
        pow2(j) % pow2(i) == 0,
{
    lemma_pow2_split(i, j);
    lemma_pow2_pos(i);
    lemma_mod_multiples_basic(pow2((j - i) as nat) as int, pow2(i) as int);
    assert(pow2((j - i) as nat) * pow2(i) == pow2(i) * pow2((j - i) as nat)) by (nonlinear_arith);
}

/// Divisibility is transitive.
pub proof fn lemma_divides_trans(a: int, s: int, t: int)
    requires
        t > 0,
        s > 0,
        a % s == 0,
        s % t == 0,
    ensures
        a % t == 0,
{
    lemma_fundamental_div_mod(a, s);
    lemma_fundamental_div_mod(s, t);
    let q = a / s;
    let r = s / t;
    assert(a == (r * q) * t) by (nonlinear_arith)
        requires
            a == s * q,
            s == t * r,
    ;
    lemma_mod_multiples_basic(r * q, t);
}

/// The exponent exceeds nothing smaller than its power.
pub proof fn lemma_pow2_gt(k: nat)
    ensures
        pow2(k) > k,
    decreases k,
{
    if k > 0 {
        lemma_pow2_gt((k - 1) as nat);
    }
}

/// `round_up_pow2(x)` is a power of two, the least one at least `x`.
pub proof fn lemma_round_up_is_pow2(x: nat) -> (j: nat)
    ensures
        pow2(j) == round_up_pow2(x),
        x <= pow2(j),
        j == 0 || pow2((j - 1) as nat) < x,
    decreases x,
{
    if x <= 1 {
        0
    } else {
        let y = ((x + 1) / 2) as nat;
        let j1 = lemma_round_up_is_pow2(y);
        let j = j1 + 1;
        assert(pow2(j) == 2 * pow2(j1));
        if j1 > 0 {
            assert(pow2(j1) == 2 * pow2((j1 - 1) as nat));
        }
        j
    }
}

/// A value strictly between two consecutive powers of two is none.
pub proof fn lemma_between_pow2(x: int, k: nat)
    requires
        k == 0 || pow2((k - 1) as nat) < x,
        x < pow2(k),
        x >= 1,
    ensures
        !is_pow2(x),
{
    assert forall|j: nat| pow2(j) != x by {
        if j < k {
            if j + 1 < k {
                lemma_pow2_strict(j, (k - 1) as nat);
            }
        } else if j > k {
            lemma_pow2_strict(k, j);
        }
    }
}

/// `pow2(k)` is the least power of two at least `x` when the previous
/// power of two is below `x`.
pub proof fn lemma_round_up_pow2(x: nat, k: nat)
    requires
        x <= pow2(k),
        k == 0 || pow2((k - 1) as nat) < x,
    ensures
        round_up_pow2(x) == pow2(k),
    decreases k,
{
    if k == 0 {
    } else if k == 1 {
        assert(pow2(0) == 1);
        assert(x == 2);
        assert(round_up_pow2(1) == 1);
    } else {
        let y = ((x + 1) / 2) as nat;
        let k1 = (k - 1) as nat;
        assert(pow2(k) == 2 * pow2(k1));
        assert(pow2(k1) == 2 * pow2((k1 - 1) as nat));
        lemma_round_up_pow2(y, k1);
    }
}

/// Floor of the base-2 logarithm.
pub trait Log2: Sized {
    /// The logarithm of `self` is defined.
    spec fn log2_defined(self) -> bool;

    /// `r` is the floor of the base-2 logarithm of `self`.
    spec fn is_log2_of(self, r: Self) -> bool;

    /// Computes the floor of the base-2 logarithm.
    fn log2(self) -> (r: Self)
        requires
            self.log2_defined(),
        ensures
            self.is_log2_of(r),
    ;
}

impl Log2 for usize {
    open spec fn log2_defined(self) -> bool {
        self > 0
    }

    open spec fn is_log2_of(self, r: usize) -> bool {
        pow2(r as nat) <= self < pow2(r as nat + 1)
    }

    fn log2(self) -> (r: usize) {
        let mut v: usize = self;
        let mut r: usize = 0;
        assert(pow2(0) == 1);
        while v > 1
            invariant
                v >= 1,
                pow2(r as nat) * v <= self,
                self < pow2(r as nat) * (v + 1),
            decreases v,
        {
            let ghost p = pow2(r as nat);
            let h = v / 2;
            proof {
                lemma_pow2_pos(r as nat);
                lemma_pow2_gt(r as nat + 1);
                assert(pow2(r as nat + 1) == 2 * p);
                assert(2 * h <= v && v < 2 * h + 2);
                assert(2 * p * h <= p * v) by (nonlinear_arith)
                    requires
                        2 * h <= v,
                        p >= 1,
                ;
                assert(p * (v + 1) <= 2 * p * (h + 1)) by (nonlinear_arith)
                    requires
                        v + 1 <= 2 * h + 2,
                        p >= 1,
                ;
                assert(p * v >= 2 * p) by (nonlinear_arith)
                    requires
                        v >= 2,
                        p >= 1,
                ;
            }
            v = h;
            r = r + 1;
        }
        proof {
            assert(pow2(r as nat + 1) == 2 * pow2(r as nat));
            assert(pow2(r as nat) * 1 == pow2(r as nat));
            assert(pow2(r as nat) * 2 == pow2(r as nat + 1));
        }
        r
    }
}

/// Returns true if `x` is a power of two.
pub fn is_power_of_two(x: usize) -> (r: bool)
    ensures
        r == is_pow2(x as int),
{
    if x == 0 {
        proof {
            assert forall|j: nat| pow2(j) != 0 by {
                lemma_pow2_pos(j);
            }
        }
        return false;
    }
    let p = next_power_of_two(x);
    proof {
        let j = lemma_round_up_is_pow2(x as nat);
        if p != Some(x) {
            lemma_between_pow2(x as int, j);
        }
    }
    p == Some(x)
}

/// The least power of two that is at least `x`, or `None` where that does
/// not fit in a `usize`.
pub fn next_power_of_two(x: usize) -> (r: Option<usize>)
    ensures
        r matches Some(p) ==> p == round_up_pow2(x as nat),
        r is None <==> round_up_pow2(x as nat) > usize::MAX,
{
    let mut p: usize = 1;
    let ghost mut k: nat = 0;
    while p < x
        invariant
            p == pow2(k),
            p >= 1,
            k == 0 || pow2((k - 1) as nat) < x,
        decreases usize::MAX - p,
    {
        if p > usize::MAX / 2 {
            proof {
                let j = lemma_round_up_is_pow2(x as nat);
                if j <= k {
                    if j < k {
                        lemma_pow2_strict(j, k);
                    }
                }
                assert(j > k);
                if j > k + 1 {
                    lemma_pow2_strict(k + 1, j);
                }
                assert(pow2(k + 1) == 2 * pow2(k));
            }
            return None;
        }
        p = p * 2;
        proof {
            k = k + 1;
        }
    }
    proof {
        lemma_round_up_pow2(x as nat, k);
    }
    Some(p)
}

} // verus!
