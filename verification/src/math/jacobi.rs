//! The Jacobi symbol.

use vstd::prelude::*;
use crate::bigint::{abs, BigInt};
use crate::bignat::BigNat;

verus! {

/// The Jacobi symbol `(a / n)` for an odd positive `n`, by the usual
/// reduction: reduce `a` modulo `n`, take out the factors two of `a`, and
/// swap the two arguments by the law of quadratic reciprocity.
pub open spec fn jacobi_nat(a: nat, n: nat) -> int
    recommends
        n % 2 == 1,
    decreases n, a,
{
    if n % 2 == 0 {
        0
    } else if a >= n {
        jacobi_nat(a % n, n)
    } else if a == 0 {
        if n == 1 {
            1
        } else {
            0
        }
    } else if a % 2 == 0 {
        (if n % 8 == 3 || n % 8 == 5 {
            -1int
        } else {
            1int
        }) * jacobi_nat(a / 2, n)
    } else {
        (if a % 4 == 3 && n % 4 == 3 {
            -1int
        } else {
            1int
        }) * jacobi_nat(n, a)
    }
}

/// The Jacobi symbol `(x / y)` for an odd `y` of either sign. For a negative
/// `y` the symbol of `|y|` is taken, and negated where `x` is negative too.
pub open spec fn jacobi_symbol(x: int, y: int) -> int
    recommends
        y % 2 == 1,
{
    let m = abs(y);
    let sign = if y < 0 && x < 0 {
        -1int
    } else {
        1int
    };
    sign * jacobi_nat((x % (m as int)) as nat, m)
}

/// The symbol over one is one.
pub proof fn lemma_jacobi_over_one(a: nat)
    ensures
        jacobi_nat(a, 1) == 1,
{
    if a >= 1 {
        assert(a % 1 == 0);
        assert(jacobi_nat(0, 1) == 1);
    }
}

/// The symbol is one of `-1`, `0` and `1`.
pub proof fn lemma_jacobi_range(a: nat, n: nat)
    ensures
        -1 <= jacobi_nat(a, n) <= 1,
    decreases n, a,
{
    if n % 2 == 0 {
    } else if a >= n {
        lemma_jacobi_range(a % n, n);
    } else if a == 0 {
    } else if a % 2 == 0 {
        lemma_jacobi_range(a / 2, n);
        let r = jacobi_nat(a / 2, n);
        assert(-1 <= (-1int) * r <= 1 && -1 <= 1int * r <= 1) by (nonlinear_arith)
            requires
                -1 <= r <= 1,
        ;
    } else {
        lemma_jacobi_range(n, a);
        let r = jacobi_nat(n, a);
        assert(-1 <= (-1int) * r <= 1 && -1 <= 1int * r <= 1) by (nonlinear_arith)
            requires
                -1 <= r <= 1,
        ;
    }
}

/// Reducing the first argument does not change the symbol.
pub proof fn lemma_jacobi_reduce(a: nat, n: nat)
    requires
        n % 2 == 1,
    ensures
        jacobi_nat(a % n, n) == jacobi_nat(a, n),
{
    if a < n {
        vstd::arithmetic::div_mod::lemma_small_mod(a, n);
    }
}

/// The Jacobi symbol `(x / y)`, one of `-1`, `0` and `1`. The argument `y`
/// must be odd.
pub fn jacobi(x: &BigInt, y: &BigInt) -> (r: isize)
    requires
        y@ % 2 == 1,
    ensures
        r == jacobi_symbol(x@, y@),
        -1 <= r <= 1,
{
    let mut b = y.magnitude();
    let mut j: isize = if y.is_negative() && x.is_negative() {
        -1
    } else {
        1
    };
    let mut a = x.mod_floor(&b);
    let two = BigNat::from_u64(2);
    proof {
        lemma_jacobi_range((x@ % (abs(y@) as int)) as nat, abs(y@));
    }
    while !b.is_one()
        invariant
            b@ % 2 == 1,
            j == 1 || j == -1,
            two@ == 2,
            jacobi_symbol(x@, y@) == j * jacobi_nat(a@, b@),
            -1 <= jacobi_symbol(x@, y@) <= 1,
        decreases b@,
    {
        let mut c = a.mod_floor(&b);
        proof {
            lemma_jacobi_reduce(a@, b@);
        }
        if c.is_zero() {
            proof {
                assert(jacobi_nat(0, b@) == 0);
                assert(j * 0 == 0);
            }
            return 0;
        }
        let b_mod_8 = b.rem_u32(8);
        let flip = b_mod_8 == 3 || b_mod_8 == 5;
        proof {
            vstd::arithmetic::div_mod::lemma_mod_bound(a@ as int, b@ as int);
        }
        while c.is_even()
            invariant
                b@ % 2 == 1,
                j == 1 || j == -1,
                two@ == 2,
                0 < c@ < b@,
                flip == (b@ % 8 == 3 || b@ % 8 == 5),
                jacobi_symbol(x@, y@) == j * jacobi_nat(c@, b@),
            decreases c@,
        {
            proof {
                let f = if flip {
                    -1int
                } else {
                    1int
                };
                let rest = jacobi_nat(c@ / 2, b@);
                assert(jacobi_nat(c@, b@) == f * rest);
                assert(j * (f * rest) == (j * f) * rest) by (nonlinear_arith);
            }
            c = c.div_floor(&two);
            if flip {
                j = -j;
            }
        }
        let swap = b.rem_u32(4) == 3 && c.rem_u32(4) == 3;
        proof {
            let f = if swap {
                -1int
            } else {
                1int
            };
            let rest = jacobi_nat(b@, c@);
            assert(jacobi_nat(c@, b@) == f * rest);
            assert(j * (f * rest) == (j * f) * rest) by (nonlinear_arith);
            assert(jacobi_nat(b@, c@) == jacobi_nat(b@ % c@, c@));
        }
        if swap {
            j = -j;
        }
        a = b.mod_floor(&c);
        b = c;
    }
    proof {
        lemma_jacobi_over_one(a@);
        assert(j * 1 == j);
    }
    j
}

} // verus!
