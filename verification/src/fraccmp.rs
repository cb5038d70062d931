//! Exact comparison of nonnegative rationals held as numerator/denominator
//! pairs.
//!
//! Cosine-similarity scores are square roots of rationals; comparing two
//! scores, or a score against the 0.5 threshold, reduces to comparing two
//! exact fractions of machine integers.  The comparison below follows
//! Euclid's method — compare integer parts, then recurse on the reciprocals
//! of the remainders — so the cross products `a * d` and `c * b` are never
//! formed and no intermediate value can overflow.

use vstd::prelude::*;

verus! {

use vstd::arithmetic::div_mod::lemma_fundamental_div_mod;

/// How one fraction stands to another.
#[derive(Clone, Copy, PartialEq, Eq, Structural, Debug)]
pub enum FracRel {
    Below,
    Equal,
    Above,
}

/// How `a / b` stands to `c / d`, stated over the cross products, which in
/// specification arithmetic cannot overflow.
pub open spec fn frac_rel(a: int, b: int, c: int, d: int) -> FracRel {
    if a * d < c * b {
        FracRel::Below
    } else if a * d == c * b {
        FracRel::Equal
    } else {
        FracRel::Above
    }
}

/// Compares `a / b` with `c / d` exactly.  Works for every pair of `u128`
/// fractions: only quotients and remainders are computed, never products.
pub fn compare_fracs(a: u128, b: u128, c: u128, d: u128) -> (r: FracRel)
    requires
        b > 0,
        d > 0,
    ensures
        r == frac_rel(a as int, b as int, c as int, d as int),
    decreases b + d,
{
    let qa: u128 = a / b;
    let ra: u128 = a % b;
    let qc: u128 = c / d;
    let rc: u128 = c % d;
    proof {
        lemma_fundamental_div_mod(a as int, b as int);
        lemma_fundamental_div_mod(c as int, d as int);
    }
    if qa < qc {
        proof {
            lemma_quotient_orders(a as int, b as int, c as int, d as int);
        }
        FracRel::Below
    } else if qc < qa {
        proof {
            lemma_quotient_orders(c as int, d as int, a as int, b as int);
        }
        FracRel::Above
    } else if ra == 0 && rc == 0 {
        proof {
            assert((a as int) * (d as int) == (c as int) * (b as int)) by (nonlinear_arith)
                requires
                    a as int == (b as int) * (qa as int),
                    c as int == (d as int) * (qc as int),
                    qa == qc,
            ;
        }
        FracRel::Equal
    } else if ra == 0 {
        proof {
            assert((a as int) * (d as int) < (c as int) * (b as int)) by (nonlinear_arith)
                requires
                    a as int == (b as int) * (qa as int),
                    c as int == (d as int) * (qc as int) + (rc as int),
                    qa == qc,
                    0 < rc,
                    0 < b,
                    0 < d,
            ;
        }
        FracRel::Below
    } else if rc == 0 {
        proof {
            assert((c as int) * (b as int) < (a as int) * (d as int)) by (nonlinear_arith)
                requires
                    c as int == (d as int) * (qc as int),
                    a as int == (b as int) * (qa as int) + (ra as int),
                    qa == qc,
                    0 < ra,
                    0 < b,
                    0 < d,
            ;
        }
        FracRel::Above
    } else {
        let sub = compare_fracs(d, rc, b, ra);
        proof {
            assert((a as int) * (d as int) - (c as int) * (b as int) == (d as int) * (ra as int)
                - (b as int) * (rc as int)) by (nonlinear_arith)
                requires
                    a as int == (b as int) * (qa as int) + (ra as int),
                    c as int == (d as int) * (qc as int) + (rc as int),
                    qa == qc,
            ;
        }
        sub
    }
}

/// With a smaller integer quotient, `a / b` lies strictly under `c / d`.
proof fn lemma_quotient_orders(a: int, b: int, c: int, d: int)
    requires
        0 <= a,
        0 < b,
        0 <= c,
        0 < d,
        a / b < c / d,
    ensures
        a * d < c * b,
{
    lemma_fundamental_div_mod(a, b);
    lemma_fundamental_div_mod(c, d);
    vstd::arithmetic::div_mod::lemma_mod_bound(a, b);
    vstd::arithmetic::div_mod::lemma_mod_bound(c, d);
    vstd::arithmetic::div_mod::lemma_div_pos_is_pos(a, b);
    assert(a * d < c * b) by (nonlinear_arith)
        requires
            a == b * (a / b) + a % b,
            c == d * (c / d) + c % d,
            0 <= a % b < b,
            0 <= c % d,
            a / b < c / d,
            0 <= a / b,
            0 < b,
            0 < d,
    ;
}

} // verus!
