//! Arithmetic for the report over a whole run.

use vstd::prelude::*;

verus! {

/// `d` divides `x` (0 divides only 0).
pub open spec fn divides(d: nat, x: nat) -> bool {
    if d == 0 {
        x == 0
    } else {
        x % d == 0
    }
}

/// `d` divides every number in `s`.
pub open spec fn divides_all(d: nat, s: Seq<u64>) -> bool {
    forall|i: int| 0 <= i < s.len() ==> divides(d, #[trigger] s[i] as nat)
}

proof fn lemma_divides_mul(d: nat, k: nat)
    ensures
        divides(d, d * k),
{
    if d > 0 {
        vstd::arithmetic::div_mod::lemma_mod_multiples_basic(k as int, d as int);
        assert(k * d == d * k) by (nonlinear_arith);
    } else {
        assert(d * k == 0) by (nonlinear_arith)
            requires
                d == 0,
        ;
    }
}

proof fn lemma_divides_witness(d: nat, x: nat)
    requires
        divides(d, x),
    ensures
        x == d * (if d == 0 {
            0
        } else {
            x / d
        }),
{
    if d > 0 {
        vstd::arithmetic::div_mod::lemma_fundamental_div_mod(x as int, d as int);
    }
}

/// A step of Euclid's algorithm keeps the common divisors: for `b > 0`, `d`
/// divides `a` and `b` exactly when it divides `b` and `a % b`.
proof fn lemma_euclid_step(d: nat, a: nat, b: nat)
    requires
        b > 0,
    ensures
        (divides(d, a) && divides(d, b)) <==> (divides(d, b) && divides(d, a % b)),
{
    let q = a / b;
    let r = a % b;
    vstd::arithmetic::div_mod::lemma_fundamental_div_mod(a as int, b as int);
    if divides(d, b) {
        lemma_divides_witness(d, b);
        let kb: nat = if d == 0 {
            0
        } else {
            b / d
        };
        if divides(d, a) {
            lemma_divides_witness(d, a);
            let ka: nat = if d == 0 {
                0
            } else {
                a / d
            };
            assert(r == d * (ka - kb * q)) by (nonlinear_arith)
                requires
                    a == b * q + r,
                    a == d * ka,
                    b == d * kb,
            ;
            assert(ka - kb * q >= 0) by (nonlinear_arith)
                requires
                    r == d * (ka - kb * q),
                    r >= 0,
                    d > 0 || b == 0,
                    b > 0,
            ;
            lemma_divides_mul(d, (ka - kb * q) as nat);
        }
        if divides(d, r) {
            lemma_divides_witness(d, r);
            let kr: nat = if d == 0 {
                0
            } else {
                r / d
            };
            assert(a == d * (kb * q + kr)) by (nonlinear_arith)
                requires
                    a == b * q + r,
                    r == d * kr,
                    b == d * kb,
            ;
            lemma_divides_mul(d, kb * q + kr);
        }
    }
}

/// The greatest common divisor of all given numbers: it divides each of them,
/// and every common divisor divides it.
pub fn gcd(nums: &[u64]) -> (r: u64)
    requires
        nums@.len() > 0,
    ensures
        divides_all(r as nat, nums@),
        forall|d: nat| #[trigger] divides_all(d, nums@) ==> divides(d, r as nat),
{
    let mut gcd = nums[0];
    let mut i: usize = 1;
    proof {
        let s1 = nums@.subrange(0, 1);
        assert forall|d: nat| divides(d, gcd as nat) <==> divides_all(d, s1) by {
            assert(s1[0] == gcd);
        }
    }
    while i < nums.len()
        invariant
            1 <= i <= nums@.len(),
            forall|d: nat|
                #![trigger divides(d, gcd as nat)]
                #![trigger divides_all(d, nums@.subrange(0, i as int))]
                divides(d, gcd as nat) <==> divides_all(d, nums@.subrange(0, i as int)),
        decreases nums@.len() - i,
    {
        let mut n = nums[i];
        let ghost x = nums@[i as int] as nat;
        let ghost g0 = gcd as nat;
        // Euclid's algorithm on the result so far and the next number.
        while n > 0
            invariant
                forall|d: nat|
                    #![trigger divides(d, gcd as nat), divides(d, n as nat)]
                    #![trigger divides(d, g0), divides(d, x)]
                    (divides(d, gcd as nat) && divides(d, n as nat)) <==> (divides(d, g0) && divides(d, x)),
            decreases n,
        {
            proof {
                assert forall|d: nat|
                    #![trigger divides(d, gcd as nat), divides(d, n as nat)]
                    (divides(d, gcd as nat) && divides(d, n as nat)) <==> (divides(d, n as nat)
                        && divides(d, (gcd % n) as nat)) by {
                    lemma_euclid_step(d, gcd as nat, n as nat);
                }
            }
            let tmp = n;
            n = gcd % n;
            gcd = tmp;
        }
        proof {
            let s0 = nums@.subrange(0, i as int);
            let s1 = nums@.subrange(0, i as int + 1);
            assert forall|d: nat| divides_all(d, s1) <==> divides_all(d, s0) && divides(d, x) by {
                if divides_all(d, s1) {
                    assert(s1[i as int] as nat == x);
                    assert forall|j: int| 0 <= j < s0.len() implies divides(d, #[trigger] s0[j] as nat) by {
                        assert(s0[j] == s1[j]);
                    }
                }
                if divides_all(d, s0) && divides(d, x) {
                    assert forall|j: int| 0 <= j < s1.len() implies divides(d, #[trigger] s1[j] as nat) by {
                        if j < i {
                            assert(s0[j] == s1[j]);
                        }
                    }
                }
            }
            assert forall|d: nat| divides(d, gcd as nat) implies divides(d, 0) by {}
        }
        i = i + 1;
    }
    proof {
        assert(nums@.subrange(0, nums@.len() as int) =~= nums@);
        assert(divides(gcd as nat, gcd as nat)) by {
            if gcd > 0 {
                vstd::arithmetic::div_mod::lemma_mod_self_0(gcd as int);
            }
        }
    }
    gcd
}

} // verus!
