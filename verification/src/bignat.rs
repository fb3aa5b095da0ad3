//! Arbitrary-precision natural numbers, just large enough for exact
//! comparison of posterior scores: a score is a product of many small
//! counts, so it can exceed any fixed-width integer.
use vstd::prelude::*;
use vstd::arithmetic::power::pow;
use vstd::arithmetic::mul::*;
use vstd::arithmetic::div_mod::lemma_fundamental_div_mod;

verus! {

/// Radix of the representation: each limb is one base-2^64 digit,
/// least significant limb first.
pub open spec fn base() -> int {
    0x1_0000_0000_0000_0000
}

/// The natural number denoted by a little-endian limb sequence.
pub open spec fn limbs_val(s: Seq<u64>) -> int
    decreases s.len(),
{
    if s.len() == 0 {
        0
    } else {
        limbs_val(s.drop_last()) + s.last() * pow(base(), (s.len() - 1) as nat)
    }
}

pub proof fn lemma_limbs_val_nonneg(s: Seq<u64>)
    ensures
        0 <= limbs_val(s),
    decreases s.len(),
{
    if s.len() > 0 {
        lemma_limbs_val_nonneg(s.drop_last());
        vstd::arithmetic::power::lemma_pow_positive(base(), (s.len() - 1) as nat);
        lemma_mul_nonnegative(s.last() as int, pow(base(), (s.len() - 1) as nat));
    }
}

pub proof fn lemma_limbs_val_upper(s: Seq<u64>)
    ensures
        limbs_val(s) < pow(base(), s.len()),
    decreases s.len(),
{
    reveal(pow);
    if s.len() == 0 {
    } else {
        let p = pow(base(), (s.len() - 1) as nat);
        lemma_limbs_val_upper(s.drop_last());
        vstd::arithmetic::power::lemma_pow_positive(base(), (s.len() - 1) as nat);
        lemma_mul_inequality(s.last() as int, base() - 1, p);
        assert(pow(base(), s.len()) == base() * p);
        assert((base() - 1) * p == base() * p - p) by (nonlinear_arith);
    }
}

pub proof fn lemma_limbs_val_lower(s: Seq<u64>)
    requires
        s.len() > 0,
        s.last() != 0,
    ensures
        limbs_val(s) >= pow(base(), (s.len() - 1) as nat),
{
    let p = pow(base(), (s.len() - 1) as nat);
    lemma_limbs_val_nonneg(s.drop_last());
    vstd::arithmetic::power::lemma_pow_positive(base(), (s.len() - 1) as nat);
    lemma_mul_inequality(1, s.last() as int, p);
}

/// If two equally long limb sequences agree strictly above position `j`
/// and differ in favour of `a` at `j`, then `a` denotes the larger number.
proof fn lemma_limbs_val_cmp(a: Seq<u64>, b: Seq<u64>, j: int)
    requires
        a.len() == b.len(),
        0 <= j < a.len(),
        forall|k: int| j < k < a.len() ==> a[k] == b[k],
        a[j] > b[j],
    ensures
        limbs_val(a) > limbs_val(b),
    decreases a.len(),
{
    let n = a.len() as int;
    let p = pow(base(), (n - 1) as nat);
    vstd::arithmetic::power::lemma_pow_positive(base(), (n - 1) as nat);
    if j == n - 1 {
        lemma_limbs_val_nonneg(a.drop_last());
        lemma_limbs_val_upper(b.drop_last());
        lemma_mul_inequality(b.last() as int + 1, a.last() as int, p);
        assert((b.last() as int + 1) * p == b.last() as int * p + p) by (nonlinear_arith);
    } else {
        assert(a.last() == b.last());
        lemma_limbs_val_cmp(a.drop_last(), b.drop_last(), j);
    }
}

/// An exact, overflow-free natural number; `value` is the number it denotes.
pub struct BigNat {
    pub limbs: Vec<u64>,
}

impl BigNat {
    pub open spec fn value(self) -> int {
        limbs_val(self.limbs@)
    }

    /// No leading zero limb, so the length determines the magnitude range.
    pub open spec fn wf(self) -> bool {
        self.limbs@.len() > 0 ==> self.limbs@.last() != 0
    }

    pub fn from_u64(x: u64) -> (r: BigNat)
        ensures
            r.wf(),
            r.value() == x,
    {
        let mut limbs: Vec<u64> = Vec::new();
        if x != 0 {
            limbs.push(x);
        }
        proof {
            if x != 0 {
                assert(limbs@.drop_last() =~= Seq::<u64>::empty());
                assert(limbs_val(Seq::<u64>::empty()) == 0);
                vstd::arithmetic::power::lemma_pow0(base());
                assert(limbs_val(limbs@) == 0 + x * pow(base(), 0));
            } else {
                assert(limbs_val(limbs@) == 0);
            }
        }
        BigNat { limbs }
    }

    /// Multiply in place by a machine word, schoolbook style with a carry.
    pub fn mul_u64(&mut self, m: u64)
        requires
            old(self).wf(),
        ensures
            final(self).wf(),
            final(self).value() == old(self).value() * m,
    {
        let ghost orig = self.limbs@;
        if m == 0 {
            self.limbs = Vec::new();
            proof {
                lemma_mul_basics(limbs_val(orig));
            }
            return;
        }
        let mut carry: u64 = 0;
        let mut i: usize = 0;
        let n = self.limbs.len();
        while i < n
            invariant
                m >= 1,
                i <= n,
                n == self.limbs@.len(),
                n == orig.len(),
                forall|k: int| i <= k < orig.len() ==> self.limbs@[k] == orig[k],
                limbs_val(self.limbs@.take(i as int)) + carry * pow(base(), i as nat)
                    == limbs_val(orig.take(i as int)) * m,
            decreases n - i,
        {
            let limb = self.limbs[i];
            proof {
                lemma_mul_upper_bound(
                    limb as int, 0xffff_ffff_ffff_ffff,
                    m as int, 0xffff_ffff_ffff_ffff);
            }
            let p: u128 = (limb as u128) * (m as u128) + (carry as u128);
            proof {
                assert(p <= 0xffff_ffff_ffff_ffff_0000_0000_0000_0000u128);
            }
            let lo: u64 = (p % 0x1_0000_0000_0000_0000u128) as u64;
            let hi: u64 = (p / 0x1_0000_0000_0000_0000u128) as u64;
            let ghost pre = self.limbs@;
            let ghost pre_carry = carry as int;
            self.limbs.set(i, lo);
            carry = hi;
            proof {
                let ii = i as int;
                let pk = pow(base(), i as nat);
                let pk1 = pow(base(), (i + 1) as nat);
                reveal(pow);
                assert(pk1 == base() * pk);
                lemma_fundamental_div_mod(p as int, base());
                assert(self.limbs@.take(ii) =~= pre.take(ii));
                assert(self.limbs@.take(ii + 1).drop_last() =~= pre.take(ii));
                assert(orig.take(ii + 1).drop_last() =~= orig.take(ii));
                assert(limbs_val(self.limbs@.take(ii + 1))
                    == limbs_val(pre.take(ii)) + lo * pk);
                assert(limbs_val(orig.take(ii + 1))
                    == limbs_val(orig.take(ii)) + orig[ii] * pk);
                assert(limbs_val(pre.take(ii)) + lo * pk + hi * (base() * pk)
                    == (limbs_val(orig.take(ii)) + orig[ii] * pk) * m)
                    by (nonlinear_arith)
                    requires
                        limbs_val(pre.take(ii)) + pre_carry * pk == limbs_val(orig.take(ii)) * m,
                        p == orig[ii] * m + pre_carry,
                        p == base() * hi + lo,
                ;
            }
            i += 1;
        }
        proof {
            assert(self.limbs@.take(n as int) =~= self.limbs@);
            assert(orig.take(n as int) =~= orig);
        }
        if carry != 0 {
            let ghost pre = self.limbs@;
            self.limbs.push(carry);
            proof {
                assert(self.limbs@.drop_last() =~= pre);
            }
        } else {
            proof {
                if self.limbs@.len() > 0 && self.limbs@.last() == 0 {
                    let nn = self.limbs@.len();
                    lemma_limbs_val_upper(self.limbs@.drop_last());
                    assert(limbs_val(self.limbs@)
                        == limbs_val(self.limbs@.drop_last())
                            + 0 * pow(base(), (nn - 1) as nat));
                    lemma_limbs_val_lower(orig);
                    lemma_limbs_val_nonneg(orig);
                    lemma_mul_inequality(1, m as int, limbs_val(orig));
                    lemma_mul_is_commutative(limbs_val(orig), m as int);
                    assert(false);
                }
            }
        }
    }

    /// Exact comparison: `true` exactly when `self` denotes the larger number.
    pub fn gt(&self, other: &BigNat) -> (r: bool)
        requires
            self.wf(),
            other.wf(),
        ensures
            r == (self.value() > other.value()),
    {
        let a = self.limbs.len();
        let b = other.limbs.len();
        if a > b {
            proof {
                lemma_limbs_val_lower(self.limbs@);
                lemma_limbs_val_upper(other.limbs@);
                vstd::arithmetic::power::lemma_pow_increases(
                    base() as nat, b as nat, (a - 1) as nat);
            }
            return true;
        }
        if a < b {
            proof {
                lemma_limbs_val_lower(other.limbs@);
                lemma_limbs_val_upper(self.limbs@);
                vstd::arithmetic::power::lemma_pow_increases(
                    base() as nat, a as nat, (b - 1) as nat);
            }
            return false;
        }
        let mut j: usize = a;
        while j > 0
            invariant
                j <= a,
                a == self.limbs@.len(),
                a == other.limbs@.len(),
                forall|k: int| j <= k < a ==> self.limbs@[k] == other.limbs@[k],
            decreases j,
        {
            j -= 1;
            if self.limbs[j] > other.limbs[j] {
                proof {
                    lemma_limbs_val_cmp(self.limbs@, other.limbs@, j as int);
                }
                return true;
            }
            if self.limbs[j] < other.limbs[j] {
                proof {
                    lemma_limbs_val_cmp(other.limbs@, self.limbs@, j as int);
                }
                return false;
            }
        }
        proof {
            assert(self.limbs@ =~= other.limbs@);
        }
        false
    }
}

} // verus!
