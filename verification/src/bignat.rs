//! Unbounded natural numbers, just large enough to compare powers exactly.
//!
//! Deciding whether `k^b <= n^i` for band and bin counts overflows any
//! machine integer long before the counts get large, so the comparison is made
//! on little-endian base-2^64 limbs instead.

use vstd::arithmetic::power::*;
use vstd::prelude::*;

verus! {

/// The radix of one limb.
pub open spec fn limb_base() -> int {
    0x1_0000_0000_0000_0000
}

/// The value of little-endian `limbs`.
pub open spec fn limbs_value(limbs: Seq<u64>) -> int
    decreases limbs.len(),
{
    if limbs.len() == 0 {
        0
    } else {
        limbs_value(limbs.drop_last()) + limbs.last() * pow(limb_base(), (limbs.len() - 1) as nat)
    }
}

/// `limb_base()^(e + 1) == limb_base() * limb_base()^e`, and both are positive.
proof fn lemma_base_pow_step(e: nat)
    ensures
        pow(limb_base(), e + 1) == limb_base() * pow(limb_base(), e),
        pow(limb_base(), e) > 0,
{
    reveal(pow);
    lemma_pow_positive(limb_base(), e);
    assert(pow(limb_base(), e + 1) == limb_base() * pow(limb_base(), e));
}

/// Appending a limb adds it at the next place value.
proof fn lemma_value_push(limbs: Seq<u64>, d: u64)
    ensures
        limbs_value(limbs.push(d)) == limbs_value(limbs) + d * pow(limb_base(), limbs.len()),
{
    assert(limbs.push(d).drop_last() =~= limbs);
}

/// A value is a natural number below the first place value it does not reach.
proof fn lemma_value_bounds(limbs: Seq<u64>)
    ensures
        0 <= limbs_value(limbs) < pow(limb_base(), limbs.len()),
    decreases limbs.len(),
{
    if limbs.len() == 0 {
        lemma_pow0(limb_base());
    } else {
        let rest = limbs.drop_last();
        let p = pow(limb_base(), rest.len());
        lemma_value_bounds(rest);
        lemma_base_pow_step(rest.len());
        let top = limbs.last() as int;
        let low = limbs_value(rest);
        assert(0 <= low + top * p < limb_base() * p) by (nonlinear_arith)
            requires
                0 <= low < p,
                0 <= top < limb_base(),
                p > 0,
        ;
    }
}

/// A nonzero top limb puts the value at or above its own place value.
proof fn lemma_value_top_nonzero(limbs: Seq<u64>)
    requires
        limbs.len() > 0,
        limbs.last() != 0,
    ensures
        limbs_value(limbs) >= pow(limb_base(), (limbs.len() - 1) as nat),
{
    let rest = limbs.drop_last();
    lemma_value_bounds(rest);
    let p = pow(limb_base(), rest.len());
    let top = limbs.last() as int;
    lemma_base_pow_step(rest.len());
    assert(top * p >= p) by (nonlinear_arith)
        requires
            top >= 1,
            p > 0,
    ;
}

/// Zero limbs above `len` do not change the value.
proof fn lemma_value_trailing_zeros(limbs: Seq<u64>, len: int)
    requires
        0 <= len <= limbs.len(),
        forall|j: int| len <= j < limbs.len() ==> limbs[j] == 0,
    ensures
        limbs_value(limbs) == limbs_value(limbs.take(len)),
    decreases limbs.len(),
{
    if limbs.len() == len {
        assert(limbs.take(len) =~= limbs);
    } else {
        let rest = limbs.drop_last();
        assert(rest.take(len) =~= limbs.take(len));
        assert(limbs.last() == 0);
        lemma_value_trailing_zeros(rest, len);
        assert(limbs_value(limbs) == limbs_value(rest) + 0 * pow(limb_base(), rest.len()));
    }
}

/// Two limb sequences of one length compare as their highest differing limb.
proof fn lemma_value_compare(a: Seq<u64>, b: Seq<u64>, t: int)
    requires
        a.len() == b.len(),
        0 <= t < a.len(),
        a[t] < b[t],
        forall|j: int| t < j < a.len() ==> a[j] == b[j],
    ensures
        limbs_value(a) < limbs_value(b),
    decreases a.len(),
{
    let ra = a.drop_last();
    let rb = b.drop_last();
    let p = pow(limb_base(), ra.len());
    lemma_base_pow_step(ra.len());
    if t == a.len() - 1 {
        lemma_value_bounds(ra);
        lemma_value_bounds(rb);
        let x = a.last() as int;
        let y = b.last() as int;
        let va = limbs_value(ra);
        let vb = limbs_value(rb);
        assert(va + x * p < vb + y * p) by (nonlinear_arith)
            requires
                0 <= va < p,
                0 <= vb,
                x < y,
                p > 0,
        ;
    } else {
        lemma_value_compare(ra, rb, t);
    }
}

/// A natural number, as little-endian base-2^64 limbs.
pub struct BigNat {
    limbs: Vec<u64>,
}

impl BigNat {
    /// The number this value stands for.
    pub closed spec fn value(&self) -> int {
        limbs_value(self.limbs@)
    }

    /// The number `x`.
    pub fn from_u64(x: u64) -> (r: BigNat)
        ensures
            r.value() == x,
    {
        let mut limbs: Vec<u64> = Vec::new();
        limbs.push(x);
        proof {
            lemma_value_push(Seq::<u64>::empty(), x);
            lemma_pow0(limb_base());
            assert(limbs@ =~= Seq::<u64>::empty().push(x));
        }
        BigNat { limbs }
    }

    /// This number times `x`.
    pub fn mul_u64(&self, x: u64) -> (r: BigNat)
        ensures
            r.value() == self.value() * x,
    {
        let n = self.limbs.len();
        let mut out: Vec<u64> = Vec::new();
        let mut carry: u64 = 0;
        let mut i: usize = 0;
        proof {
            lemma_pow0(limb_base());
            assert(self.limbs@.take(0) =~= Seq::<u64>::empty());
        }
        while i < n
            invariant
                i <= n,
                n == self.limbs.len(),
                out@.len() == i,
                limbs_value(out@) + carry * pow(limb_base(), i as nat) == limbs_value(
                    self.limbs@.take(i as int),
                ) * x,
            decreases n - i,
        {
            let limb = self.limbs[i];
            assert((limb as int) * (x as int) <= (limb_base() - 1) * (limb_base() - 1))
                by (nonlinear_arith)
                requires
                    0 <= limb < limb_base(),
                    0 <= x < limb_base(),
            ;
            let t: u128 = (limb as u128) * (x as u128) + (carry as u128);
            let lo: u64 = (t % 0x1_0000_0000_0000_0000u128) as u64;
            let hi: u64 = (t / 0x1_0000_0000_0000_0000u128) as u64;
            proof {
                let p = pow(limb_base(), i as nat);
                lemma_base_pow_step(i as nat);
                assert(self.limbs@.take(i + 1).drop_last() =~= self.limbs@.take(i as int));
                assert(limbs_value(self.limbs@.take(i + 1)) == limbs_value(
                    self.limbs@.take(i as int),
                ) + limb * p);
                lemma_value_push(out@, lo);
                let v = limbs_value(out@);
                let w = limbs_value(self.limbs@.take(i as int));
                assert(lo + hi * limb_base() == t);
                assert(v + lo * p + hi * (limb_base() * p) == (w + limb * p) * x)
                    by (nonlinear_arith)
                    requires
                        v + carry * p == w * x,
                        lo + hi * limb_base() == limb * x + carry,
                ;
            }
            out.push(lo);
            carry = hi;
            i = i + 1;
        }
        proof {
            assert(self.limbs@.take(n as int) =~= self.limbs@);
        }
        if carry != 0 {
            proof {
                lemma_value_push(out@, carry);
            }
            out.push(carry);
        }
        BigNat { limbs: out }
    }

    /// How many limbs remain once zero limbs at the top are dropped.
    fn significant_len(&self) -> (len: usize)
        ensures
            len <= self.limbs.len(),
            len == 0 || self.limbs@[len - 1] != 0,
            forall|j: int| len <= j < self.limbs.len() ==> self.limbs@[j] == 0,
    {
        let mut len = self.limbs.len();
        while len > 0 && self.limbs[len - 1] == 0
            invariant
                len <= self.limbs.len(),
                forall|j: int| len <= j < self.limbs.len() ==> self.limbs@[j] == 0,
            decreases len,
        {
            len = len - 1;
        }
        len
    }

    /// Whether this number is at most `other`.
    pub fn le(&self, other: &BigNat) -> (r: bool)
        ensures
            r == (self.value() <= other.value()),
    {
        let la = self.significant_len();
        let lb = other.significant_len();
        let ghost a = self.limbs@.take(la as int);
        let ghost b = other.limbs@.take(lb as int);
        proof {
            lemma_value_trailing_zeros(self.limbs@, la as int);
            lemma_value_trailing_zeros(other.limbs@, lb as int);
            lemma_value_bounds(a);
            lemma_value_bounds(b);
        }
        if la != lb {
            proof {
                if la < lb {
                    lemma_value_top_nonzero(b);
                    lemma_pow_increases(limb_base() as nat, la as nat, (lb - 1) as nat);
                } else {
                    lemma_value_top_nonzero(a);
                    lemma_pow_increases(limb_base() as nat, lb as nat, (la - 1) as nat);
                }
            }
            return la < lb;
        }
        let mut i = la;
        while i > 0
            invariant
                la == lb,
                i <= la,
                la <= self.limbs.len(),
                lb <= other.limbs.len(),
                a == self.limbs@.take(la as int),
                b == other.limbs@.take(lb as int),
                forall|j: int| i <= j < la ==> a[j] == b[j],
                self.value() == limbs_value(a),
                other.value() == limbs_value(b),
            decreases i,
        {
            i = i - 1;
            let x = self.limbs[i];
            let y = other.limbs[i];
            if x != y {
                proof {
                    assert(a[i as int] == x && b[i as int] == y);
                    if x < y {
                        lemma_value_compare(a, b, i as int);
                    } else {
                        lemma_value_compare(b, a, i as int);
                    }
                }
                return x < y;
            }
        }
        proof {
            assert(a =~= b);
        }
        true
    }

    /// `x` to the power `e`.
    pub fn pow_u64(x: u64, e: usize) -> (r: BigNat)
        ensures
            r.value() == pow(x as int, e as nat),
    {
        let mut r = BigNat::from_u64(1);
        let mut j: usize = 0;
        proof {
            lemma_pow0(x as int);
        }
        while j < e
            invariant
                j <= e,
                r.value() == pow(x as int, j as nat),
            decreases e - j,
        {
            let next = r.mul_u64(x);
            proof {
                reveal(pow);
                assert(pow(x as int, (j + 1) as nat) == x * pow(x as int, j as nat));
                assert(r.value() * x == x * r.value()) by (nonlinear_arith);
            }
            r = next;
            j = j + 1;
        }
        r
    }
}

} // verus!
