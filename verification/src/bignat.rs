use vstd::prelude::*;

verus! {

use vstd::arithmetic::power::pow;

/// Base of the limb representation.
pub(crate) open spec fn limb_base() -> int {
    0x1_0000_0000_0000_0000
}

/// Value of a little-endian sequence of base-2^64 limbs.
pub(crate) open spec fn limbs_value(s: Seq<u64>) -> int
    decreases s.len(),
{
    if s.len() == 0 {
        0
    } else {
        s[0] + limb_base() * limbs_value(s.skip(1))
    }
}

/// One unfolding of the power: `b^e == b * b^(e-1)`.
proof fn lemma_pow_unfold(b: int, e: nat)
    requires
        e >= 1,
    ensures
        pow(b, e) == b * pow(b, (e - 1) as nat),
{
    vstd::arithmetic::power::lemma_pow_adds(b, 1nat, (e - 1) as nat);
    vstd::arithmetic::power::lemma_pow1(b);
}

/// The value of a single limb is the limb itself.
proof fn lemma_limbs_value_single(x: u64)
    ensures
        limbs_value(seq![x]) == x,
{
    let s = seq![x];
    assert(s.skip(1) =~= Seq::<u64>::empty());
    assert(limbs_value(Seq::<u64>::empty()) == 0);
    assert(limbs_value(s) == s[0] + limb_base() * limbs_value(s.skip(1)));
}

proof fn lemma_limbs_value_nonneg(s: Seq<u64>)
    ensures
        limbs_value(s) >= 0,
    decreases s.len(),
{
    if s.len() > 0 {
        lemma_limbs_value_nonneg(s.skip(1));
        assert(limb_base() * limbs_value(s.skip(1)) >= 0) by (nonlinear_arith)
            requires
                limbs_value(s.skip(1)) >= 0,
        ;
    }
}

/// The value splits at any position: low limbs plus the high limbs scaled.
proof fn lemma_limbs_value_split(s: Seq<u64>, i: int)
    requires
        0 <= i <= s.len(),
    ensures
        limbs_value(s) == limbs_value(s.take(i)) + pow(limb_base(), i as nat) * limbs_value(
            s.skip(i),
        ),
    decreases i,
{
    if i == 0 {
        assert(s.take(0) =~= Seq::<u64>::empty());
        assert(s.skip(0) =~= s);
        assert(pow(limb_base(), 0) == 1) by {
            vstd::arithmetic::power::lemma_pow0(limb_base());
        }
    } else {
        let t = s.skip(1);
        lemma_limbs_value_split(t, i - 1);
        assert(s.take(i).skip(1) =~= t.take(i - 1));
        assert(s.skip(i) =~= t.skip(i - 1));
        assert(limbs_value(s.take(i)) == s[0] + limb_base() * limbs_value(t.take(i - 1)));
        let p1 = pow(limb_base(), (i - 1) as nat);
        lemma_pow_unfold(limb_base(), i as nat);
        assert(pow(limb_base(), i as nat) == limb_base() * p1);
        assert(s[0] + limb_base() * (limbs_value(t.take(i - 1)) + p1 * limbs_value(t.skip(i - 1)))
            == (s[0] + limb_base() * limbs_value(t.take(i - 1))) + (limb_base() * p1) * limbs_value(
            t.skip(i - 1),
        )) by (nonlinear_arith);
    }
}

/// Appending a limb adds its scaled value.
proof fn lemma_limbs_value_push(s: Seq<u64>, x: u64)
    ensures
        limbs_value(s.push(x)) == limbs_value(s) + pow(limb_base(), s.len()) * x,
{
    lemma_limbs_value_split(s.push(x), s.len() as int);
    assert(s.push(x).take(s.len() as int) =~= s);
    let hi = s.push(x).skip(s.len() as int);
    assert(hi =~= seq![x]);
    lemma_limbs_value_single(x);
    assert(limbs_value(hi) == x);
}

/// The value is below the base raised to the limb count.
proof fn lemma_limbs_value_upper(s: Seq<u64>)
    ensures
        limbs_value(s) < pow(limb_base(), s.len()),
    decreases s.len(),
{
    vstd::arithmetic::power::lemma_pow0(limb_base());
    if s.len() > 0 {
        let t = s.skip(1);
        lemma_limbs_value_upper(t);
        lemma_limbs_value_nonneg(t);
        let p = pow(limb_base(), t.len());
        lemma_pow_unfold(limb_base(), s.len());
        assert(pow(limb_base(), s.len()) == limb_base() * p);
        assert(s[0] + limb_base() * limbs_value(t) < limb_base() * p) by (nonlinear_arith)
            requires
                s[0] < limb_base(),
                0 <= limbs_value(t) < p,
        ;
    }
}

/// A sequence whose top limb is not zero has at least its positional weight.
proof fn lemma_limbs_value_lower(s: Seq<u64>)
    requires
        s.len() > 0,
        s.last() != 0,
    ensures
        limbs_value(s) >= pow(limb_base(), (s.len() - 1) as nat),
{
    let n = s.len() - 1;
    lemma_limbs_value_split(s, n);
    lemma_limbs_value_nonneg(s.take(n));
    let hi = s.skip(n);
    assert(hi =~= seq![s.last()]);
    lemma_limbs_value_single(s.last());
    assert(limbs_value(hi) == s.last());
    vstd::arithmetic::power::lemma_pow_positive(limb_base(), n as nat);
    assert(pow(limb_base(), n as nat) * limbs_value(hi) >= pow(limb_base(), n as nat)) by (
    nonlinear_arith)
        requires
            limbs_value(hi) >= 1,
            pow(limb_base(), n as nat) > 0,
    ;
}

/// With equal high limbs above position `j` and a smaller limb at `j`, the
/// whole value is smaller.
proof fn lemma_limbs_value_cmp_at(s: Seq<u64>, t: Seq<u64>, j: int)
    requires
        s.len() == t.len(),
        0 <= j < s.len(),
        s.skip(j + 1) =~= t.skip(j + 1),
        s[j] < t[j],
    ensures
        limbs_value(s) < limbs_value(t),
{
    lemma_limbs_value_split(s, j + 1);
    lemma_limbs_value_split(t, j + 1);
    lemma_limbs_value_split(s.take(j + 1), j);
    lemma_limbs_value_split(t.take(j + 1), j);
    assert(s.take(j + 1).take(j) =~= s.take(j));
    assert(t.take(j + 1).take(j) =~= t.take(j));
    let slo = s.take(j + 1).skip(j);
    let tlo = t.take(j + 1).skip(j);
    assert(slo =~= seq![s[j]]);
    assert(tlo =~= seq![t[j]]);
    lemma_limbs_value_single(s[j]);
    lemma_limbs_value_single(t[j]);
    assert(limbs_value(slo) == s[j] && limbs_value(tlo) == t[j]);
    lemma_limbs_value_upper(s.take(j));
    lemma_limbs_value_nonneg(t.take(j));
    let p = pow(limb_base(), j as nat);
    vstd::arithmetic::power::lemma_pow_positive(limb_base(), j as nat);
    assert(limbs_value(s.take(j + 1)) < limbs_value(t.take(j + 1))) by (nonlinear_arith)
        requires
            limbs_value(s.take(j + 1)) == limbs_value(s.take(j)) + p * s[j],
            limbs_value(t.take(j + 1)) == limbs_value(t.take(j)) + p * t[j],
            limbs_value(s.take(j)) < p,
            limbs_value(t.take(j)) >= 0,
            s[j] < t[j],
            p > 0,
    ;
    assert(limbs_value(s.take(j + 1)) < limbs_value(t.take(j + 1)) ==> limbs_value(s)
        < limbs_value(t)) by (nonlinear_arith)
        requires
            limbs_value(s) == limbs_value(s.take(j + 1)) + pow(limb_base(), (j + 1) as nat)
                * limbs_value(s.skip(j + 1)),
            limbs_value(t) == limbs_value(t.take(j + 1)) + pow(limb_base(), (j + 1) as nat)
                * limbs_value(t.skip(j + 1)),
            limbs_value(s.skip(j + 1)) == limbs_value(t.skip(j + 1)),
    ;
}

/// Outcome of comparing two unbounded naturals.
#[derive(Clone, Copy, PartialEq, Eq, Structural)]
pub enum Cmp {
    Lt,
    Eq,
    Gt,
}

/// An unbounded natural number: little-endian base-2^64 limbs with no
/// leading zero limb.
pub struct BigNat {
    limbs: Vec<u64>,
}

impl BigNat {
    pub closed spec fn well_formed(&self) -> bool {
        self.limbs@.len() == 0 || self.limbs@.last() != 0
    }

    pub closed spec fn value(&self) -> int {
        limbs_value(self.limbs@)
    }

    pub fn from_u64(v: u64) -> (r: BigNat)
        ensures
            r.well_formed(),
            r.value() == v,
    {
        let mut limbs: Vec<u64> = Vec::new();
        if v != 0 {
            limbs.push(v);
        }
        proof {
            if v != 0 {
                assert(limbs@ =~= seq![v]);
                lemma_limbs_value_single(v);
            }
        }
        BigNat { limbs }
    }

    pub fn duplicate(&self) -> (r: BigNat)
        ensures
            r.well_formed() == self.well_formed(),
            r.value() == self.value(),
    {
        let mut limbs: Vec<u64> = Vec::new();
        let n = self.limbs.len();
        let mut i: usize = 0;
        while i < n
            invariant
                i <= n,
                n == self.limbs@.len(),
                limbs@ =~= self.limbs@.take(i as int),
            decreases n - i,
        {
            limbs.push(self.limbs[i]);
            proof {
                assert(limbs@ =~= self.limbs@.take(i + 1));
            }
            i = i + 1;
        }
        proof {
            assert(limbs@ =~= self.limbs@);
        }
        BigNat { limbs }
    }

    /// Multiply in place by a positive word.
    pub fn mul_u64(&mut self, m: u64)
        requires
            old(self).well_formed(),
            m >= 1,
        ensures
            final(self).well_formed(),
            final(self).value() == old(self).value() * m,
    {
        let n = self.limbs.len();
        let mut carry: u64 = 0;
        let mut i: usize = 0;
        while i < n
            invariant
                i <= n,
                n == self.limbs@.len(),
                n == old(self).limbs@.len(),
                self.limbs@.skip(i as int) =~= old(self).limbs@.skip(i as int),
                limbs_value(self.limbs@.take(i as int)) + pow(limb_base(), i as nat) * carry
                    == limbs_value(old(self).limbs@.take(i as int)) * m,
            decreases n - i,
        {
            proof {
                vstd::arithmetic::power::lemma_pow_positive(limb_base(), i as nat);
                assert((self.limbs@[i as int] as int) * m + carry < limb_base() * limb_base()) by (
                nonlinear_arith)
                    requires
                        self.limbs@[i as int] < limb_base(),
                        m < limb_base(),
                        carry < limb_base(),
                ;
            }
            proof {
                assert(self.limbs@[i as int] == self.limbs@.skip(i as int)[0]);
                assert(old(self).limbs@[i as int] == old(self).limbs@.skip(i as int)[0]);
            }
            let t: u128 = (self.limbs[i] as u128) * (m as u128) + (carry as u128);
            let lo: u64 = (t % 0x1_0000_0000_0000_0000u128) as u64;
            let hi: u64 = (t / 0x1_0000_0000_0000_0000u128) as u64;
            proof {
                let ghost pre = self.limbs@;
                let ghost pre_carry = carry as int;
                vstd::arithmetic::div_mod::lemma_fundamental_div_mod(t as int, limb_base());
                let p = pow(limb_base(), i as nat);
                lemma_pow_unfold(limb_base(), (i + 1) as nat);
                assert(pow(limb_base(), (i + 1) as nat) == limb_base() * p);
                assert(pre.take(i as int).push(lo) =~= pre.update(i as int, lo).take(i + 1));
                lemma_limbs_value_push(pre.take(i as int), lo);
                lemma_limbs_value_push(old(self).limbs@.take(i as int), old(self).limbs@[i as int]);
                assert(old(self).limbs@.take(i as int).push(old(self).limbs@[i as int]) =~= old(
                    self,
                ).limbs@.take(i + 1));
                let a_new = limbs_value(pre.take(i as int));
                let a_old = limbs_value(old(self).limbs@.take(i as int));
                let a_old1 = limbs_value(old(self).limbs@.take(i + 1));
                let oldlimb = old(self).limbs@[i as int] as int;
                assert(a_new + p * lo + (limb_base() * p) * hi == a_old1 * m) by (nonlinear_arith)
                    requires
                        t == lo + limb_base() * hi,
                        t == oldlimb * m + pre_carry,
                        a_new + p * pre_carry == a_old * m,
                        a_old1 == a_old + p * oldlimb,
                ;
            }
            let ghost pre = self.limbs@;
            self.limbs[i] = lo;
            carry = hi;
            proof {
                assert(self.limbs@.take(i + 1) =~= pre.take(i as int).push(lo));
                let a = self.limbs@.skip(i + 1);
                let b = old(self).limbs@.skip(i + 1);
                assert forall|k: int| 0 <= k < a.len() implies a[k] == b[k] by {
                    assert(a[k] == pre.skip(i as int)[k + 1]);
                    assert(b[k] == old(self).limbs@.skip(i as int)[k + 1]);
                }
                assert(a =~= b);
                lemma_limbs_value_push(pre.take(i as int), lo);
            }
            i = i + 1;
        }
        proof {
            assert(self.limbs@.take(n as int) =~= self.limbs@);
            assert(old(self).limbs@.take(n as int) =~= old(self).limbs@);
        }
        if carry > 0 {
            let ghost pre = self.limbs@;
            self.limbs.push(carry);
            proof {
                lemma_limbs_value_push(pre, carry);
            }
        } else {
            proof {
                if self.limbs@.len() > 0 {
                    // the top limb kept its position; show it is not zero
                    let j = self.limbs@.len() - 1;
                    lemma_limbs_value_split(self.limbs@, j);
                    lemma_limbs_value_split(old(self).limbs@, j);
                    lemma_limbs_value_nonneg(self.limbs@.take(j));
                    lemma_limbs_value_upper(self.limbs@.take(j));
                    lemma_limbs_value_nonneg(old(self).limbs@.take(j));
                    let shi = self.limbs@.skip(j);
                    let ohi = old(self).limbs@.skip(j);
                    assert(shi =~= seq![self.limbs@.last()]);
                    assert(ohi =~= seq![old(self).limbs@.last()]);
                    lemma_limbs_value_single(self.limbs@.last());
                    lemma_limbs_value_single(old(self).limbs@.last());
                    assert(limbs_value(shi) == self.limbs@.last());
                    assert(limbs_value(ohi) == old(self).limbs@.last());
                    let p = pow(limb_base(), j as nat);
                    vstd::arithmetic::power::lemma_pow_positive(limb_base(), j as nat);
                    let v_new = limbs_value(self.limbs@);
                    let v_old = limbs_value(old(self).limbs@);
                    let lo_new = limbs_value(self.limbs@.take(j));
                    let lo_old = limbs_value(old(self).limbs@.take(j));
                    let top_new = self.limbs@.last() as int;
                    let top_old = old(self).limbs@.last() as int;
                    assert(top_new != 0) by (nonlinear_arith)
                        requires
                            v_new == lo_new + p * top_new,
                            v_old == lo_old + p * top_old,
                            v_new == v_old * m,
                            0 <= lo_new < p,
                            0 <= lo_old,
                            top_old >= 1,
                            top_new >= 0,
                            m >= 1,
                            p > 0,
                    ;
                }
            }
        }
    }

    /// Three-way comparison by value.
    pub fn cmp_with(&self, other: &BigNat) -> (r: Cmp)
        requires
            self.well_formed(),
            other.well_formed(),
        ensures
            (r == Cmp::Lt <==> self.value() < other.value()),
            (r == Cmp::Eq <==> self.value() == other.value()),
            (r == Cmp::Gt <==> self.value() > other.value()),
    {
        let n1 = self.limbs.len();
        let n2 = other.limbs.len();
        if n1 < n2 {
            proof {
                lemma_limbs_value_upper(self.limbs@);
                lemma_limbs_value_lower(other.limbs@);
                vstd::arithmetic::power::lemma_pow_increases(
                    limb_base() as nat,
                    n1 as nat,
                    (n2 - 1) as nat,
                );
            }
            return Cmp::Lt;
        }
        if n1 > n2 {
            proof {
                lemma_limbs_value_upper(other.limbs@);
                lemma_limbs_value_lower(self.limbs@);
                vstd::arithmetic::power::lemma_pow_increases(
                    limb_base() as nat,
                    n2 as nat,
                    (n1 - 1) as nat,
                );
            }
            return Cmp::Gt;
        }
        let mut j: usize = n1;
        while j > 0
            invariant
                j <= n1,
                n1 == self.limbs@.len(),
                n1 == other.limbs@.len(),
                self.limbs@.skip(j as int) =~= other.limbs@.skip(j as int),
            decreases j,
        {
            j = j - 1;
            let a = self.limbs[j];
            let b = other.limbs[j];
            if a < b {
                proof {
                    lemma_limbs_value_cmp_at(self.limbs@, other.limbs@, j as int);
                }
                return Cmp::Lt;
            }
            if a > b {
                proof {
                    lemma_limbs_value_cmp_at(other.limbs@, self.limbs@, j as int);
                }
                return Cmp::Gt;
            }
            proof {
                let sj = self.limbs@.skip(j as int);
                let tj = other.limbs@.skip(j as int);
                assert forall|k: int| 0 <= k < sj.len() implies sj[k] == tj[k] by {
                    if k > 0 {
                        assert(sj[k] == self.limbs@.skip(j + 1)[k - 1]);
                        assert(tj[k] == other.limbs@.skip(j + 1)[k - 1]);
                    }
                }
                assert(sj =~= tj);
            }
        }
        proof {
            assert(self.limbs@.skip(0) =~= self.limbs@);
            assert(other.limbs@.skip(0) =~= other.limbs@);
            assert(self.limbs@ =~= other.limbs@);
        }
        Cmp::Eq
    }
}

/// The power of a positive word, as an unbounded natural.
pub fn big_pow(base: u64, exp: u64) -> (r: BigNat)
    requires
        base >= 1,
    ensures
        r.well_formed(),
        r.value() == pow(base as int, exp as nat),
{
    let mut r = BigNat::from_u64(1);
    let mut i: u64 = 0;
    proof {
        vstd::arithmetic::power::lemma_pow0(base as int);
    }
    while i < exp
        invariant
            i <= exp,
            base >= 1,
            r.well_formed(),
            r.value() == pow(base as int, i as nat),
        decreases exp - i,
    {
        r.mul_u64(base);
        proof {
            lemma_pow_unfold(base as int, (i + 1) as nat);
            assert(pow(base as int, (i + 1) as nat) == (base as int) * pow(base as int, i as nat));
            assert(pow(base as int, i as nat) * base == base * pow(base as int, i as nat)) by (
            nonlinear_arith);
        }
        i = i + 1;
    }
    r
}

} // verus!
