//! Natural numbers of any size, held as limbs of 32 bits with the least
//! significant limb first. Only what the rounding of a ratio needs is here:
//! multiplying by a small factor, comparing and subtracting.

use vstd::arithmetic::power::{lemma_pow0, lemma_pow_positive, pow};
use vstd::prelude::*;

verus! {

/// The number of values that one limb can hold.
pub const BASE: u64 = 0x1_0000_0000;

/// `BASE^n`, as a natural number.
pub open spec fn weight(n: nat) -> nat {
    pow(BASE as int, n) as nat
}

/// The number that the limbs stand for: the sum of `limbs[i] * BASE^i`.
pub open spec fn limbs_value(limbs: Seq<u32>) -> nat
    decreases limbs.len(),
{
    if limbs.len() == 0 {
        0
    } else {
        limbs_value(limbs.drop_last()) + (limbs.last() as nat) * weight((limbs.len() - 1) as nat)
    }
}

/// `BASE^n` is positive, and each further power is `BASE` times the last.
pub proof fn lemma_weight(n: nat)
    ensures
        weight(n) > 0,
        weight(n) == pow(BASE as int, n),
        weight(n + 1) == BASE * weight(n),
        weight(0) == 1,
{
    lemma_pow_positive(BASE as int, n);
    lemma_pow0(BASE as int);
    reveal(pow);
}

/// The value of no limbs, and of limbs with one more on top.
pub proof fn lemma_value_push(limbs: Seq<u32>, top: u32)
    ensures
        limbs_value(Seq::<u32>::empty()) == 0,
        limbs_value(limbs.push(top)) == limbs_value(limbs) + top * weight(limbs.len()),
{
    assert(limbs.push(top).drop_last() =~= limbs);
}

/// Limbs of length `n` stand for a number below `BASE^n`.
pub proof fn lemma_value_bound(limbs: Seq<u32>)
    ensures
        limbs_value(limbs) < weight(limbs.len()),
    decreases limbs.len(),
{
    lemma_weight(limbs.len());
    if limbs.len() > 0 {
        let n = (limbs.len() - 1) as nat;
        lemma_value_bound(limbs.drop_last());
        lemma_weight(n);
        assert(limbs.last() * weight(n) + weight(n) <= BASE * weight(n)) by (nonlinear_arith)
            requires
                limbs.last() < BASE,
                weight(n) > 0,
        ;
    }
}

/// A prefix extended by one limb.
pub proof fn lemma_value_take(limbs: Seq<u32>, i: int)
    requires
        0 <= i < limbs.len(),
    ensures
        limbs_value(limbs.take(i + 1)) == limbs_value(limbs.take(i)) + limbs[i] * weight(i as nat),
{
    let t = limbs.take(i + 1);
    assert(t.drop_last() == limbs.take(i));
    lemma_weight(i as nat);
}

/// Limbs whose top limb is not zero stand for at least `BASE^(n-1)`.
pub proof fn lemma_value_lower(limbs: Seq<u32>)
    requires
        limbs.len() > 0,
        limbs.last() != 0,
    ensures
        limbs_value(limbs) >= weight((limbs.len() - 1) as nat),
{
    let n = (limbs.len() - 1) as nat;
    lemma_weight(n);
    assert(limbs.last() * weight(n) >= weight(n)) by (nonlinear_arith)
        requires
            limbs.last() >= 1,
            weight(n) > 0,
    ;
}

/// `BASE^a <= BASE^b` where `a <= b`.
pub proof fn lemma_weight_increases(a: nat, b: nat)
    requires
        a <= b,
    ensures
        weight(a) <= weight(b),
    decreases b - a,
{
    lemma_weight(a);
    if a < b {
        lemma_weight_increases(a + 1, b);
        assert(weight(a) <= BASE * weight(a)) by (nonlinear_arith)
            requires
                weight(a) > 0,
        ;
    }
}

/// Two limb sequences of one length that agree from `i + 1` upwards are
/// ordered as their limbs at `i` are.
pub proof fn lemma_value_order(a: Seq<u32>, b: Seq<u32>, i: int)
    requires
        a.len() == b.len(),
        0 <= i < a.len(),
        a[i] < b[i],
        forall|j: int| i < j < a.len() ==> a[j] == b[j],
    ensures
        limbs_value(a) < limbs_value(b),
    decreases a.len(),
{
    let n = (a.len() - 1) as nat;
    if i == n {
        lemma_value_bound(a.drop_last());
        lemma_weight(n);
        assert(a[i] * weight(n) + weight(n) <= b[i] * weight(n)) by (nonlinear_arith)
            requires
                a[i] < b[i],
                weight(n) > 0,
        ;
    } else {
        lemma_value_order(a.drop_last(), b.drop_last(), i);
        assert(a.last() == b.last());
    }
}

/// A natural number of any size.
pub struct Natural {
    pub limbs: Vec<u32>,
}

impl View for Natural {
    type V = nat;

    open spec fn view(&self) -> nat {
        limbs_value(self.limbs@)
    }
}

impl Natural {
    /// Whether the top limb, if there is one, is not zero: each number then
    /// has one representation.
    pub open spec fn wf(&self) -> bool {
        self.limbs@.len() > 0 ==> self.limbs@.last() != 0
    }

    /// The number `n`.
    pub fn from_u32(n: u32) -> (r: Natural)
        ensures
            r.wf(),
            r@ == n,
    {
        let mut limbs: Vec<u32> = Vec::new();
        if n != 0 {
            limbs.push(n);
            proof {
                lemma_weight(0);
                lemma_value_push(Seq::<u32>::empty(), n);
                assert(limbs@ =~= Seq::<u32>::empty().push(n));
            }
        }
        Natural { limbs }
    }

    /// Replaces the number by `self * factor + addend`.
    pub fn scale_add(&mut self, factor: u32, addend: u32)
        requires
            old(self).wf(),
            factor >= 1,
        ensures
            final(self).wf(),
            final(self)@ == old(self)@ * factor + addend,
    {
        let n = self.limbs.len();
        let ghost before = self.limbs@;
        let mut carry: u64 = addend as u64;
        let mut i: usize = 0;
        proof {
            lemma_weight(0);
            lemma_value_push(Seq::<u32>::empty(), 0);
            assert(before.take(0) =~= Seq::<u32>::empty());
        }
        while i < n
            invariant
                i <= n,
                n == before.len(),
                self.limbs@.len() == n,
                carry < BASE,
                factor >= 1,
                forall|j: int| i <= j < n ==> self.limbs@[j] == before[j],
                limbs_value(self.limbs@.take(i as int)) + carry * weight(i as nat) == limbs_value(
                    before.take(i as int),
                ) * factor + addend,
                i > 0 && carry == 0 && before[i - 1] != 0 ==> self.limbs@[i - 1] != 0,
            decreases n - i,
        {
            let limb = self.limbs[i];
            assert(limb as u64 * factor as u64 + carry <= 0xFFFF_FFFF * 0xFFFF_FFFF + 0xFFFF_FFFF)
                by (nonlinear_arith)
                requires
                    limb <= 0xFFFF_FFFF,
                    factor <= 0xFFFF_FFFF,
                    carry <= 0xFFFF_FFFF,
            ;
            let t: u64 = limb as u64 * factor as u64 + carry;
            let low: u32 = (t % BASE) as u32;
            let high: u64 = t / BASE;
            let ghost prev = self.limbs@;
            self.limbs.set(i, low);
            proof {
                let w = weight(i as nat);
                lemma_weight(i as nat);
                lemma_value_take(before, i as int);
                lemma_value_take(self.limbs@, i as int);
                assert(self.limbs@.take(i as int) =~= prev.take(i as int));
                assert(t == low + high * BASE);
                assert(low * w + high * (BASE * w) == (limb * factor + carry) * w)
                    by (nonlinear_arith)
                    requires
                        t == low + high * BASE,
                        t == limb * factor + carry,
                ;
                assert((limbs_value(before.take(i as int)) + limb * w) * factor == limbs_value(
                    before.take(i as int),
                ) * factor + limb * factor * w) by (nonlinear_arith);
                assert((limb * factor + carry) * w == limb * factor * w + carry * w)
                    by (nonlinear_arith);
                if high == 0 && limb != 0 {
                    assert(limb as u64 * factor as u64 >= 1) by (nonlinear_arith)
                        requires
                            limb >= 1,
                            factor >= 1,
                    ;
                }
            }
            carry = high;
            i += 1;
        }
        proof {
            assert(self.limbs@.take(n as int) =~= self.limbs@);
            assert(before.take(n as int) =~= before);
        }
        if carry != 0 {
            proof {
                lemma_value_push(self.limbs@, carry as u32);
                lemma_weight(n as nat);
            }
            self.limbs.push(carry as u32);
        }
    }

    /// Whether `self >= other`.
    pub fn at_least(&self, other: &Natural) -> (r: bool)
        requires
            self.wf(),
            other.wf(),
        ensures
            r == (self@ >= other@),
    {
        let n = self.limbs.len();
        let m = other.limbs.len();
        if n != m {
            proof {
                lemma_value_bound(self.limbs@);
                lemma_value_bound(other.limbs@);
                if n > m {
                    lemma_value_lower(self.limbs@);
                    lemma_weight_increases(m as nat, (n - 1) as nat);
                } else {
                    lemma_value_lower(other.limbs@);
                    lemma_weight_increases(n as nat, (m - 1) as nat);
                }
            }
            return n > m;
        }
        let mut i: usize = n;
        while i > 0
            invariant
                i <= n,
                n == self.limbs@.len(),
                n == other.limbs@.len(),
                forall|j: int| i <= j < n ==> self.limbs@[j] == other.limbs@[j],
            decreases i,
        {
            i -= 1;
            let a = self.limbs[i];
            let b = other.limbs[i];
            if a != b {
                proof {
                    if a < b {
                        lemma_value_order(self.limbs@, other.limbs@, i as int);
                    } else {
                        lemma_value_order(other.limbs@, self.limbs@, i as int);
                    }
                }
                return a > b;
            }
        }
        assert(self.limbs@ =~= other.limbs@);
        true
    }

    /// Replaces the number by `self - other`.
    pub fn subtract(&mut self, other: &Natural)
        requires
            old(self).wf(),
            other.wf(),
            old(self)@ >= other@,
        ensures
            final(self).wf(),
            final(self)@ == old(self)@ - other@,
    {
        let n = self.limbs.len();
        let m = other.limbs.len();
        let ghost before = self.limbs@;
        proof {
            if m > n {
                lemma_value_bound(before);
                lemma_value_lower(other.limbs@);
                lemma_weight_increases(n as nat, (m - 1) as nat);
            }
        }
        let ghost padded = Seq::new(n as nat, |j: int| if j < m { other.limbs@[j] } else { 0u32 });
        let mut borrow: u64 = 0;
        let mut i: usize = 0;
        proof {
            lemma_weight(0);
            lemma_value_push(Seq::<u32>::empty(), 0);
            assert(before.take(0) =~= Seq::<u32>::empty());
            assert(padded.take(0) =~= Seq::<u32>::empty());
        }
        while i < n
            invariant
                i <= n,
                m <= n,
                n == before.len(),
                m == other.limbs@.len(),
                self.limbs@.len() == n,
                padded.len() == n,
                forall|j: int| 0 <= j < n ==> padded[j] == (if j < m { other.limbs@[j] } else { 0u32 }),
                borrow <= 1,
                forall|j: int| i <= j < n ==> self.limbs@[j] == before[j],
                limbs_value(self.limbs@.take(i as int)) + limbs_value(padded.take(i as int))
                    == limbs_value(before.take(i as int)) + borrow * weight(i as nat),
            decreases n - i,
        {
            let a: u64 = self.limbs[i] as u64;
            let b: u64 = if i < m { other.limbs[i] as u64 } else { 0 };
            let need: u64 = b + borrow;
            let low: u32;
            let next: u64;
            if a >= need {
                low = (a - need) as u32;
                next = 0;
            } else {
                low = (a + BASE - need) as u32;
                next = 1;
            }
            let ghost prev = self.limbs@;
            self.limbs.set(i, low);
            proof {
                let w = weight(i as nat);
                lemma_weight(i as nat);
                lemma_value_take(before, i as int);
                lemma_value_take(padded, i as int);
                lemma_value_take(self.limbs@, i as int);
                assert(self.limbs@.take(i as int) =~= prev.take(i as int));
                assert(padded[i as int] == b);
                assert(low + b + borrow == a + next * BASE);
                assert(low * w + b * w + borrow * w == a * w + next * (BASE * w))
                    by (nonlinear_arith)
                    requires
                        low + b + borrow == a + next * BASE,
                ;
            }
            borrow = next;
            i += 1;
        }
        proof {
            assert(self.limbs@.take(n as int) =~= self.limbs@);
            assert(before.take(n as int) =~= before);
            assert(padded.take(n as int) =~= padded);
            lemma_value_padded(other.limbs@, padded);
            lemma_value_bound(self.limbs@);
            lemma_weight(n as nat);
            assert(borrow * weight(n as nat) == if borrow == 0 { 0 } else { weight(n as nat) })
                by (nonlinear_arith)
                requires
                    borrow <= 1,
            ;
        }
        self.trim();
    }

    /// Takes zero limbs off the top.
    fn trim(&mut self)
        ensures
            final(self).wf(),
            final(self)@ == old(self)@,
    {
        let mut n = self.limbs.len();
        while n > 0 && self.limbs[n - 1] == 0
            invariant
                n == self.limbs@.len(),
                limbs_value(self.limbs@) == limbs_value(old(self).limbs@),
            decreases n,
        {
            let ghost prev = self.limbs@;
            assert(prev.last() == 0);
            self.limbs.pop();
            n -= 1;
            proof {
                assert(self.limbs@ =~= prev.drop_last());
                lemma_value_push(self.limbs@, 0);
                assert(prev =~= self.limbs@.push(0));
            }
        }
    }
}

/// Zero limbs on top leave the number as it is.
pub proof fn lemma_value_padded(limbs: Seq<u32>, padded: Seq<u32>)
    requires
        limbs.len() <= padded.len(),
        forall|j: int| 0 <= j < padded.len() ==> padded[j] == (if j < limbs.len() { limbs[j] } else { 0u32 }),
    ensures
        limbs_value(padded) == limbs_value(limbs),
    decreases padded.len(),
{
    if limbs.len() == padded.len() {
        assert(limbs =~= padded);
    } else {
        let shorter = padded.drop_last();
        lemma_value_padded(limbs, shorter);
    }
}

} // verus!
