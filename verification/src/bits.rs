//! Sets of indices held as `bitvec` bit-vectors, for the data-flow analyses.
use vstd::prelude::*;
use bitvec::vec::BitVec;

verus! {

/// A bit-vector of the `bitvec` crate (default storage and order).
#[verifier::external_body]
pub struct Bits {
    inner: BitVec,
}

/// The bits a bit-vector holds, in order.
pub uninterp spec fn bits_of(b: Bits) -> Seq<bool>;

/// Pointwise or of two bit sequences of one length.
pub open spec fn seq_or(a: Seq<bool>, b: Seq<bool>) -> Seq<bool> {
    Seq::new(a.len(), |i: int| a[i] || b[i])
}

/// Pointwise and of two bit sequences of one length.
pub open spec fn seq_and(a: Seq<bool>, b: Seq<bool>) -> Seq<bool> {
    Seq::new(a.len(), |i: int| a[i] && b[i])
}

/// Pointwise negation of a bit sequence.
pub open spec fn seq_not(a: Seq<bool>) -> Seq<bool> {
    Seq::new(a.len(), |i: int| !a[i])
}

impl Bits {
    /// `BitVec::repeat(bit, len)`: `len` copies of `bit`.
    #[verifier::external_body]
    pub(crate) fn repeat(bit: bool, len: usize) -> (r: Bits)
        ensures
            bits_of(r) == Seq::new(len as nat, |i: int| bit),
    {
        Bits { inner: BitVec::repeat(bit, len) }
    }

    /// `BitVec::len`: the number of bits.
    #[verifier::external_body]
    pub(crate) fn len(&self) -> (r: usize)
        ensures
            r == bits_of(*self).len(),
    {
        self.inner.len()
    }

    /// Indexing a `BitVec` by position: the bit there. It panics past the end.
    #[verifier::external_body]
    pub(crate) fn get(&self, i: usize) -> (r: bool)
        requires
            i < bits_of(*self).len(),
        ensures
            r == bits_of(*self)[i as int],
    {
        self.inner[i]
    }

    /// `BitSlice::set`: writes one bit. It panics past the end.
    #[verifier::external_body]
    pub(crate) fn set(&mut self, i: usize, value: bool)
        requires
            i < bits_of(*old(self)).len(),
        ensures
            bits_of(*final(self)) == bits_of(*old(self)).update(i as int, value),
    {
        self.inner.set(i, value)
    }

    /// `BitVec |= &BitVec`: or-s the other vector's bits into this one, position by
    /// position.
    #[verifier::external_body]
    pub(crate) fn or_assign(&mut self, other: &Bits)
        requires
            bits_of(*old(self)).len() == bits_of(*other).len(),
        ensures
            bits_of(*final(self)) == seq_or(bits_of(*old(self)), bits_of(*other)),
    {
        self.inner |= &other.inner;
    }

    /// `BitVec & &BitVec` on a copy: the bits set in both, position by position.
    #[verifier::external_body]
    pub(crate) fn and(&self, other: &Bits) -> (r: Bits)
        requires
            bits_of(*self).len() == bits_of(*other).len(),
        ensures
            bits_of(r) == seq_and(bits_of(*self), bits_of(*other)),
    {
        Bits { inner: self.inner.clone() & &other.inner }
    }

    /// `!BitVec` on a copy: every bit flipped.
    #[verifier::external_body]
    pub(crate) fn not(&self) -> (r: Bits)
        ensures
            bits_of(r) == seq_not(bits_of(*self)),
    {
        Bits { inner: !self.inner.clone() }
    }

    /// `BitVec == BitVec`: the same length and the same bits.
    #[verifier::external_body]
    pub(crate) fn equals(&self, other: &Bits) -> (r: bool)
        ensures
            r == (bits_of(*self) == bits_of(*other)),
    {
        self.inner == other.inner
    }

    /// `BitVec::clone`: a copy with the same bits.
    #[verifier::external_body]
    pub(crate) fn copy(&self) -> (r: Bits)
        ensures
            bits_of(r) == bits_of(*self),
    {
        Bits { inner: self.inner.clone() }
    }
}

impl Bits {
    /// The bits, in order.
    pub fn to_vec(&self) -> (r: Vec<bool>)
        ensures
            r@ == bits_of(*self),
    {
        let n = self.len();
        let mut v: Vec<bool> = Vec::new();
        let mut i: usize = 0;
        while i < n
            invariant
                n == bits_of(*self).len(),
                0 <= i <= n,
                v@ == bits_of(*self).take(i as int),
            decreases n - i,
        {
            v.push(self.get(i));
            proof {
                assert(bits_of(*self).take(i + 1) =~= bits_of(*self).take(i as int).push(bits_of(*self)[i as int]));
            }
            i = i + 1;
        }
        proof {
            assert(bits_of(*self).take(n as int) =~= bits_of(*self));
        }
        v
    }
}

/// A bit-vector holding the bits of `v`.
pub fn bits_from_vec(len: usize, v: &Vec<bool>) -> (r: Bits)
    requires
        v@.len() == len,
    ensures
        bits_of(r) == v@,
{
    let mut b = Bits::repeat(false, len);
    let mut i: usize = 0;
    while i < len
        invariant
            v@.len() == len,
            0 <= i <= len,
            bits_of(b).len() == len,
            forall|j: int| 0 <= j < i ==> bits_of(b)[j] == v@[j],
            forall|j: int| i <= j < len ==> !bits_of(b)[j],
        decreases len - i,
    {
        b.set(i, v[i]);
        i = i + 1;
    }
    proof {
        assert(bits_of(b) =~= v@);
    }
    b
}

} // verus!
