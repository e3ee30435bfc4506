//! The lattices of facts that the data-flow analyses compute over.
use vstd::prelude::*;
use crate::bits::{Bits, bits_of, seq_and, seq_or};
use crate::cp::{Constness, spec_meet, spec_join};

verus! {

/// Combining another fact into this one in place, by the lattice's join.
pub trait LatticeJoinAssign: Sized {
    /// The two facts have the same shape, so that they can be combined.
    spec fn fits(&self, other: &Self) -> bool;

    /// Replaces this fact by its join with `other`.
    fn join_assign(&mut self, other: &Self)
        requires
            old(self).fits(other),
    ;
}

/// The facts of a data-flow analysis: a starting fact of a given width, and the two
/// ways of combining facts.
pub trait Lattice: LatticeJoinAssign {
    /// The starting fact for `len` entries.
    fn init(len: usize) -> Self;

    /// The meet of two facts.
    fn meet(&self, other: &Self) -> Self
        requires
            self.fits(other),
    ;

    /// The join of two facts.
    fn join(&self, other: &Self) -> Self
        requires
            self.fits(other),
    ;
}

/// A lattice of small facts that are copied; joining in place is a join and a store.
pub trait LatticeJoinAssignCopy: Copy {
}

impl<L: Lattice + LatticeJoinAssignCopy> LatticeJoinAssign for L {
    /// Any two such facts can be combined.
    open spec fn fits(&self, other: &Self) -> bool {
        true
    }

    fn join_assign(&mut self, other: &Self) {
        *self = self.join(other);
    }
}

impl Lattice for Constness {
    /// Nothing is known yet.
    fn init(len: usize) -> (r: Constness)
        ensures
            r == Constness::Undefined,
    {
        Constness::Undefined
    }

    fn meet(&self, other: &Constness) -> (r: Constness)
        ensures
            r == spec_meet(*self, *other),
    {
        match (*self, *other) {
            (Constness::Undefined, c) => c,
            (c, Constness::Undefined) => c,
            (Constness::Constant(v), Constness::Constant(w)) => if v == w { Constness::Constant(v) } else { Constness::Variable },
            _ => Constness::Variable,
        }
    }

    fn join(&self, other: &Constness) -> (r: Constness)
        ensures
            r == spec_join(*self, *other),
    {
        match (*self, *other) {
            (Constness::Variable, c) => c,
            (c, Constness::Variable) => c,
            (Constness::Constant(v), Constness::Constant(w)) => if v == w { Constness::Constant(v) } else { Constness::Undefined },
            _ => Constness::Undefined,
        }
    }
}

impl LatticeJoinAssignCopy for Constness {
}

impl LatticeJoinAssign for Bits {
    /// Bit-vectors of one length.
    open spec fn fits(&self, other: &Self) -> bool {
        bits_of(*self).len() == bits_of(*other).len()
    }

    fn join_assign(&mut self, other: &Bits)
        ensures
            bits_of(*final(self)) == seq_or(bits_of(*old(self)), bits_of(*other)),
    {
        self.or_assign(other);
    }
}

impl Lattice for Bits {
    /// No bit set.
    fn init(len: usize) -> (r: Bits)
        ensures
            bits_of(r) == Seq::new(len as nat, |i: int| false),
    {
        Bits::repeat(false, len)
    }

    /// The bits set in both.
    fn meet(&self, other: &Bits) -> (r: Bits)
        ensures
            bits_of(r) == seq_and(bits_of(*self), bits_of(*other)),
    {
        self.and(other)
    }

    /// The bits set in either.
    fn join(&self, other: &Bits) -> (r: Bits)
        ensures
            bits_of(r) == seq_or(bits_of(*self), bits_of(*other)),
    {
        let mut r = self.copy();
        r.or_assign(other);
        r
    }
}

impl<L: Lattice> LatticeJoinAssign for Vec<L> {
    /// Lists of one length whose facts fit position by position.
    open spec fn fits(&self, other: &Self) -> bool {
        &&& self@.len() == other@.len()
        &&& forall|i: int| 0 <= i < self@.len() ==> (#[trigger] self@[i]).fits(&other@[i])
    }

    fn join_assign(&mut self, other: &Vec<L>)
        ensures
            final(self)@.len() == old(self)@.len(),
    {
        let joined = self.join(other);
        *self = joined;
    }
}

impl<L: Lattice> Lattice for Vec<L> {
    /// `len` starting facts of width one.
    fn init(len: usize) -> (r: Vec<L>)
        ensures
            r@.len() == len,
    {
        let mut r: Vec<L> = Vec::new();
        let mut i: usize = 0;
        while i < len
            invariant
                i <= len,
                r@.len() == i,
            decreases len - i,
        {
            r.push(L::init(1));
            i = i + 1;
        }
        r
    }

    /// The meets of the facts, position by position.
    fn meet(&self, other: &Vec<L>) -> (r: Vec<L>)
        ensures
            r@.len() == self@.len(),
    {
        let mut r: Vec<L> = Vec::new();
        let mut i: usize = 0;
        while i < self.len()
            invariant
                self.fits(other),
                i <= self@.len(),
                r@.len() == i,
            decreases self@.len() - i,
        {
            assert(self@[i as int].fits(&other@[i as int]));
            r.push(self[i].meet(&other[i]));
            i = i + 1;
        }
        r
    }

    /// The joins of the facts, position by position.
    fn join(&self, other: &Vec<L>) -> (r: Vec<L>)
        ensures
            r@.len() == self@.len(),
    {
        let mut r: Vec<L> = Vec::new();
        let mut i: usize = 0;
        while i < self.len()
            invariant
                self.fits(other),
                i <= self@.len(),
                r@.len() == i,
            decreases self@.len() - i,
        {
            assert(self@[i as int].fits(&other@[i as int]));
            r.push(self[i].join(&other[i]));
            i = i + 1;
        }
        r
    }
}

} // verus!
