//! Scalars that remember which integer they stand for.
//!
//! A long computation in the scalar field reduces after every step. To
//! reason about it as one integer expression, each intermediate scalar is
//! paired with the unreduced integer it represents; the operations here keep
//! the pair in step, so that at the end the scalar is known to be the
//! reduction of the whole expression.

use vstd::prelude::*;
use crate::field::{lemma_reduce_add, lemma_reduce_mul, lemma_reduce_sub, reduce, Scalar};

verus! {

/// A scalar together with an integer that it is the representative of.
pub(crate) struct Residue {
    pub(crate) scalar: Scalar,
    pub(crate) integer: Ghost<int>,
}

impl Residue {
    /// The scalar is the representative of the integer.
    pub(crate) open spec fn wf(&self) -> bool {
        self.scalar@ == reduce(self.integer@)
    }

    /// The integer that the scalar stands for.
    pub(crate) open spec fn meaning(&self) -> int {
        self.integer@
    }

    /// A scalar, standing for its own integer.
    pub(crate) fn of(s: &Scalar) -> (r: Residue)
        ensures
            r.wf(),
            r.meaning() == s@,
            r.scalar == *s,
    {
        s.bounded();
        Residue { scalar: *s, integer: Ghost(s@) }
    }

    /// The scalar of a machine integer.
    pub(crate) fn of_u64(x: u64) -> (r: Residue)
        ensures
            r.wf(),
            r.meaning() == x,
    {
        Residue::of(&Scalar::from_u64(x))
    }

    /// The sum, standing for the sum of the integers.
    pub(crate) fn add(&self, other: &Residue) -> (r: Residue)
        requires
            self.wf(),
            other.wf(),
        ensures
            r.wf(),
            r.meaning() == self.meaning() + other.meaning(),
    {
        proof {
            lemma_reduce_add(self.meaning(), other.meaning());
        }
        Residue { scalar: self.scalar.add(&other.scalar), integer: Ghost(self.meaning() + other.meaning()) }
    }

    /// The difference, standing for the difference of the integers.
    pub(crate) fn sub(&self, other: &Residue) -> (r: Residue)
        requires
            self.wf(),
            other.wf(),
        ensures
            r.wf(),
            r.meaning() == self.meaning() - other.meaning(),
    {
        proof {
            lemma_reduce_sub(self.meaning(), other.meaning());
        }
        Residue { scalar: self.scalar.sub(&other.scalar), integer: Ghost(self.meaning() - other.meaning()) }
    }

    /// The product, standing for the product of the integers.
    pub(crate) fn mul(&self, other: &Residue) -> (r: Residue)
        requires
            self.wf(),
            other.wf(),
        ensures
            r.wf(),
            r.meaning() == self.meaning() * other.meaning(),
    {
        proof {
            lemma_reduce_mul(self.meaning(), other.meaning());
        }
        Residue { scalar: self.scalar.mul(&other.scalar), integer: Ghost(self.meaning() * other.meaning()) }
    }

    /// The additive inverse, standing for the negated integer.
    pub(crate) fn neg(&self) -> (r: Residue)
        requires
            self.wf(),
        ensures
            r.wf(),
            r.meaning() == -self.meaning(),
    {
        proof {
            lemma_reduce_sub(0, self.meaning());
            lemma_reduce_sub(0, self.scalar@);
        }
        Residue { scalar: self.scalar.neg(), integer: Ghost(-self.meaning()) }
    }
}

} // verus!
