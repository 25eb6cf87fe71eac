use vstd::prelude::*;

verus! {

/// Whether a token is borrowed shared (`Not`) or exclusively (`Mut`).
/// `Not` is ordered before `Mut`.
#[derive(Debug, Clone, Copy, PartialEq, Eq, Structural)]
pub enum Mutability {
    Not,
    Mut,
}

/// The least upper bound of two mutabilities.
pub open spec fn mutability_max(a: Mutability, b: Mutability) -> Mutability {
    if a == Mutability::Mut || b == Mutability::Mut {
        Mutability::Mut
    } else {
        Mutability::Not
    }
}

/// Two borrows can coexist exactly when neither of them is mutable.
pub open spec fn spec_compatible(a: Mutability, b: Mutability) -> bool {
    a == Mutability::Not && b == Mutability::Not
}

impl Mutability {
    /// Whether the borrow is exclusive.
    pub fn is_mut(&self) -> (r: bool)
        ensures
            r == (*self == Mutability::Mut),
    {
        match self {
            Mutability::Mut => true,
            Mutability::Not => false,
        }
    }

    /// Whether the borrow is shared.
    pub fn is_not(&self) -> (r: bool)
        ensures
            r == (*self == Mutability::Not),
    {
        match self {
            Mutability::Mut => false,
            Mutability::Not => true,
        }
    }

    /// Raises `self` to the maximum of `self` and `other`.
    pub fn upgrade(&mut self, other: Mutability)
        ensures
            *final(self) == mutability_max(*old(self), other),
    {
        if other.is_mut() {
            *self = Mutability::Mut;
        }
    }

    /// Whether a borrow of mutability `self` can be alive at the same time as one of
    /// mutability `other`.
    pub fn is_compatible_with(&self, other: Mutability) -> (r: bool)
        ensures
            r == spec_compatible(*self, other),
    {
        self.is_not() && other.is_not()
    }
}

/// `upgrade` is idempotent, commutative and associative: repeated upgrades give the
/// maximum of everything seen, in any order.
pub proof fn lemma_mutability_max_laws(a: Mutability, b: Mutability, c: Mutability)
    ensures
        mutability_max(a, a) == a,
        mutability_max(a, b) == mutability_max(b, a),
        mutability_max(mutability_max(a, b), c) == mutability_max(a, mutability_max(b, c)),
        mutability_max(a, Mutability::Not) == a,
        mutability_max(a, Mutability::Mut) == Mutability::Mut,
{
}

} // verus!
