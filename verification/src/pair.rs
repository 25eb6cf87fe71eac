use vstd::prelude::*;

verus! {

/// Two values in an order that may have been swapped; `reversed` records whether the
/// current order is the swapped one.
#[derive(Debug, Clone, Copy, Default)]
pub struct Pair<T> {
    pub reversed: bool,
    pub left: T,
    pub right: T,
}

/// The pair with its sides swapped.
pub open spec fn pair_rev<T>(p: Pair<T>) -> Pair<T> {
    Pair { reversed: !p.reversed, left: p.right, right: p.left }
}

/// The pair in its original order.
pub open spec fn pair_nat<T>(p: Pair<T>) -> Pair<T> {
    if p.reversed { pair_rev(p) } else { p }
}

impl<T> Pair<T> {
    /// A pair in its original order.
    pub fn new(left: T, right: T) -> (r: Pair<T>)
        ensures
            r == (Pair { reversed: false, left, right }),
    {
        Pair { reversed: false, left, right }
    }

    /// Swaps the sides.
    pub fn rev(self) -> (r: Pair<T>)
        ensures
            r == pair_rev(self),
    {
        Pair { reversed: !self.reversed, left: self.right, right: self.left }
    }

    /// Swaps the sides when `rev` holds.
    pub fn maybe_rev(self, rev: bool) -> (r: Pair<T>)
        ensures
            r == if rev { pair_rev(self) } else { self },
    {
        if rev {
            self.rev()
        } else {
            self
        }
    }

    /// Puts the sides back in their original order.
    pub fn natural(self) -> (r: Pair<T>)
        ensures
            r == pair_nat(self),
    {
        let rev = self.reversed;
        self.maybe_rev(rev)
    }

    /// A pair of other values in the same order.
    pub fn map<V>(&self, left: V, right: V) -> (r: Pair<V>)
        ensures
            r == (Pair { reversed: self.reversed, left, right }),
    {
        Pair { reversed: self.reversed, left, right }
    }

    /// The pair by reference.
    pub fn as_ref(&self) -> (r: Pair<&T>)
        ensures
            r.reversed == self.reversed,
            *r.left == self.left,
            *r.right == self.right,
    {
        Pair { reversed: self.reversed, left: &self.left, right: &self.right }
    }

    /// The pair in both orders: as it is, then swapped.
    pub fn orders(&self) -> (r: [Pair<&T>; 2])
        ensures
            r[0].reversed == self.reversed,
            *r[0].left == self.left,
            *r[0].right == self.right,
            r[1].reversed == !self.reversed,
            *r[1].left == self.right,
            *r[1].right == self.left,
    {
        [self.as_ref(), self.as_ref().rev()]
    }
}

/// Swapping twice gives back the pair; putting a pair in its original order forgets
/// every swap made since, and leaves it unswapped.
pub proof fn lemma_pair_laws<T>(p: Pair<T>, b: bool)
    ensures
        pair_rev(pair_rev(p)) == p,
        pair_nat(pair_rev(p)) == pair_nat(p),
        pair_nat(if b { pair_rev(p) } else { p }) == pair_nat(p),
        !pair_nat(p).reversed,
        pair_nat(pair_nat(p)) == pair_nat(p),
{
}

} // verus!
