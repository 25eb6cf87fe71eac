use vstd::prelude::*;
use crate::mutability::{Mutability, mutability_max};
use crate::vec_map::{VecMap, seq_map, lemma_take_push, lemma_seq_map_empty};

verus! {

/// How a token is borrowed, and the lifetime name it is tied to, if any.
pub type BorrowValue = (Mutability, Option<u64>);

/// A finite map from tokens to their borrow information.
pub type BorrowMap = VecMap<BorrowValue>;

/// A shared borrow of a single token.
#[derive(Debug, Clone, Copy, PartialEq, Eq, Structural)]
pub struct Ref {
    pub token: u64,
}

/// An exclusive borrow of a single token.
#[derive(Debug, Clone, Copy, PartialEq, Eq, Structural)]
pub struct Mut {
    pub token: u64,
}

/// Every token of `set`, borrowed shared.
pub struct DowngradeRef {
    pub set: Box<TokenSet>,
}

/// The tokens of `base` without those of `removed`: a token that `removed` borrows
/// mutably disappears, one that it borrows shared becomes shared.
pub struct Diff {
    pub base: Box<TokenSet>,
    pub removed: Box<TokenSet>,
}

/// A set of token borrows, as written in a `tie!` or an `absorb`.
/// `Empty` is the unit set and `Union` the tuple of two sets.
pub enum TokenSet {
    Empty,
    Ref(Ref),
    Mut(Mut),
    DowngradeRef(DowngradeRef),
    Diff(Diff),
    Union(Box<TokenSet>, Box<TokenSet>),
}

/// The union of two borrow sets: a token borrowed by either, with the larger mutability.
pub open spec fn set_join(a: Map<u64, BorrowValue>, b: Map<u64, BorrowValue>) -> Map<u64, BorrowValue> {
    Map::new(
        |k: u64| a.contains_key(k) || b.contains_key(k),
        |k: u64|
            if a.contains_key(k) && b.contains_key(k) {
                (mutability_max(a[k].0, b[k].0), None)
            } else if a.contains_key(k) {
                (a[k].0, None)
            } else {
                (b[k].0, None)
            },
    )
}

/// Every token of `a`, borrowed shared.
pub open spec fn set_downgrade(a: Map<u64, BorrowValue>) -> Map<u64, BorrowValue> {
    Map::new(|k: u64| a.contains_key(k), |k: u64| (Mutability::Not, None))
}

/// `a` without `b`: tokens that `b` borrows mutably go, tokens it borrows shared become shared.
pub open spec fn set_diff(a: Map<u64, BorrowValue>, b: Map<u64, BorrowValue>) -> Map<u64, BorrowValue> {
    Map::new(
        |k: u64| a.contains_key(k) && !(b.contains_key(k) && b[k].0 == Mutability::Mut),
        |k: u64| if b.contains_key(k) { (Mutability::Not, None) } else { (a[k].0, None) },
    )
}

/// The borrows a token set denotes, each untied to any lifetime.
pub open spec fn token_set_view(ts: TokenSet) -> Map<u64, BorrowValue>
    decreases ts,
{
    match ts {
        TokenSet::Empty => Map::empty(),
        TokenSet::Ref(r) => Map::empty().insert(r.token, (Mutability::Not, None)),
        TokenSet::Mut(m) => Map::empty().insert(m.token, (Mutability::Mut, None)),
        TokenSet::DowngradeRef(d) => set_downgrade(token_set_view(*d.set)),
        TokenSet::Diff(d) => set_diff(token_set_view(*d.base), token_set_view(*d.removed)),
        TokenSet::Union(a, b) => set_join(token_set_view(*a), token_set_view(*b)),
    }
}

/// Every value of the map is untied.
pub open spec fn all_untied(m: Map<u64, BorrowValue>) -> bool {
    forall|k: u64| #[trigger] m.contains_key(k) ==> m[k].1 == None::<u64>
}

/// The borrows that absorbing `set` leaves of `borrows`: a token of `set` disappears when
/// `set` borrows it mutably or when it was only borrowed shared.
pub open spec fn absorbed(borrows: Map<u64, BorrowValue>, set: Map<u64, BorrowValue>) -> Map<u64, BorrowValue> {
    Map::new(
        |k: u64|
            borrows.contains_key(k) && !(set.contains_key(k) && (set[k].0 == Mutability::Mut
                || borrows[k].0 == Mutability::Not)),
        |k: u64| borrows[k],
    )
}

/// Adds every borrow of `src` to `target`, keeping the larger mutability.
fn join_into(target: &mut BorrowMap, src: &BorrowMap)
    requires
        old(target).wf(),
        src.wf(),
        all_untied(old(target)@),
        all_untied(src@),
    ensures
        final(target).wf(),
        final(target)@ == set_join(old(target)@, src@),
        all_untied(final(target)@),
{
    let n = src.entries.len();
    let ghost s = src.entries@;
    let ghost a = target@;
    assert(s.take(0) =~= Seq::<(u64, BorrowValue)>::empty());
    assert(set_join(a, seq_map(s.take(0))) =~= a) by {
        assert(seq_map(s.take(0)) =~= Map::<u64, BorrowValue>::empty());
    }
    for i in 0..n
        invariant
            n == s.len(),
            s == src.entries@,
            src.wf(),
            target.wf(),
            all_untied(a),
            all_untied(src@),
            target@ == set_join(a, seq_map(s.take(i as int))),
    {
        proof {
            lemma_take_push(s, i as int);
        }
        let e = src.entry_at(i);
        let ghost before = target@;
        match target.get(e.0) {
            Some((m, _)) => {
                if e.1.0.is_mut() {
                    target.insert(e.0, (Mutability::Mut, None));
                } else {
                    target.insert(e.0, (m, None));
                }
            },
            None => {
                target.insert(e.0, (e.1.0, None));
            },
        }
        proof {
            assert(e.1.1 == None::<u64>);
            assert(target@ =~= set_join(a, seq_map(s.take(i + 1))));
        }
    }
    proof {
        assert(s.take(n as int) =~= s);
        assert(target@ =~= set_join(a, src@));
    }
}

/// The set with every borrow of `src` made shared.
fn downgraded(src: &BorrowMap) -> (r: BorrowMap)
    requires
        src.wf(),
    ensures
        r.wf(),
        r@ == set_downgrade(src@),
        all_untied(r@),
{
    let n = src.entries.len();
    let ghost s = src.entries@;
    let mut r = BorrowMap::new();
    assert(seq_map(s.take(0)) =~= Map::<u64, BorrowValue>::empty());
    assert(r@ =~= set_downgrade(seq_map(s.take(0))));
    for i in 0..n
        invariant
            n == s.len(),
            s == src.entries@,
            src.wf(),
            r.wf(),
            r@ == set_downgrade(seq_map(s.take(i as int))),
    {
        proof {
            lemma_take_push(s, i as int);
        }
        let e = src.entry_at(i);
        r.insert(e.0, (Mutability::Not, None));
        assert(r@ =~= set_downgrade(seq_map(s.take(i + 1))));
    }
    assert(s.take(n as int) =~= s);
    r
}

/// `base` without the borrows of `removed`.
fn subtracted(base: BorrowMap, removed: &BorrowMap) -> (r: BorrowMap)
    requires
        base.wf(),
        removed.wf(),
        all_untied(base@),
    ensures
        r.wf(),
        r@ == set_diff(base@, removed@),
        all_untied(r@),
{
    let n = removed.entries.len();
    let ghost s = removed.entries@;
    let ghost a = base@;
    let mut r = base;
    assert(seq_map(s.take(0)) =~= Map::<u64, BorrowValue>::empty());
    assert(r@ =~= set_diff(a, seq_map(s.take(0))));
    for i in 0..n
        invariant
            n == s.len(),
            s == removed.entries@,
            removed.wf(),
            r.wf(),
            all_untied(a),
            r@ == set_diff(a, seq_map(s.take(i as int))),
    {
        proof {
            lemma_take_push(s, i as int);
        }
        let e = removed.entry_at(i);
        if r.contains(e.0) {
            if e.1.0.is_mut() {
                r.remove(e.0);
            } else {
                r.insert(e.0, (Mutability::Not, None));
            }
        }
        assert(r@ =~= set_diff(a, seq_map(s.take(i + 1))));
    }
    assert(s.take(n as int) =~= s);
    r
}

/// The borrows denoted by a token set.
pub fn instantiate_set(ts: &TokenSet) -> (r: BorrowMap)
    ensures
        r.wf(),
        r@ == token_set_view(*ts),
        all_untied(r@),
    decreases ts,
{
    match ts {
        TokenSet::Empty => BorrowMap::new(),
        TokenSet::Ref(x) => {
            let mut r = BorrowMap::new();
            r.insert(x.token, (Mutability::Not, None));
            r
        },
        TokenSet::Mut(x) => {
            let mut r = BorrowMap::new();
            r.insert(x.token, (Mutability::Mut, None));
            r
        },
        TokenSet::DowngradeRef(d) => {
            let inner = instantiate_set(&d.set);
            downgraded(&inner)
        },
        TokenSet::Diff(d) => {
            let base = instantiate_set(&d.base);
            let removed = instantiate_set(&d.removed);
            subtracted(base, &removed)
        },
        TokenSet::Union(a, b) => {
            let mut r = instantiate_set(a);
            let rb = instantiate_set(b);
            join_into(&mut r, &rb);
            r
        },
    }
}

/// Applies the absorption rule of `set` to `borrows`.
pub fn absorb_set(borrows: &mut BorrowMap, set: &BorrowMap)
    requires
        old(borrows).wf(),
        set.wf(),
    ensures
        final(borrows).wf(),
        final(borrows)@ == absorbed(old(borrows)@, set@),
{
    let n = set.entries.len();
    let ghost s = set.entries@;
    let ghost a = borrows@;
    assert(seq_map(s.take(0)) =~= Map::<u64, BorrowValue>::empty());
    assert(borrows@ =~= absorbed(a, seq_map(s.take(0))));
    for i in 0..n
        invariant
            n == s.len(),
            s == set.entries@,
            set.wf(),
            borrows.wf(),
            borrows@ == absorbed(a, seq_map(s.take(i as int))),
    {
        proof {
            lemma_take_push(s, i as int);
        }
        let e = set.entry_at(i);
        match borrows.get(e.0) {
            Some((m, _)) => {
                if e.1.0.is_mut() || m.is_not() {
                    borrows.remove(e.0);
                }
            },
            None => {},
        }
        assert(borrows@ =~= absorbed(a, seq_map(s.take(i + 1))));
    }
    assert(s.take(n as int) =~= s);
}

/// A borrow of the token set `set`, as the userland `Borrows<T>` object stands for it.
pub struct Borrows {
    pub set: TokenSet,
}

impl Borrows {
    /// The borrows that acquiring a shared reference to this object declares:
    /// every token of the set, shared.
    pub fn acquire_ref(&self) -> (r: BorrowMap)
        ensures
            r.wf(),
            r@ == set_downgrade(token_set_view(self.set)),
    {
        let inner = instantiate_set(&self.set);
        downgraded(&inner)
    }

    /// The borrows that acquiring a mutable reference to this object declares:
    /// the whole set.
    pub fn acquire_mut(&self) -> (r: BorrowMap)
        ensures
            r.wf(),
            r@ == token_set_view(self.set),
    {
        instantiate_set(&self.set)
    }

    /// What a closure run under `absorb` still borrows, given what it borrows.
    pub fn absorb(&self, borrows: &mut BorrowMap)
        requires
            old(borrows).wf(),
        ensures
            final(borrows).wf(),
            final(borrows)@ == absorbed(old(borrows)@, token_set_view(self.set)),
    {
        let set = instantiate_set(&self.set);
        absorb_set(borrows, &set);
    }

    /// What a closure run under `absorb_ref` still borrows: only the shared
    /// borrows of the set are absorbed.
    pub fn absorb_ref(&self, borrows: &mut BorrowMap)
        requires
            old(borrows).wf(),
        ensures
            final(borrows).wf(),
            final(borrows)@ == absorbed(old(borrows)@, set_downgrade(token_set_view(self.set))),
    {
        let inner = instantiate_set(&self.set);
        let set = downgraded(&inner);
        absorb_set(borrows, &set);
    }
}

/// The union of token sets does not depend on the order or grouping of its members, and
/// a set joined with itself is itself.
pub proof fn lemma_join_laws(a: Map<u64, BorrowValue>, b: Map<u64, BorrowValue>, c: Map<u64, BorrowValue>)
    ensures
        set_join(a, b) == set_join(b, a),
        set_join(set_join(a, b), c) == set_join(a, set_join(b, c)),
        all_untied(a) ==> set_join(a, a) == a,
        all_untied(a) ==> set_join(a, Map::empty()) == a,
{
    assert(set_join(a, b) =~= set_join(b, a));
    assert(set_join(set_join(a, b), c) =~= set_join(a, set_join(b, c)));
    if all_untied(a) {
        assert(set_join(a, a) =~= a);
        assert(set_join(a, Map::empty()) =~= a);
    }
}

/// Downgrading makes every borrow shared, keeps the same tokens, is idempotent and
/// distributes over unions.
pub proof fn lemma_downgrade_laws(a: Map<u64, BorrowValue>, b: Map<u64, BorrowValue>)
    ensures
        set_downgrade(a).dom() == a.dom(),
        forall|k: u64| #[trigger] set_downgrade(a).contains_key(k) ==> set_downgrade(a)[k].0 == Mutability::Not,
        set_downgrade(set_downgrade(a)) == set_downgrade(a),
        set_downgrade(set_join(a, b)) == set_join(set_downgrade(a), set_downgrade(b)),
{
    assert(set_downgrade(a).dom() =~= a.dom());
    assert(set_downgrade(set_downgrade(a)) =~= set_downgrade(a));
    assert(set_downgrade(set_join(a, b)) =~= set_join(set_downgrade(a), set_downgrade(b)));
}

/// Removing nothing changes nothing; removing a set from itself leaves exactly its
/// shared borrows; what a difference keeps it keeps shared or as it was.
pub proof fn lemma_diff_laws(a: Map<u64, BorrowValue>, b: Map<u64, BorrowValue>)
    ensures
        all_untied(a) ==> set_diff(a, Map::empty()) == a,
        set_diff(a, a) == set_downgrade(Map::new(
            |k: u64| a.contains_key(k) && a[k].0 == Mutability::Not,
            |k: u64| a[k],
        )),
        forall|k: u64| #[trigger] set_diff(a, b).contains_key(k) ==> a.contains_key(k)
            && (b.contains_key(k) ==> b[k].0 == Mutability::Not),
{
    if all_untied(a) {
        assert(set_diff(a, Map::empty()) =~= a);
    }
    assert(set_diff(a, a) =~= set_downgrade(Map::new(
        |k: u64| a.contains_key(k) && a[k].0 == Mutability::Not,
        |k: u64| a[k],
    )));
}

/// Absorbing is idempotent; absorbing nothing changes nothing; a token absorbed
/// mutably is gone, and nothing is added.
pub proof fn lemma_absorb_laws(b: Map<u64, BorrowValue>, s: Map<u64, BorrowValue>)
    ensures
        absorbed(absorbed(b, s), s) == absorbed(b, s),
        absorbed(b, Map::empty()) == b,
        forall|k: u64| #[trigger] s.contains_key(k) && s[k].0 == Mutability::Mut ==> !absorbed(b, s).contains_key(k),
        forall|k: u64| #[trigger] absorbed(b, s).contains_key(k) ==> b.contains_key(k) && absorbed(b, s)[k] == b[k],
{
    assert(absorbed(absorbed(b, s), s) =~= absorbed(b, s));
    assert(absorbed(b, Map::empty()) =~= b);
}

} // verus!
