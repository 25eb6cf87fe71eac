use vstd::prelude::*;
use crate::mutability::{Mutability, mutability_max, spec_compatible};
use crate::pair::{Pair, pair_rev, pair_nat};
use crate::vec_map::{VecMap, seq_map, lemma_seq_map_at, entries_insert};

verus! {

/// What a local variable borrows: the function instance whose call first made it
/// borrow something, and each token it borrows, in the order first borrowed.
pub struct LocalBorrows {
    pub local: usize,
    pub instance: usize,
    pub tokens: VecMap<Mutability>,
}

/// The borrows of each local of a body, one entry per local.
pub struct BorrowingLocals {
    pub entries: Vec<LocalBorrows>,
}

/// The abstract value of one local's borrows: the instance and the token entries.
pub type LocalView = (usize, Seq<(u64, Mutability)>);

pub open spec fn distinct_locals(s: Seq<LocalBorrows>) -> bool {
    forall|i: int, j: int| 0 <= i < s.len() && 0 <= j < s.len() && i != j
        ==> #[trigger] s[i].local != #[trigger] s[j].local
}

impl BorrowingLocals {
    pub open spec fn wf(&self) -> bool {
        &&& distinct_locals(self.entries@)
        &&& forall|i: int| 0 <= i < self.entries@.len() ==> (#[trigger] self.entries@[i]).tokens.wf()
    }

    /// Each local with its instance and token entries.
    pub open spec fn view_map(&self) -> Map<usize, LocalView> {
        Map::new(
            |l: usize| exists|i: int| 0 <= i < self.entries@.len() && #[trigger] self.entries@[i].local == l,
            |l: usize| {
                let i = choose|i: int| 0 <= i < self.entries@.len() && #[trigger] self.entries@[i].local == l;
                (self.entries@[i].instance, self.entries@[i].tokens.entries@)
            },
        )
    }

    /// No local borrows anything yet.
    pub fn new() -> (r: BorrowingLocals)
        ensures
            r.wf(),
            r.view_map() == Map::<usize, LocalView>::empty(),
    {
        let r = BorrowingLocals { entries: Vec::new() };
        assert(r.view_map() =~= Map::<usize, LocalView>::empty());
        r
    }

    /// The position of `local`'s entry.
    pub fn find(&self, local: usize) -> (r: Option<usize>)
        requires
            self.wf(),
        ensures
            match r {
                Some(i) => i < self.entries@.len() && self.entries@[i as int].local == local
                    && self.view_map().contains_key(local)
                    && self.view_map()[local] == (self.entries@[i as int].instance, self.entries@[i as int].tokens.entries@),
                None => !self.view_map().contains_key(local),
            },
    {
        let mut i: usize = 0;
        while i < self.entries.len()
            invariant
                self.wf(),
                i <= self.entries@.len(),
                forall|j: int| 0 <= j < i ==> #[trigger] self.entries@[j].local != local,
            decreases self.entries@.len() - i,
        {
            if self.entries[i].local == local {
                proof {
                    let j = choose|j: int| 0 <= j < self.entries@.len() && #[trigger] self.entries@[j].local == local;
                    assert(j == i);
                }
                return Some(i);
            }
            i = i + 1;
        }
        None
    }
}

/// The borrows of each local after `local` borrows `token` with `mutability` on
/// behalf of `instance`: a local seen for the first time is attributed to `instance`,
/// and a token keeps the larger of its mutabilities.
pub open spec fn bl_add(m: Map<usize, LocalView>, local: usize, token: u64, instance: usize, mutability: Mutability) -> Map<usize, LocalView> {
    let (inst, toks) = if m.contains_key(local) { m[local] } else { (instance, Seq::empty()) };
    let tm = seq_map(toks);
    let cur = if tm.contains_key(token) { tm[token] } else { Mutability::Not };
    m.insert(local, (inst, entries_insert(toks, token, mutability_max(cur, mutability))))
}

/// Records that `local` borrows `token` with `mutability` on behalf of `instance`.
pub fn add_local_borrow(bs: &mut BorrowingLocals, local: usize, token: u64, instance: usize, mutability: Mutability)
    requires
        old(bs).wf(),
    ensures
        final(bs).wf(),
        final(bs).view_map() == bl_add(old(bs).view_map(), local, token, instance, mutability),
{
    let ghost old_map = bs.view_map();
    let idx = match bs.find(local) {
        Some(i) => i,
        None => {
            let ghost s0 = bs.entries@;
            bs.entries.push(LocalBorrows { local, instance, tokens: VecMap::new() });
            proof {
                let s1 = bs.entries@;
                assert(distinct_locals(s1)) by {
                    assert forall|i: int, j: int| 0 <= i < s1.len() && 0 <= j < s1.len() && i != j
                        implies #[trigger] s1[i].local != #[trigger] s1[j].local by {
                        if i < s0.len() && j < s0.len() {
                            assert(s1[i] == s0[i] && s1[j] == s0[j]);
                        } else if i < s0.len() {
                            assert(s1[i] == s0[i]);
                            assert(old_map.contains_key(s0[i].local));
                        } else {
                            assert(s1[j] == s0[j]);
                            assert(old_map.contains_key(s0[j].local));
                        }
                    }
                }
            }
            bs.entries.len() - 1
        },
    };
    let ghost s_mid = bs.entries@;
    proof {
        if old_map.contains_key(local) {
            assert(old_map[local] == (s_mid[idx as int].instance, s_mid[idx as int].tokens.entries@));
        } else {
            assert(s_mid[idx as int].instance == instance);
            assert(s_mid[idx as int].tokens.entries@ == Seq::<(u64, Mutability)>::empty());
        }
        assert(s_mid[idx as int].tokens.wf());
    }
    let ghost e_old = s_mid[idx as int];
    let mut e = bs.entries.remove(idx);
    let cur = match e.tokens.get(token) {
        Some(m) => m,
        None => Mutability::Not,
    };
    let mut upgraded = cur;
    upgraded.upgrade(mutability);
    e.tokens.insert(token, upgraded);
    bs.entries.insert(idx, e);
    proof {
        let s1 = bs.entries@;
        assert forall|j: int| 0 <= j < s1.len() && j != idx as int implies #[trigger] s1[j] == s_mid[j] by {
            if j < idx {
                assert(s1[j] == s_mid[j]);
            } else {
                assert(s1[j] == s_mid[j]);
            }
        }
        assert(distinct_locals(s1)) by {
            assert forall|i: int, j: int| 0 <= i < s1.len() && 0 <= j < s1.len() && i != j
                implies #[trigger] s1[i].local != #[trigger] s1[j].local by {
                assert(s1[i].local == s_mid[i].local);
                assert(s1[j].local == s_mid[j].local);
            }
        }
        assert(bs.wf());
        assert forall|l: usize| #[trigger] bs.view_map().contains_key(l) == old_map.dom().insert(local).contains(l) by {
            if bs.view_map().contains_key(l) {
                let j = choose|j: int| 0 <= j < s1.len() && #[trigger] s1[j].local == l;
                if j != idx as int && j < s_mid.len() {
                    assert(s_mid[j].local == l);
                }
            }
            if old_map.contains_key(l) {
                let j = choose|j: int| 0 <= j < old(bs).entries@.len() && #[trigger] old(bs).entries@[j].local == l;
                assert(s_mid[j].local == l);
                assert(s1[j].local == l);
            }
            if l == local {
                assert(s1[idx as int].local == l);
            }
        }
        assert(bs.view_map().dom() =~= old_map.dom().insert(local));
        assert forall|l: usize| #[trigger] old_map.contains_key(l) && l != local
            implies bs.view_map()[l] == old_map[l] by {
            let j = choose|j: int| 0 <= j < old(bs).entries@.len() && #[trigger] old(bs).entries@[j].local == l;
            assert(s_mid[j] == old(bs).entries@[j]);
            assert(s1[j] == s_mid[j]);
            let k = choose|k: int| 0 <= k < s1.len() && #[trigger] s1[k].local == l;
            assert(k == j);
        }
        let k = choose|k: int| 0 <= k < s1.len() && #[trigger] s1[k].local == local;
        assert(s1[idx as int].local == local);
        assert(k == idx as int);
        assert(s1[idx as int].instance == e_old.instance);
        assert(s1[idx as int].tokens.entries@ == entries_insert(e_old.tokens.entries@, token, mutability_max(cur, mutability)));
        assert(bs.view_map()[local] == (s1[idx as int].instance, s1[idx as int].tokens.entries@));
        assert(bs.view_map() =~= bl_add(old_map, local, token, instance, mutability));
    }
}

/// Why a local holds a borrow: a call of a function instance, or an `.await`.
#[derive(Debug, Clone, Copy, PartialEq, Eq, Structural)]
pub enum Reason {
    Call(usize),
    Await,
}

/// A token on which two borrows conflict, with each side's mutability and reason.
pub type Conflict = (u64, Pair<(Mutability, Reason)>);

/// The first entry of `s` whose token `other` also borrows, incompatibly.
pub open spec fn first_incompatible(s: Seq<(u64, Mutability)>, other: Map<u64, Mutability>) -> Option<(u64, Mutability, Mutability)>
    decreases s.len(),
{
    if s.len() == 0 {
        None
    } else if other.contains_key(s[0].0) && !spec_compatible(s[0].1, other[s[0].0]) {
        Some((s[0].0, s[0].1, other[s[0].0]))
    } else {
        first_incompatible(s.drop_first(), other)
    }
}

/// `p.left` borrows something and `p.right` is held across an `.await`: the first
/// token of `p.left` conflicts with the await, which counts as a mutable borrow.
pub open spec fn yield_conflict(bl: Map<usize, LocalView>, yields: Seq<usize>, p: Pair<usize>) -> Option<Conflict> {
    if bl.contains_key(p.left) && yields.contains(p.right) && bl[p.left].1.len() > 0 {
        let (token, m) = bl[p.left].1[0];
        Some((token, Pair { reversed: p.reversed, left: (m, Reason::Call(bl[p.left].0)), right: (Mutability::Mut, Reason::Await) }))
    } else {
        None
    }
}

/// Both locals borrow something: the first token of the one with more tokens (the
/// right one on a tie) that the other borrows incompatibly.
pub open spec fn regular_conflict(bl: Map<usize, LocalView>, p: Pair<usize>) -> Option<Conflict> {
    if bl.contains_key(p.left) && bl.contains_key(p.right) {
        let t = Pair { reversed: p.reversed, left: bl[p.left], right: bl[p.right] };
        let o = if t.left.1.len() <= t.right.1.len() { pair_rev(t) } else { t };
        match first_incompatible(o.left.1, seq_map(o.right.1)) {
            Some((token, m1, m2)) => Some((token, Pair {
                reversed: o.reversed,
                left: (m1, Reason::Call(o.left.0)),
                right: (m2, Reason::Call(o.right.0)),
            })),
            None => None,
        }
    } else {
        None
    }
}

/// The conflict between the borrows of two locals, if any: an `.await` that one is held
/// across while the other borrows, in either order, else two incompatible borrows of
/// one token.
pub open spec fn conflict_spec(bl: Map<usize, LocalView>, yields: Seq<usize>, p: Pair<usize>) -> Option<Conflict> {
    match yield_conflict(bl, yields, p) {
        Some(c) => Some(c),
        None => match yield_conflict(bl, yields, pair_rev(p)) {
            Some(c) => Some(c),
            None => regular_conflict(bl, p),
        },
    }
}

/// Two locals alive together that each borrow the single token `t` (and neither is
/// held across an `.await`) conflict exactly when one of the borrows is mutable, and
/// then on `t`: two shared borrows of a token may overlap, a shared and a mutable one
/// or two mutable ones may not.
pub proof fn lemma_single_token_conflict(
    bl: Map<usize, LocalView>,
    yields: Seq<usize>,
    a: usize,
    b: usize,
    t: u64,
    ma: Mutability,
    mb: Mutability,
    reversed: bool,
)
    requires
        bl.contains_key(a),
        bl.contains_key(b),
        bl[a].1 == seq![(t, ma)],
        bl[b].1 == seq![(t, mb)],
        !yields.contains(a),
        !yields.contains(b),
    ensures
        conflict_spec(bl, yields, Pair { reversed, left: a, right: b }) is Some
            <==> (ma == Mutability::Mut || mb == Mutability::Mut),
        conflict_spec(bl, yields, Pair { reversed, left: a, right: b }) is Some
            ==> conflict_spec(bl, yields, Pair { reversed, left: a, right: b })->Some_0.0 == t,
{
    let p = Pair { reversed, left: a, right: b };
    assert(yield_conflict(bl, yields, p) is None);
    assert(yield_conflict(bl, yields, pair_rev(p)) is None);
    let tp = Pair { reversed: p.reversed, left: bl[a], right: bl[b] };
    let o = if tp.left.1.len() <= tp.right.1.len() { pair_rev(tp) } else { tp };
    let s = o.left.1;
    let other = seq_map(o.right.1);
    assert(s.len() == 1);
    assert(s.drop_first().len() == 0);
    crate::vec_map::lemma_seq_map_at(o.right.1, 0);
    assert(other.contains_key(t));
    assert(s[0].0 == t);
    assert(first_incompatible(s.drop_first(), other) is None);
}

fn contains_local(v: &Vec<usize>, x: usize) -> (r: bool)
    ensures
        r == v@.contains(x),
{
    let mut i: usize = 0;
    while i < v.len()
        invariant
            i <= v@.len(),
            forall|j: int| 0 <= j < i ==> v@[j] != x,
        decreases v@.len() - i,
    {
        if v[i] == x {
            assert(v@[i as int] == x);
            return true;
        }
        i = i + 1;
    }
    false
}

/// The first of `s`'s entries that `other` borrows incompatibly.
fn find_incompatible(s: &VecMap<Mutability>, other: &VecMap<Mutability>) -> (r: Option<(u64, Mutability, Mutability)>)
    requires
        s.wf(),
        other.wf(),
    ensures
        r == first_incompatible(s.entries@, other@),
{
    let n = s.entries.len();
    let mut i: usize = 0;
    assert(s.entries@.skip(0) =~= s.entries@);
    while i < n
        invariant
            n == s.entries@.len(),
            i <= n,
            s.wf(),
            other.wf(),
            first_incompatible(s.entries@, other@) == first_incompatible(s.entries@.skip(i as int), other@),
        decreases n - i,
    {
        let (token, m1) = s.entry_at(i);
        let ghost rest = s.entries@.skip(i as int);
        proof {
            assert(rest[0] == (token, m1));
            assert(rest.drop_first() =~= s.entries@.skip(i + 1));
        }
        match other.get(token) {
            Some(m2) => {
                if !m1.is_compatible_with(m2) {
                    return Some((token, m1, m2));
                }
            },
            None => {},
        }
        i = i + 1;
    }
    proof {
        assert(s.entries@.skip(n as int).len() == 0);
    }
    None
}

/// The first entry of a local's token list.
fn first_token(bl: &BorrowingLocals, idx: usize) -> (r: Option<(u64, Mutability)>)
    requires
        bl.wf(),
        idx < bl.entries@.len(),
    ensures
        bl.entries@[idx as int].tokens.entries@.len() > 0 ==> r == Some(bl.entries@[idx as int].tokens.entries@[0]),
        bl.entries@[idx as int].tokens.entries@.len() == 0 ==> r is None,
{
    if bl.entries[idx].tokens.entries.len() > 0 {
        proof {
            assert(bl.entries@[idx as int].tokens.wf());
        }
        Some(bl.entries[idx].tokens.entry_at(0))
    } else {
        None
    }
}

/// Whether the borrows of the two locals of `types` conflict, and how.
pub fn conflict_between(bl: &BorrowingLocals, yields: &Vec<usize>, types: Pair<usize>) -> (r: Option<Conflict>)
    requires
        bl.wf(),
    ensures
        r == conflict_spec(bl.view_map(), yields@, types),
{
    let orders = types.orders();
    let mut k: usize = 0;
    while k < 2
        invariant
            bl.wf(),
            k <= 2,
            *orders[0].left == types.left,
            *orders[0].right == types.right,
            orders[0].reversed == types.reversed,
            *orders[1].left == types.right,
            *orders[1].right == types.left,
            orders[1].reversed == !types.reversed,
            k >= 1 ==> yield_conflict(bl.view_map(), yields@, types) is None,
            k >= 2 ==> yield_conflict(bl.view_map(), yields@, pair_rev(types)) is None,
        decreases 2 - k,
    {
        let o = orders[k];
        let first = match bl.find(*o.left) {
            Some(i) => i,
            None => {
                k = k + 1;
                continue;
            },
        };
        if !contains_local(yields, *o.right) {
            k = k + 1;
            continue;
        }
        let (token, mutability) = match first_token(bl, first) {
            Some(tm) => tm,
            None => {
                k = k + 1;
                continue;
            },
        };
        let inst = bl.entries[first].instance;
        return Some((token, o.map((mutability, Reason::Call(inst)), (Mutability::Mut, Reason::Await))));
    }
    let li = match bl.find(types.left) {
        Some(i) => i,
        None => {
            return None;
        },
    };
    let ri = match bl.find(types.right) {
        Some(i) => i,
        None => {
            return None;
        },
    };
    let left = &bl.entries[li];
    let right = &bl.entries[ri];
    proof {
        assert(left.tokens.wf());
        assert(right.tokens.wf());
        left.tokens.lemma_len();
        right.tokens.lemma_len();
    }
    let rev = left.tokens.entries.len() <= right.tokens.entries.len();
    let (big, small) = if rev { (right, left) } else { (left, right) };
    let reversed = if rev { !types.reversed } else { types.reversed };
    match find_incompatible(&big.tokens, &small.tokens) {
        Some((token, m1, m2)) => Some((token, Pair {
            reversed,
            left: (m1, Reason::Call(big.instance)),
            right: (m2, Reason::Call(small.instance)),
        })),
        None => None,
    }
}

/// A reported conflict is always between incompatible borrows, in either order.
pub proof fn lemma_conflict_incompatible(bl: Map<usize, LocalView>, yields: Seq<usize>, p: Pair<usize>)
    requires
        conflict_spec(bl, yields, p) is Some,
    ensures
        !spec_compatible(conflict_spec(bl, yields, p)->Some_0.1.left.0, conflict_spec(bl, yields, p)->Some_0.1.right.0),
        !spec_compatible(pair_nat(conflict_spec(bl, yields, p)->Some_0.1).left.0, pair_nat(conflict_spec(bl, yields, p)->Some_0.1).right.0),
{
    if yield_conflict(bl, yields, p) is None && yield_conflict(bl, yields, pair_rev(p)) is None {
        let t = Pair { reversed: p.reversed, left: bl[p.left], right: bl[p.right] };
        let o = if t.left.1.len() <= t.right.1.len() { pair_rev(t) } else { t };
        lemma_first_incompatible(o.left.1, seq_map(o.right.1));
    }
}

proof fn lemma_first_incompatible(s: Seq<(u64, Mutability)>, other: Map<u64, Mutability>)
    ensures
        first_incompatible(s, other) matches Some((t, m1, m2)) ==> !spec_compatible(m1, m2),
    decreases s.len(),
{
    if s.len() > 0 {
        lemma_first_incompatible(s.drop_first(), other);
    }
}

} // verus!
