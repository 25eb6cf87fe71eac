use vstd::prelude::*;
use crate::mutability::Mutability;
use crate::tokens::{BorrowMap, BorrowValue, TokenSet, token_set_view, instantiate_set, absorb_set, absorbed};

verus! {

/// The depth reported for a node whose subtree never reached back into the stack.
pub const INFINITE_DEPTH: u32 = 0xffff_ffffu32;

/// What the analysis knows about one function instance.
pub enum FnKind {
    /// `__autoken_declare_tied`: borrows `set`, optionally tying it to the lifetime
    /// named `tied_to` in its caller's return type.
    Tie { tied_to: Option<u64>, set: TokenSet },
    /// A function with a body: its statically resolved callees in block order, the
    /// functions it unsizes, and, for `__autoken_absorb_only`, the absorbed set.
    Body { calls: Vec<usize>, unsized_fns: Vec<usize>, absorb: Option<TokenSet> },
    /// A function without analyzable MIR (foreign item, intrinsic, dynamic shim).
    Opaque,
}

/// A whole program: function instance `i` is `fns[i]`.
pub struct TraceProgram {
    pub fns: Vec<FnKind>,
}

pub open spec fn analyzable(p: TraceProgram, i: int) -> bool {
    0 <= i < p.fns@.len() && !(p.fns@[i] is Opaque)
}

pub open spec fn is_tie(p: TraceProgram, i: int) -> bool {
    0 <= i < p.fns@.len() && p.fns@[i] is Tie
}

pub open spec fn calls_of(p: TraceProgram, i: int) -> Seq<usize> {
    match p.fns@[i] {
        FnKind::Body { calls, .. } => calls@,
        _ => Seq::empty(),
    }
}

pub open spec fn unsized_of(p: TraceProgram, i: int) -> Seq<usize> {
    match p.fns@[i] {
        FnKind::Body { unsized_fns, .. } => unsized_fns@,
        _ => Seq::empty(),
    }
}

/// The borrows a tie function declares.
pub open spec fn tie_view(p: TraceProgram, i: int) -> Map<u64, BorrowValue> {
    match p.fns@[i] {
        FnKind::Tie { set, .. } => token_set_view(set),
        _ => Map::empty(),
    }
}

/// The lifetime a call of function `i` ties its borrows to.
pub open spec fn tie_lifetime(p: TraceProgram, i: int) -> Option<u64> {
    match p.fns@[i] {
        FnKind::Tie { tied_to, .. } => tied_to,
        _ => None,
    }
}

/// `a` calls `b` and `b` can be analyzed.
pub open spec fn edge(p: TraceProgram, a: int, b: int) -> bool {
    &&& 0 <= a < p.fns@.len()
    &&& p.fns@[a] is Body
    &&& exists|k: int| 0 <= k < calls_of(p, a).len() && calls_of(p, a)[k] == b
    &&& analyzable(p, b)
}

/// Merges a callee's borrows into `acc`: mutability only grows, and a call of a tie
/// function ties the merged tokens to its lifetime.
pub open spec fn merge_callee(acc: Map<u64, BorrowValue>, callee: Map<u64, BorrowValue>, lt: Option<u64>) -> Map<u64, BorrowValue> {
    Map::new(
        |k: u64| acc.contains_key(k) || callee.contains_key(k),
        |k: u64|
            if callee.contains_key(k) {
                let cur_mut = if acc.contains_key(k) { acc[k].0 } else { Mutability::Not };
                let cur_lt = if acc.contains_key(k) { acc[k].1 } else { None };
                (
                    if callee[k].0 == Mutability::Mut { Mutability::Mut } else { cur_mut },
                    if lt is Some { lt } else { cur_lt },
                )
            } else {
                acc[k]
            },
    )
}

/// Merging a callee's borrows: the tokens borrowed are those of either side; a token is
/// borrowed mutably exactly when either side borrows it mutably; a call of a tie
/// function ties every token the callee borrows to its lifetime, and every other token
/// keeps its tie.
pub proof fn lemma_merge_callee_law(acc: Map<u64, BorrowValue>, callee: Map<u64, BorrowValue>, lt: Option<u64>)
    ensures
        forall|k: u64| #[trigger] merge_callee(acc, callee, lt).contains_key(k) <==> acc.contains_key(k) || callee.contains_key(k),
        forall|k: u64| #[trigger] merge_callee(acc, callee, lt).contains_key(k) ==>
            (merge_callee(acc, callee, lt)[k].0 == Mutability::Mut
                <==> (acc.contains_key(k) && acc[k].0 == Mutability::Mut)
                    || (callee.contains_key(k) && callee[k].0 == Mutability::Mut)),
        forall|k: u64| #[trigger] merge_callee(acc, callee, lt).contains_key(k) && callee.contains_key(k) && lt is Some ==>
            merge_callee(acc, callee, lt)[k].1 == lt,
        forall|k: u64| #[trigger] merge_callee(acc, callee, lt).contains_key(k) && (!callee.contains_key(k) || lt is None)
            ==> merge_callee(acc, callee, lt)[k].1 == (if acc.contains_key(k) { acc[k].1 } else { None }),
{
    assert forall|k: u64| #[trigger] merge_callee(acc, callee, lt).contains_key(k) implies
        (merge_callee(acc, callee, lt)[k].0 == Mutability::Mut
            <==> (acc.contains_key(k) && acc[k].0 == Mutability::Mut)
                || (callee.contains_key(k) && callee[k].0 == Mutability::Mut)) by {
        match (if acc.contains_key(k) { acc[k].0 } else { Mutability::Not }) {
            Mutability::Not => {},
            Mutability::Mut => {},
        }
        match (if callee.contains_key(k) { callee[k].0 } else { Mutability::Not }) {
            Mutability::Not => {},
            Mutability::Mut => {},
        }
    }
}

/// The borrows of a function's first `k` calls: a token is borrowed exactly when one of
/// those callees borrows it, and mutably exactly when one of them borrows it mutably.
pub proof fn lemma_merged_calls_law(p: TraceProgram, x: int, fm: Seq<Option<BorrowMap>>, k: nat, t: u64)
    requires
        k <= calls_of(p, x).len(),
    ensures
        merged_calls(p, x, fm, k).contains_key(t) <==> exists|i: int| 0 <= i < k
            && #[trigger] callee_view(p, fm, calls_of(p, x)[i] as int).contains_key(t),
        merged_calls(p, x, fm, k).contains_key(t) ==> (merged_calls(p, x, fm, k)[t].0 == Mutability::Mut
            <==> exists|i: int| 0 <= i < k && #[trigger] callee_view(p, fm, calls_of(p, x)[i] as int).contains_key(t)
                && callee_view(p, fm, calls_of(p, x)[i] as int)[t].0 == Mutability::Mut),
    decreases k,
{
    if k > 0 {
        let c = calls_of(p, x)[k - 1] as int;
        let pre = merged_calls(p, x, fm, (k - 1) as nat);
        let cv = callee_view(p, fm, c);
        lemma_merged_calls_law(p, x, fm, (k - 1) as nat, t);
        lemma_merge_callee_law(pre, cv, tie_lifetime(p, c));
        if cv.contains_key(t) {
            assert(callee_view(p, fm, calls_of(p, x)[k - 1] as int).contains_key(t));
        }
        if merged_calls(p, x, fm, k).contains_key(t) && merged_calls(p, x, fm, k)[t].0 == Mutability::Mut {
            if !(cv.contains_key(t) && cv[t].0 == Mutability::Mut) {
                assert(pre.contains_key(t) && pre[t].0 == Mutability::Mut);
            }
        }
        if exists|i: int| 0 <= i < k && #[trigger] callee_view(p, fm, calls_of(p, x)[i] as int).contains_key(t)
            && callee_view(p, fm, calls_of(p, x)[i] as int)[t].0 == Mutability::Mut {
            let i = choose|i: int| 0 <= i < k && #[trigger] callee_view(p, fm, calls_of(p, x)[i] as int).contains_key(t)
                && callee_view(p, fm, calls_of(p, x)[i] as int)[t].0 == Mutability::Mut;
            if i < k - 1 {
                assert(pre.contains_key(t));
            }
        }
        if exists|i: int| 0 <= i < k && #[trigger] callee_view(p, fm, calls_of(p, x)[i] as int).contains_key(t) {
            let i = choose|i: int| 0 <= i < k && #[trigger] callee_view(p, fm, calls_of(p, x)[i] as int).contains_key(t);
            if i < k - 1 {
                assert(pre.contains_key(t));
            }
        }
    }
}

/// Adds the borrows of a callee to `acc`.
pub fn merge_callee_into(acc: &mut BorrowMap, callee: &BorrowMap, lt: Option<u64>)
    requires
        old(acc).wf(),
        callee.wf(),
    ensures
        final(acc).wf(),
        final(acc)@ == merge_callee(old(acc)@, callee@, lt),
        forall|k: u64| #[trigger] final(acc)@.contains_key(k) <==> old(acc)@.contains_key(k) || callee@.contains_key(k),
        forall|k: u64| #[trigger] final(acc)@.contains_key(k) ==> (final(acc)@[k].0 == Mutability::Mut
            <==> (old(acc)@.contains_key(k) && old(acc)@[k].0 == Mutability::Mut)
                || (callee@.contains_key(k) && callee@[k].0 == Mutability::Mut)),
{
    let n = callee.entries.len();
    let ghost s = callee.entries@;
    let ghost a = acc@;
    assert(crate::vec_map::seq_map(s.take(0)) =~= Map::<u64, BorrowValue>::empty());
    assert(acc@ =~= merge_callee(a, crate::vec_map::seq_map(s.take(0)), lt));
    for i in 0..n
        invariant
            n == s.len(),
            s == callee.entries@,
            callee.wf(),
            acc.wf(),
            acc@ == merge_callee(a, crate::vec_map::seq_map(s.take(i as int)), lt),
    {
        proof {
            crate::vec_map::lemma_take_push(s, i as int);
        }
        let e = callee.entry_at(i);
        let (mut cur_mut, mut cur_lt) = match acc.get(e.0) {
            Some(v) => v,
            None => (Mutability::Not, None),
        };
        if e.1.0.is_mut() {
            cur_mut = Mutability::Mut;
        }
        if lt.is_some() {
            cur_lt = lt;
        }
        acc.insert(e.0, (cur_mut, cur_lt));
        assert(acc@ =~= merge_callee(a, crate::vec_map::seq_map(s.take(i + 1)), lt));
    }
    assert(s.take(n as int) =~= s);
    proof {
        lemma_merge_callee_law(a, callee@, lt);
    }
}

/// The context threaded through the propagation: the program and the queue of
/// function instances still to be analyzed.
pub struct TraceCx {
    pub program: TraceProgram,
    pub analysis_queue: Vec<usize>,
}

/// Computes borrow facts for the nodes of a call graph in depth-first order. A node
/// that reaches back into a node still on the stack joins the group of that node; once
/// the group's root is finished, every member receives the root's facts.
pub struct GraphPropagator {
    pub cx: TraceCx,
    fact_map: Vec<Option<BorrowMap>>,
    depth_map: Vec<Option<u32>>,
    scc_sets: Vec<Vec<usize>>,
    stack: Ghost<Seq<usize>>,
    in_flight: Ghost<Option<usize>>,
    /// The root of the component each node's facts were taken from (itself when it
    /// keeps the facts it computed).
    rep: Ghost<Seq<int>>,
    /// The facts of every node at the moment each node computed its own facts.
    basis: Ghost<Seq<Seq<Option<BorrowMap>>>>,
    /// The depth of the open component set that holds each node, if any.
    slot: Ghost<Seq<Option<int>>>,
    /// Whether a node finished as the root of its component.
    closed: Ghost<Seq<bool>>,
}

/// The facts of the root `x` were computed while each of its analyzable callees other
/// than itself already had facts: the facts the callee has now, or those it computed
/// itself; a call of itself contributed nothing.
pub open spec fn root_basis_ok(p: TraceProgram, fm: Seq<Option<BorrowMap>>, basis: Seq<Seq<Option<BorrowMap>>>, x: int) -> bool {
    &&& basis[x][x] is None
    &&& forall|k: int| 0 <= k < calls_of(p, x).len() && analyzable(p, #[trigger] calls_of(p, x)[k] as int)
        && calls_of(p, x)[k] as int != x ==> {
            let c = calls_of(p, x)[k] as int;
            &&& basis[x][c] is Some
            &&& fm[c] is Some
            &&& (basis[x][c]->Some_0@ == fm[c]->Some_0@
                || (p.fns@[c] is Body && basis[x][c]->Some_0@ == body_facts(p, c, basis[c])))
        }
}

/// How the facts of a call graph with cycles are made up: each function with facts
/// shares the facts of the root of its component (itself when it is not merged into
/// another), a function and its root reach each other through calls, and the facts of
/// a root with a body are what its calls gave, in order, from the facts its callees
/// had when it was computed (`root_basis_ok`).
pub open spec fn grouped_facts(p: TraceProgram, fm: Seq<Option<BorrowMap>>, rep: Seq<int>, basis: Seq<Seq<Option<BorrowMap>>>) -> bool {
    forall|x: int| 0 <= x < fm.len() && #[trigger] fm[x] is Some ==> {
        let r = rep[x];
        &&& 0 <= r < fm.len()
        &&& fm[r] is Some
        &&& rep[r] == r
        &&& fm[x]->Some_0@ == fm[r]->Some_0@
        &&& r != x ==> trace_reaches(p, x, r) && trace_reaches(p, r, x)
        &&& (r == x && p.fns@[x] is Body) ==> {
            &&& basis[x].len() == fm.len()
            &&& fm[x]->Some_0@ == body_facts(p, x, basis[x])
            &&& root_basis_ok(p, fm, basis, x)
        }
    }
}

/// How many entries of `s` are set.
pub open spec fn count_seen(s: Seq<bool>) -> nat
    decreases s.len(),
{
    if s.len() == 0 {
        0
    } else {
        count_seen(s.drop_last()) + if s.last() { 1nat } else { 0nat }
    }
}

/// At most every entry is set.
pub proof fn lemma_count_seen_bound(s: Seq<bool>)
    ensures
        count_seen(s) <= s.len(),
    decreases s.len(),
{
    if s.len() > 0 {
        lemma_count_seen_bound(s.drop_last());
    }
}

/// Setting more entries counts more; setting a new one counts strictly more.
pub proof fn lemma_count_seen_mono(a: Seq<bool>, b: Seq<bool>)
    requires
        a.len() == b.len(),
        forall|i: int| 0 <= i < a.len() && #[trigger] a[i] ==> b[i],
    ensures
        count_seen(a) <= count_seen(b),
        (exists|j: int| 0 <= j < a.len() && !a[j] && b[j]) ==> count_seen(a) < count_seen(b),
    decreases a.len(),
{
    if a.len() > 0 {
        let a1 = a.drop_last();
        let b1 = b.drop_last();
        assert forall|i: int| 0 <= i < a1.len() && #[trigger] a1[i] implies b1[i] by {
            assert(a[i]);
        }
        lemma_count_seen_mono(a1, b1);
        if exists|j: int| 0 <= j < a.len() && !a[j] && b[j] {
            let j = choose|j: int| 0 <= j < a.len() && !a[j] && b[j];
            if j < a.len() - 1 {
                assert(!a1[j] && b1[j]);
            }
        }
    }
}

pub open spec fn seen_of(fm: Seq<Option<BorrowMap>>, dm: Seq<Option<u32>>) -> Seq<bool> {
    Seq::new(fm.len(), |i: int| fm[i] is Some || dm[i] is Some)
}

impl GraphPropagator {
    /// The program being analyzed.
    pub closed spec fn program(&self) -> TraceProgram {
        self.cx.program
    }

    pub closed spec fn n(&self) -> int {
        self.cx.program.fns@.len() as int
    }

    pub closed spec fn done(&self, x: int) -> bool {
        self.fact_map@[x] is Some
    }

    pub closed spec fn pending(&self, x: int) -> bool {
        self.depth_map@[x] is Some
    }

    /// The facts recorded for node `x`.
    pub closed spec fn facts(&self, x: int) -> Map<u64, BorrowValue> {
        self.fact_map@[x]->Some_0@
    }

    pub closed spec fn seen_seq(&self) -> Seq<bool> {
        seen_of(self.fact_map@, self.depth_map@)
    }

    pub closed spec fn measure(&self) -> nat {
        (self.fact_map@.len() - count_seen(self.seen_seq())) as nat
    }

    pub closed spec fn inv(&self) -> bool {
        let n = self.n();
        let stack = self.stack@;
        &&& n < INFINITE_DEPTH
        &&& self.fact_map@.len() == n
        &&& stack.len() <= count_seen(self.seen_seq())
        &&& self.depth_map@.len() == n
        &&& stack.len() == self.scc_sets@.len()
        &&& forall|d: int| 0 <= d < stack.len() ==> 0 <= #[trigger] stack[d] < n
        &&& forall|d: int| 0 <= d < stack.len() ==> self.depth_map@[#[trigger] stack[d] as int] == Some(d as u32)
        &&& forall|x: int| 0 <= x < n && #[trigger] self.depth_map@[x] is Some ==> {
            let d = self.depth_map@[x]->Some_0 as int;
            0 <= d < stack.len() && stack[d] == x
        }
        &&& forall|x: int| 0 <= x < n && #[trigger] self.fact_map@[x] is Some ==> {
            &&& self.depth_map@[x] is None
            &&& self.fact_map@[x]->Some_0.wf()
            &&& analyzable(self.cx.program, x)
        }
        &&& forall|x: int| 0 <= x < n && #[trigger] self.depth_map@[x] is Some ==> analyzable(self.cx.program, x)
        &&& forall|i: int| 0 <= i < self.cx.analysis_queue@.len() ==> analyzable(self.cx.program, #[trigger] self.cx.analysis_queue@[i] as int)
        &&& forall|d: int, k: int| 0 <= d < self.scc_sets@.len() && 0 <= k < self.scc_sets@[d]@.len() ==> {
            let m = #[trigger] self.scc_sets@[d]@[k] as int;
            &&& 0 <= m < n
            &&& self.fact_map@[m] is Some
            &&& !is_tie(self.cx.program, m)
        }
        &&& forall|x: int| 0 <= x < n && #[trigger] self.fact_map@[x] is Some && is_tie(self.cx.program, x) ==>
            self.fact_map@[x]->Some_0@ == tie_view(self.cx.program, x)
        &&& forall|x: int, k: int| 0 <= x < n && self.fact_map@[x] is Some && 0 <= k < calls_of(self.cx.program, x).len()
            && analyzable(self.cx.program, #[trigger] calls_of(self.cx.program, x)[k] as int) ==>
            self.fact_map@[calls_of(self.cx.program, x)[k] as int] is Some
                || self.depth_map@[calls_of(self.cx.program, x)[k] as int] is Some
        &&& forall|x: int, k: int| 0 <= x < n && self.fact_map@[x] is Some && 0 <= k < unsized_of(self.cx.program, x).len()
            && analyzable(self.cx.program, #[trigger] unsized_of(self.cx.program, x)[k] as int) ==>
            self.fact_map@[unsized_of(self.cx.program, x)[k] as int] is Some
                || self.depth_map@[unsized_of(self.cx.program, x)[k] as int] is Some
                || self.cx.analysis_queue@.contains(unsized_of(self.cx.program, x)[k])
                || self.in_flight@ == Some(unsized_of(self.cx.program, x)[k])
    }

    /// How components are recorded: each open component set's members are marked with
    /// its depth, keep the facts they computed and are not roots; every other node with
    /// facts is a root or shares the facts of a root; the facts of a node that keeps its
    /// own are what its calls gave from its basis.
    pub closed spec fn xinv(&self) -> bool {
        let n = self.n();
        let fm = self.fact_map@;
        let p = self.cx.program;
        let rep = self.rep@;
        let basis = self.basis@;
        let slot = self.slot@;
        let closed = self.closed@;
        &&& rep.len() == n
        &&& basis.len() == n
        &&& slot.len() == n
        &&& closed.len() == n
        &&& forall|d: int, k: int| 0 <= d < self.scc_sets@.len() && 0 <= k < self.scc_sets@[d]@.len() ==>
            slot[#[trigger] self.scc_sets@[d]@[k] as int] == Some(d)
        &&& forall|x: int| 0 <= x < n && #[trigger] slot[x] is Some ==> {
            &&& 0 <= slot[x]->Some_0 < self.scc_sets@.len()
            &&& self.scc_sets@[slot[x]->Some_0]@.contains(x as usize)
            &&& fm[x] is Some
            &&& rep[x] == x
            &&& !closed[x]
        }
        &&& forall|x: int| 0 <= x < n && #[trigger] closed[x] ==> fm[x] is Some && rep[x] == x
        &&& forall|x: int| 0 <= x < n && #[trigger] fm[x] is None ==> rep[x] == x
        &&& forall|x: int| 0 <= x < n && #[trigger] fm[x] is Some ==> (closed[x] || slot[x] is Some || rep[x] != x)
        &&& forall|x: int| 0 <= x < n && fm[x] is Some && #[trigger] rep[x] != x ==> {
            &&& 0 <= rep[x] < n
            &&& closed[rep[x]]
            &&& fm[x]->Some_0@ == fm[rep[x]]->Some_0@
            &&& trace_reaches(p, x, rep[x])
            &&& trace_reaches(p, rep[x], x)
        }
        &&& forall|x: int| 0 <= x < n && fm[x] is Some && #[trigger] rep[x] == x && p.fns@[x] is Body ==> {
            &&& basis[x].len() == n
            &&& fm[x]->Some_0@ == body_facts(p, x, basis[x])
        }
        &&& forall|x: int| 0 <= x < n && #[trigger] closed[x] && p.fns@[x] is Body ==> root_basis_ok(p, fm, basis, x)
    }

    /// What `later` keeps of every node that already has facts here.
    pub closed spec fn keeps_done(&self, later: &Self) -> bool {
        forall|x: int| 0 <= x < self.n() && #[trigger] self.fact_map@[x] is Some ==> {
            &&& later.fact_map@[x] == self.fact_map@[x]
            &&& later.rep@[x] == self.rep@[x]
            &&& later.basis@[x] == self.basis@[x]
            &&& later.slot@[x] == self.slot@[x]
            &&& later.closed@[x] == self.closed@[x]
        }
    }

    /// When the program is acyclic: ranks decrease up the stack, and the facts so far
    /// follow the calls.
    pub closed spec fn acyc_inv(&self) -> bool {
        acyclic(self.cx.program) ==> {
            &&& forall|i: int, j: int| 0 <= i < j < self.stack@.len()
                ==> the_rank(self.cx.program)[#[trigger] self.stack@[j] as int] < the_rank(self.cx.program)[#[trigger] self.stack@[i] as int]
            &&& facts_follow_calls(self.cx.program, self.fact_map@)
        }
    }

    /// The recorded facts are sound, consecutive stack entries are calls, and each
    /// member of an open component reaches the stack entry that owns it.
    pub closed spec fn sinv(&self) -> bool {
        &&& facts_sound(self.cx.program, self.fact_map@)
        &&& forall|d: int| 0 <= d < self.stack@.len() - 1
            ==> #[trigger] edge(self.cx.program, self.stack@[d] as int, self.stack@[d + 1] as int)
        &&& forall|d: int, k: int| 0 <= d < self.scc_sets@.len() && 0 <= k < self.scc_sets@[d]@.len() ==>
            trace_reaches(self.cx.program, #[trigger] self.scc_sets@[d]@[k] as int, self.stack@[d] as int)
            && trace_reaches(self.cx.program, self.stack@[d] as int, self.scc_sets@[d]@[k] as int)
    }

    /// Whether function `i` can be analyzed.
    pub fn should_analyze(&self, i: usize) -> (r: bool)
        ensures
            r == analyzable(self.program(), i as int),
    {
        i < self.cx.program.fns.len() && match &self.cx.program.fns[i] {
            FnKind::Opaque => false,
            _ => true,
        }
    }

    fn call_count(&self, i: usize) -> (r: usize)
        requires
            i < self.cx.program.fns@.len(),
        ensures
            r == calls_of(self.cx.program, i as int).len(),
    {
        match &self.cx.program.fns[i] {
            FnKind::Body { calls, .. } => calls.len(),
            _ => 0,
        }
    }

    fn call_at(&self, i: usize, k: usize) -> (r: usize)
        requires
            i < self.cx.program.fns@.len(),
            k < calls_of(self.cx.program, i as int).len(),
        ensures
            r == calls_of(self.cx.program, i as int)[k as int],
    {
        match &self.cx.program.fns[i] {
            FnKind::Body { calls, .. } => calls[k],
            _ => 0,
        }
    }

    fn unsized_count(&self, i: usize) -> (r: usize)
        requires
            i < self.cx.program.fns@.len(),
        ensures
            r == unsized_of(self.cx.program, i as int).len(),
    {
        match &self.cx.program.fns[i] {
            FnKind::Body { unsized_fns, .. } => unsized_fns.len(),
            _ => 0,
        }
    }

    fn unsized_at(&self, i: usize, k: usize) -> (r: usize)
        requires
            i < self.cx.program.fns@.len(),
            k < unsized_of(self.cx.program, i as int).len(),
        ensures
            r == unsized_of(self.cx.program, i as int)[k as int],
    {
        match &self.cx.program.fns[i] {
            FnKind::Body { unsized_fns, .. } => unsized_fns[k],
            _ => 0,
        }
    }

    fn lifetime_of(&self, i: usize) -> (r: Option<u64>)
        requires
            i < self.cx.program.fns@.len(),
        ensures
            r == tie_lifetime(self.cx.program, i as int),
    {
        match &self.cx.program.fns[i] {
            FnKind::Tie { tied_to, .. } => *tied_to,
            _ => None,
        }
    }
}


impl GraphPropagator {
    proof fn lemma_keeps_trans(a: &Self, b: &Self, c: &Self)
        requires
            a.keeps_done(b),
            b.keeps_done(c),
            a.n() == b.n(),
        ensures
            a.keeps_done(c),
    {
        assert forall|x: int| 0 <= x < a.n() && #[trigger] a.fact_map@[x] is Some implies {
            &&& c.fact_map@[x] == a.fact_map@[x]
            &&& c.rep@[x] == a.rep@[x]
            &&& c.basis@[x] == a.basis@[x]
            &&& c.slot@[x] == a.slot@[x]
            &&& c.closed@[x] == a.closed@[x]
        } by {
            assert(b.fact_map@[x] is Some);
        }
    }
}

impl GraphPropagator {
    /// Opening a new, empty component set keeps the records.
    proof fn lemma_xinv_open(a: &Self, b: &Self)
        requires
            a.xinv(),
            b.cx.program == a.cx.program,
            b.fact_map@ == a.fact_map@,
            b.rep@ == a.rep@,
            b.basis@ == a.basis@,
            b.slot@ == a.slot@,
            b.closed@ == a.closed@,
            b.scc_sets@.len() == a.scc_sets@.len() + 1,
            forall|d: int| 0 <= d < a.scc_sets@.len() ==> #[trigger] b.scc_sets@[d] == a.scc_sets@[d],
            b.scc_sets@[a.scc_sets@.len() as int]@.len() == 0,
        ensures
            b.xinv(),
            a.keeps_done(b),
    {
        let n = b.n();
        assert forall|x: int| 0 <= x < n && #[trigger] b.slot@[x] is Some implies {
            &&& 0 <= b.slot@[x]->Some_0 < b.scc_sets@.len()
            &&& b.scc_sets@[b.slot@[x]->Some_0]@.contains(x as usize)
            &&& b.fact_map@[x] is Some
            &&& b.rep@[x] == x
            &&& !b.closed@[x]
        } by {
            assert(a.slot@[x] is Some);
            assert(b.scc_sets@[a.slot@[x]->Some_0] == a.scc_sets@[a.slot@[x]->Some_0]);
        }
        assert forall|d: int, k: int| 0 <= d < b.scc_sets@.len() && 0 <= k < b.scc_sets@[d]@.len() implies
            b.slot@[#[trigger] b.scc_sets@[d]@[k] as int] == Some(d) by {
            assert(d < a.scc_sets@.len());
            assert(b.scc_sets@[d] == a.scc_sets@[d]);
        }
    }

    /// Closing a component at its root `my_node`, at depth `md`: the root takes the
    /// facts its calls gave, and each member of its set takes the root's facts.
    proof fn lemma_xinv_close(sf: &Self, s2: &Self, my_node: int, md: int)
        requires
            sf.xinv(),
            sf.inv(),
            0 <= my_node < sf.n(),
            sf.scc_sets@.len() == md + 1,
            sf.fact_map@[my_node] is None,
            s2.cx.program == sf.cx.program,
            s2.fact_map@.len() == sf.fact_map@.len(),
            s2.scc_sets@.len() == md,
            forall|d: int| 0 <= d < md ==> #[trigger] s2.scc_sets@[d] == sf.scc_sets@[d],
            s2.fact_map@[my_node] is Some,
            s2.fact_map@[my_node]->Some_0.wf(),
            sf.cx.program.fns@[my_node] is Body ==> {
                &&& s2.fact_map@[my_node]->Some_0@ == body_facts(sf.cx.program, my_node, sf.fact_map@)
                &&& forall|k: int| 0 <= k < calls_of(sf.cx.program, my_node).len()
                    && analyzable(sf.cx.program, #[trigger] calls_of(sf.cx.program, my_node)[k] as int)
                    && calls_of(sf.cx.program, my_node)[k] as int != my_node
                    ==> sf.fact_map@[calls_of(sf.cx.program, my_node)[k] as int] is Some
            },
            forall|x: int| 0 <= x < sf.n() && x != my_node && #[trigger] sf.slot@[x] == Some(md) ==>
                s2.fact_map@[x] is Some && s2.fact_map@[x]->Some_0@ == s2.fact_map@[my_node]->Some_0@
                && trace_reaches(sf.cx.program, x, my_node) && trace_reaches(sf.cx.program, my_node, x),
            forall|x: int| 0 <= x < sf.n() && x != my_node && #[trigger] sf.slot@[x] != Some(md) ==>
                s2.fact_map@[x] == sf.fact_map@[x],
            s2.rep@ == Seq::new(sf.n() as nat, |x: int| if sf.slot@[x] == Some(md) { my_node } else { sf.rep@[x] }),
            s2.slot@ == Seq::new(sf.n() as nat, |x: int| if sf.slot@[x] == Some(md) { None } else { sf.slot@[x] }),
            s2.closed@ == sf.closed@.update(my_node, true),
            s2.basis@ == sf.basis@.update(my_node, sf.fact_map@),
        ensures
            s2.xinv(),
            forall|x: int| 0 <= x < sf.n() && #[trigger] sf.fact_map@[x] is Some && sf.slot@[x] != Some(md) ==> {
                &&& s2.fact_map@[x] == sf.fact_map@[x]
                &&& s2.rep@[x] == sf.rep@[x]
                &&& s2.basis@[x] == sf.basis@[x]
                &&& s2.slot@[x] == sf.slot@[x]
                &&& s2.closed@[x] == sf.closed@[x]
            },
    {
        let n = sf.n();
        let p = sf.cx.program;
        let fm = sf.fact_map@;
        let f2 = s2.fact_map@;
        assert(sf.slot@[my_node] is None);
        assert(sf.rep@[my_node] == my_node);
        assert(!sf.closed@[my_node]);
        assert forall|d: int, k: int| 0 <= d < s2.scc_sets@.len() && 0 <= k < s2.scc_sets@[d]@.len() implies
            s2.slot@[#[trigger] s2.scc_sets@[d]@[k] as int] == Some(d) by {
            assert(s2.scc_sets@[d] == sf.scc_sets@[d]);
            assert(sf.slot@[sf.scc_sets@[d]@[k] as int] == Some(d));
        }
        assert forall|x: int| 0 <= x < n && #[trigger] s2.slot@[x] is Some implies {
            &&& 0 <= s2.slot@[x]->Some_0 < s2.scc_sets@.len()
            &&& s2.scc_sets@[s2.slot@[x]->Some_0]@.contains(x as usize)
            &&& f2[x] is Some
            &&& s2.rep@[x] == x
            &&& !s2.closed@[x]
        } by {
            assert(sf.slot@[x] is Some);
            let d = sf.slot@[x]->Some_0;
            assert(d != md);
            assert(s2.scc_sets@[d] == sf.scc_sets@[d]);
            assert(x != my_node);
        }
        assert forall|x: int| 0 <= x < n && #[trigger] s2.closed@[x] implies f2[x] is Some && s2.rep@[x] == x by {
            if x != my_node {
                assert(sf.closed@[x]);
                assert(sf.slot@[x] is None);
            }
        }
        assert forall|x: int| 0 <= x < n && #[trigger] f2[x] is None implies s2.rep@[x] == x by {
            assert(x != my_node);
            if sf.slot@[x] == Some(md) {
            } else {
                assert(fm[x] is None);
            }
        }
        assert forall|x: int| 0 <= x < n && #[trigger] f2[x] is Some implies
            (s2.closed@[x] || s2.slot@[x] is Some || s2.rep@[x] != x) by {
            if x != my_node && sf.slot@[x] != Some(md) {
                assert(fm[x] is Some);
            }
        }
        assert forall|x: int| 0 <= x < n && f2[x] is Some && #[trigger] s2.rep@[x] != x implies {
            &&& 0 <= s2.rep@[x] < n
            &&& s2.closed@[s2.rep@[x]]
            &&& f2[x]->Some_0@ == f2[s2.rep@[x]]->Some_0@
            &&& trace_reaches(p, x, s2.rep@[x])
            &&& trace_reaches(p, s2.rep@[x], x)
        } by {
            if sf.slot@[x] == Some(md) {
            } else {
                assert(x != my_node);
                assert(fm[x] is Some);
                let r = sf.rep@[x];
                assert(sf.closed@[r]);
                assert(sf.slot@[r] is None);
                assert(r != my_node);
            }
        }
        assert forall|x: int| 0 <= x < n && f2[x] is Some && #[trigger] s2.rep@[x] == x && p.fns@[x] is Body implies {
            &&& s2.basis@[x].len() == n
            &&& f2[x]->Some_0@ == body_facts(p, x, s2.basis@[x])
        } by {
            if x != my_node {
                assert(sf.slot@[x] != Some(md));
                assert(fm[x] is Some);
                assert(sf.rep@[x] == x);
            }
        }
        assert forall|x: int| 0 <= x < n && #[trigger] s2.closed@[x] && p.fns@[x] is Body implies
            root_basis_ok(p, f2, s2.basis@, x) by {
            let b = s2.basis@;
            assert forall|k: int| 0 <= k < calls_of(p, x).len() && analyzable(p, #[trigger] calls_of(p, x)[k] as int)
                && calls_of(p, x)[k] as int != x implies {
                let c = calls_of(p, x)[k] as int;
                &&& b[x][c] is Some
                &&& f2[c] is Some
                &&& (b[x][c]->Some_0@ == f2[c]->Some_0@
                    || (p.fns@[c] is Body && b[x][c]->Some_0@ == body_facts(p, c, b[c])))
            } by {
                let c = calls_of(p, x)[k] as int;
                if x == my_node {
                    assert(fm[c] is Some);
                    assert(c != my_node);
                    if sf.slot@[c] == Some(md) {
                        assert(sf.rep@[c] == c);
                        assert(p.fns@[c] is Body);
                    }
                } else {
                    assert(sf.closed@[x]);
                    assert(root_basis_ok(p, fm, sf.basis@, x));
                    assert(fm[c] is Some);
                    assert(c != my_node);
                    if sf.slot@[c] == Some(md) {
                        assert(sf.rep@[c] == c);
                        assert(p.fns@[c] is Body);
                    }
                }
            }
            if x != my_node {
                assert(sf.closed@[x]);
                assert(root_basis_ok(p, fm, sf.basis@, x));
            }
        }
    }

    /// Handing the set of `my_node`, at depth `md`, to its caller's set and recording
    /// `my_node` in the set at depth `mb`, which it reaches back to.
    proof fn lemma_xinv_defer(sf: &Self, s3: &Self, my_node: int, md: int, mb: int)
        requires
            sf.xinv(),
            sf.inv(),
            0 <= my_node < sf.n(),
            0 <= mb < md,
            sf.scc_sets@.len() == md + 1,
            sf.fact_map@[my_node] is None,
            s3.cx.program == sf.cx.program,
            s3.scc_sets@.len() == md,
            forall|d: int| 0 <= d < md ==> (#[trigger] s3.scc_sets@[d])@ == sf.scc_sets@[d]@
                + (if d == md - 1 { sf.scc_sets@[md]@ } else { Seq::empty() })
                + (if d == mb { seq![my_node as usize] } else { Seq::empty() }),
            s3.fact_map@ == sf.fact_map@.update(my_node, s3.fact_map@[my_node]),
            s3.fact_map@[my_node] is Some,
            sf.cx.program.fns@[my_node] is Body ==>
                s3.fact_map@[my_node]->Some_0@ == body_facts(sf.cx.program, my_node, sf.fact_map@),
            s3.rep@ == sf.rep@,
            s3.slot@ == Seq::new(sf.n() as nat, |x: int|
                if x == my_node { Some(mb) } else if sf.slot@[x] == Some(md) { Some(md - 1) } else { sf.slot@[x] }),
            s3.closed@ == sf.closed@,
            s3.basis@ == sf.basis@.update(my_node, sf.fact_map@),
        ensures
            s3.xinv(),
            forall|x: int| 0 <= x < sf.n() && #[trigger] sf.fact_map@[x] is Some && sf.slot@[x] != Some(md) ==> {
                &&& s3.fact_map@[x] == sf.fact_map@[x]
                &&& s3.rep@[x] == sf.rep@[x]
                &&& s3.basis@[x] == sf.basis@[x]
                &&& s3.slot@[x] == sf.slot@[x]
                &&& s3.closed@[x] == sf.closed@[x]
            },
    {
        let n = sf.n();
        let p = sf.cx.program;
        let fm = sf.fact_map@;
        let f3 = s3.fact_map@;
        assert(sf.slot@[my_node] is None);
        assert(sf.rep@[my_node] == my_node);
        assert(!sf.closed@[my_node]);
        assert forall|d: int, k: int| 0 <= d < s3.scc_sets@.len() && 0 <= k < s3.scc_sets@[d]@.len() implies
            s3.slot@[#[trigger] s3.scc_sets@[d]@[k] as int] == Some(d) by {
            let a = sf.scc_sets@[d]@;
            let b = if d == md - 1 { sf.scc_sets@[md]@ } else { Seq::<usize>::empty() };
            let m = s3.scc_sets@[d]@[k] as int;
            if k < a.len() {
                assert(s3.scc_sets@[d]@[k] == a[k]);
                assert(sf.slot@[m] == Some(d));
                assert(sf.slot@[m] is Some);
                assert(fm[m] is Some);
            } else if k < a.len() + b.len() {
                assert(s3.scc_sets@[d]@[k] == b[k - a.len()]);
                assert(sf.slot@[m] == Some(md));
                assert(sf.slot@[m] is Some);
                assert(fm[m] is Some);
            } else {
                assert(d == mb);
                assert(s3.scc_sets@[d]@[k] == my_node as usize);
            }
        }
        assert forall|x: int| 0 <= x < n && #[trigger] s3.slot@[x] is Some implies {
            &&& 0 <= s3.slot@[x]->Some_0 < s3.scc_sets@.len()
            &&& s3.scc_sets@[s3.slot@[x]->Some_0]@.contains(x as usize)
            &&& f3[x] is Some
            &&& s3.rep@[x] == x
            &&& !s3.closed@[x]
        } by {
            let d = s3.slot@[x]->Some_0;
            let sd = s3.scc_sets@[d]@;
            let a = sf.scc_sets@[d]@;
            let b = if d == md - 1 { sf.scc_sets@[md]@ } else { Seq::<usize>::empty() };
            if x == my_node {
                assert(sd[sd.len() - 1] == my_node as usize);
            } else if sf.slot@[x] == Some(md) {
                assert(sf.scc_sets@[md]@.contains(x as usize));
                let j = choose|j: int| 0 <= j < sf.scc_sets@[md]@.len() && sf.scc_sets@[md]@[j] == x as usize;
                assert(sd[a.len() + j] == x as usize);
            } else {
                assert(sf.slot@[x] is Some);
                assert(a.contains(x as usize));
                let j = choose|j: int| 0 <= j < a.len() && a[j] == x as usize;
                assert(sd[j] == x as usize);
            }
        }
        assert forall|x: int| 0 <= x < n && #[trigger] s3.closed@[x] implies f3[x] is Some && s3.rep@[x] == x by {
            assert(sf.closed@[x]);
        }
        assert forall|x: int| 0 <= x < n && #[trigger] f3[x] is None implies s3.rep@[x] == x by {
            assert(x != my_node);
        }
        assert forall|x: int| 0 <= x < n && #[trigger] f3[x] is Some implies
            (s3.closed@[x] || s3.slot@[x] is Some || s3.rep@[x] != x) by {
            if x != my_node {
                assert(fm[x] is Some);
            }
        }
        assert forall|x: int| 0 <= x < n && f3[x] is Some && #[trigger] s3.rep@[x] != x implies {
            &&& 0 <= s3.rep@[x] < n
            &&& s3.closed@[s3.rep@[x]]
            &&& f3[x]->Some_0@ == f3[s3.rep@[x]]->Some_0@
            &&& trace_reaches(p, x, s3.rep@[x])
            &&& trace_reaches(p, s3.rep@[x], x)
        } by {
            assert(x != my_node);
            assert(fm[x] is Some);
            let r = sf.rep@[x];
            assert(sf.closed@[r]);
            assert(r != my_node);
        }
        assert forall|x: int| 0 <= x < n && f3[x] is Some && #[trigger] s3.rep@[x] == x && p.fns@[x] is Body implies {
            &&& s3.basis@[x].len() == n
            &&& f3[x]->Some_0@ == body_facts(p, x, s3.basis@[x])
        } by {
            if x != my_node {
                assert(fm[x] is Some);
            }
        }
        assert forall|x: int| 0 <= x < n && #[trigger] s3.closed@[x] && p.fns@[x] is Body implies
            root_basis_ok(p, f3, s3.basis@, x) by {
            assert(sf.closed@[x]);
            assert(x != my_node);
            assert(root_basis_ok(p, fm, sf.basis@, x));
            assert forall|k: int| 0 <= k < calls_of(p, x).len() && analyzable(p, #[trigger] calls_of(p, x)[k] as int)
                && calls_of(p, x)[k] as int != x implies {
                let c = calls_of(p, x)[k] as int;
                &&& s3.basis@[x][c] is Some
                &&& f3[c] is Some
                &&& (s3.basis@[x][c]->Some_0@ == f3[c]->Some_0@
                    || (p.fns@[c] is Body && s3.basis@[x][c]->Some_0@ == body_facts(p, c, s3.basis@[c])))
            } by {
                let c = calls_of(p, x)[k] as int;
                assert(fm[c] is Some);
                assert(c != my_node);
            }
        }
    }
}

/// What a prefix holds, the whole holds.
pub proof fn lemma_prefix_contains<T>(a: Seq<T>, b: Seq<T>)
    requires
        a.is_prefix_of(b),
    ensures
        forall|v: T| a.contains(v) ==> b.contains(v),
{
    assert forall|v: T| a.contains(v) implies b.contains(v) by {
        let i = choose|i: int| 0 <= i < a.len() && a[i] == v;
        assert(b[i] == v);
    }
}

impl GraphPropagator {
    #[verifier::rlimit(60)]
    fn analyze_inner(&mut self, my_node: usize, my_depth: u32) -> (r: u32)
        requires
            old(self).inv(),
            old(self).acyc_inv(),
            analyzable(old(self).cx.program, my_node as int),
            my_depth as int == old(self).stack@.len(),
            acyclic(old(self).cx.program) ==> forall|i: int| 0 <= i < old(self).stack@.len()
                ==> the_rank(old(self).cx.program)[my_node as int] < the_rank(old(self).cx.program)[#[trigger] old(self).stack@[i] as int],
            old(self).sinv(),
            old(self).xinv(),
            old(self).stack@.len() > 0 ==> edge(old(self).cx.program, old(self).stack@.last() as int, my_node as int),
        ensures
            final(self).inv(),
            final(self).acyc_inv(),
            final(self).sinv(),
            final(self).xinv(),
            old(self).keeps_done(final(self)),
            final(self).scc_sets@.len() == old(self).scc_sets@.len(),
            forall|d: int| 0 <= d < my_depth && #[trigger] final(self).scc_sets@[d]@.len() > old(self).scc_sets@[d]@.len()
                ==> r <= d,
            old(self).depth_map@[my_node as int] is Some ==> r == old(self).depth_map@[my_node as int]->Some_0,
            r < INFINITE_DEPTH ==> trace_reaches(old(self).cx.program, my_node as int, old(self).stack@[r as int] as int),
            acyclic(old(self).cx.program) ==> r == INFINITE_DEPTH,
            acyclic(old(self).cx.program) ==> forall|x: int| 0 <= x < old(self).n() && old(self).fact_map@[x] is Some
                ==> final(self).fact_map@[x] == old(self).fact_map@[x],
            final(self).cx.program == old(self).cx.program,
            final(self).stack@ == old(self).stack@,
            final(self).in_flight@ == old(self).in_flight@,
            old(self).cx.analysis_queue@.is_prefix_of(final(self).cx.analysis_queue@),
            forall|x: int| 0 <= x < old(self).n() && old(self).fact_map@[x] is Some ==> final(self).fact_map@[x] is Some,
            forall|x: int| 0 <= x < old(self).n() ==> final(self).depth_map@[x] == old(self).depth_map@[x],
            final(self).fact_map@[my_node as int] is Some || old(self).depth_map@[my_node as int] is Some,
            old(self).fact_map@[my_node as int] is Some ==> final(self).cx.analysis_queue@ == old(self).cx.analysis_queue@
                && final(self).fact_map@ == old(self).fact_map@,
            r == INFINITE_DEPTH || r < my_depth,
        decreases old(self).measure(), 1nat,
    {
        if self.fact_map[my_node].is_some() {
            return INFINITE_DEPTH;
        }
        if let Some(depth) = self.depth_map[my_node] {
            proof {
                lemma_reach_refl(self.cx.program, my_node as int);
            }
            return depth;
        }
        let ghost fm0 = self.fact_map@;
        let ghost dm0 = self.depth_map@;
        let ghost stack0 = self.stack@;
        let ghost q0 = self.cx.analysis_queue@;
        self.depth_map.set(my_node, Some(my_depth));
        self.scc_sets.push(Vec::new());
        proof {
            self.stack@ = self.stack@.push(my_node);
            assert(seen_of(fm0, dm0)[my_node as int] == false);
            assert(self.seen_seq()[my_node as int]);
            lemma_count_seen_mono(seen_of(fm0, dm0), self.seen_seq());
            lemma_count_seen_bound(self.seen_seq());
            lemma_count_seen_bound(seen_of(fm0, dm0));
            assert(self.inv());
            assert forall|d: int| 0 <= d < self.stack@.len() - 1
                implies #[trigger] edge(self.cx.program, self.stack@[d] as int, self.stack@[d + 1] as int) by {
                if d < stack0.len() - 1 {
                    assert(edge(self.cx.program, stack0[d] as int, stack0[d + 1] as int));
                } else {
                    assert(stack0.last() == stack0[d]);
                }
            }
            assert forall|d: int, k: int| 0 <= d < self.scc_sets@.len() && 0 <= k < self.scc_sets@[d]@.len() implies
                trace_reaches(self.cx.program, #[trigger] self.scc_sets@[d]@[k] as int, self.stack@[d] as int)
                && trace_reaches(self.cx.program, self.stack@[d] as int, self.scc_sets@[d]@[k] as int) by {
                assert(d < stack0.len());
                assert(old(self).scc_sets@[d] == self.scc_sets@[d]);
            }
            assert(self.sinv());
        }
        proof {
            GraphPropagator::lemma_xinv_open(&old(self), self);
        }
        let ghost sa = *self;
        let mut min_back: u32 = INFINITE_DEPTH;
        let my_facts = self.analyze_fn_facts(my_node, my_depth + 1, &mut min_back);
        let ghost sf = *self;
        let ghost sets1 = self.scc_sets@;
        let my_scc_set = self.scc_sets.pop().unwrap();
        let facts_for_scc = my_facts.copy();
        let ghost fm_mid = self.fact_map@;
        let ghost dm_mid = self.depth_map@;
        assert(forall|x: int| 0 <= x < fm0.len() && fm0[x] is Some ==> fm_mid[x] is Some);
        self.fact_map.set(my_node, Some(my_facts));
        self.depth_map.set(my_node, None);
        proof {
            self.basis@ = self.basis@.update(my_node as int, fm_mid);
            self.closed@ = self.closed@.update(my_node as int, min_back == my_depth || min_back == INFINITE_DEPTH);
            self.stack@ = self.stack@.drop_last();
            assert(self.stack@ =~= stack0);
            assert(my_scc_set@ == sets1[my_depth as int]@);
            assert forall|d: int| 0 <= d < self.scc_sets@.len() implies #[trigger] self.scc_sets@[d] == sets1[d] by {}
            assert forall|i: int| 0 <= i < self.seen_seq().len() implies self.seen_seq()[i] == seen_of(fm_mid, dm_mid)[i] by {}
            assert(self.seen_seq() =~= seen_of(fm_mid, dm_mid));
            assert(self.inv());
            assert forall|x: int| 0 <= x < fm0.len() && fm0[x] is Some implies self.fact_map@[x] is Some by {
                assert(fm_mid[x] is Some);
            }
            let p = self.cx.program;
            assert forall|x: int| 0 <= x < self.fact_map@.len() && (#[trigger] self.fact_map@[x]) is Some implies
                borrows_sound(p, x, self.fact_map@[x]->Some_0@) by {
                if x != my_node as int {
                    assert(fm_mid[x] == self.fact_map@[x]);
                }
            }
            assert forall|j: int| 0 <= j < my_scc_set@.len() implies
                trace_reaches(p, #[trigger] my_scc_set@[j] as int, my_node as int) by {
                assert(sets1[my_depth as int]@[j] == my_scc_set@[j]);
            }
            assert(self.sinv());
        }
        proof {
            let p = self.cx.program;
            if acyclic(p) {
                lemma_the_rank(p);
                let fm = self.fact_map@;
                assert(fm_mid[my_node as int] is None);
                assert forall|x: int| 0 <= x < fm.len() && #[trigger] fm[x] is Some && p.fns@[x] is Body implies {
                    &&& forall|k: int| 0 <= k < calls_of(p, x).len() && analyzable(p, #[trigger] calls_of(p, x)[k] as int)
                        ==> fm[calls_of(p, x)[k] as int] is Some
                    &&& fm[x]->Some_0@ == body_facts(p, x, fm)
                } by {
                    assert forall|i: int| 0 <= i < calls_of(p, x).len() implies callee_view(p, fm_mid, #[trigger] calls_of(p, x)[i] as int)
                        == callee_view(p, fm, calls_of(p, x)[i] as int) by {
                        let c = calls_of(p, x)[i] as int;
                        if analyzable(p, c) {
                            if x == my_node as int {
                                assert(the_rank(p)[c] < the_rank(p)[x]);
                            } else {
                                assert(fm_mid[c] is Some);
                            }
                            assert(c != my_node as int);
                        }
                    }
                    lemma_merged_frame(p, x, fm_mid, fm, calls_of(p, x).len());
                    if x != my_node as int {
                        assert(fm_mid[x] is Some);
                    }
                }
                assert(facts_follow_calls(p, fm));
            }
        }
        let ghost fm1 = self.fact_map@;
        let ghost setsp = self.scc_sets@;
        let ghost basis1 = self.basis@;
        let ghost closed1 = self.closed@;
        proof {
            assert(sa.keeps_done(&sf));
            assert forall|j: int| 0 <= j < my_scc_set@.len() implies sf.slot@[#[trigger] my_scc_set@[j] as int] == Some(my_depth as int)
                && my_scc_set@[j] as int != my_node as int by {
                assert(my_scc_set@[j] == sets1[my_depth as int]@[j]);
                let m = my_scc_set@[j] as int;
                assert(0 <= m < sf.n());
                assert(sf.slot@[m] is Some);
                assert(sf.fact_map@[m] is Some);
            }
            if sf.cx.program.fns@[my_node as int] is Body && (min_back == my_depth || min_back == INFINITE_DEPTH) {
                let p = sf.cx.program;
                assert forall|k: int| 0 <= k < calls_of(p, my_node as int).len()
                    && analyzable(p, #[trigger] calls_of(p, my_node as int)[k] as int)
                    && calls_of(p, my_node as int)[k] as int != my_node as int
                    implies sf.fact_map@[calls_of(p, my_node as int)[k] as int] is Some by {
                    let c = calls_of(p, my_node as int)[k] as int;
                    if sf.fact_map@[c] is None {
                        assert(sf.depth_map@[c] is Some);
                        let dc = sf.depth_map@[c]->Some_0 as int;
                        assert(sf.stack@[dc] == c);
                        assert(dc < sf.stack@.len());
                        assert(sf.stack@.len() == my_depth + 1);
                        assert(sf.stack@[my_depth as int] == my_node);
                    }
                }
            }
        }
        let result;
        if min_back == my_depth {
            let cnt = my_scc_set.len();
            for k in 0..cnt
                invariant
                    cnt == my_scc_set@.len(),
                    my_scc_set@ == sets1[my_depth as int]@,
                    forall|j: int| 0 <= j < cnt ==> {
                        let m = #[trigger] my_scc_set@[j] as int;
                        &&& 0 <= m < self.n()
                        &&& !is_tie(self.cx.program, m)
                        &&& self.fact_map@[m] is Some
                    },
                    facts_for_scc.wf(),
                    self.inv(),
                    self.stack@ == stack0,
                    self.depth_map@ == dm0,
                    q0.is_prefix_of(self.cx.analysis_queue@),
                    self.fact_map@.len() == fm1.len(),
                    forall|x: int| 0 <= x < fm1.len() && fm1[x] is Some ==> self.fact_map@[x] is Some,
                    my_node < fm1.len(),
                    self.fact_map@[my_node as int] is Some,
                    self.cx.program == old(self).cx.program,
                    self.in_flight@ == old(self).in_flight@,
                    self.sinv(),
                    forall|j: int| 0 <= j < cnt ==> trace_reaches(self.cx.program, #[trigger] my_scc_set@[j] as int, my_node as int),
                    borrows_sound(self.cx.program, my_node as int, facts_for_scc@),
                    self.rep@ == sf.rep@,
                    self.slot@ == sf.slot@,
                    self.basis@ == basis1,
                    self.closed@ == closed1,
                    self.scc_sets@ == setsp,
                    facts_for_scc@ == fm1[my_node as int]->Some_0@,
                    self.fact_map@[my_node as int] == fm1[my_node as int],
                    forall|j: int| 0 <= j < cnt ==> sf.slot@[#[trigger] my_scc_set@[j] as int] == Some(my_depth as int)
                        && my_scc_set@[j] as int != my_node as int,
                    forall|x: int| 0 <= x < fm1.len() && x != my_node as int && #[trigger] sf.slot@[x] != Some(my_depth as int)
                        ==> self.fact_map@[x] == fm1[x],
                    forall|j: int| 0 <= j < k ==> self.fact_map@[#[trigger] my_scc_set@[j] as int] is Some
                        && self.fact_map@[my_scc_set@[j] as int]->Some_0@ == facts_for_scc@,
            {
                let m = my_scc_set[k];
                let ghost fmb = self.fact_map@;
                let copied = facts_for_scc.copy();
                proof {
                    lemma_sound_shift(self.cx.program, m as int, my_node as int, facts_for_scc@);
                }
                self.fact_map.set(m, Some(copied));
                proof {
                    assert forall|x: int| 0 <= x < self.fact_map@.len() && (#[trigger] self.fact_map@[x]) is Some implies
                        borrows_sound(self.cx.program, x, self.fact_map@[x]->Some_0@) by {
                        if x != m as int {
                            assert(fmb[x] == self.fact_map@[x]);
                        }
                    }
                    assert(self.seen_seq() =~= seen_of(fmb, self.depth_map@));
                    assert forall|x: int| 0 <= x < fm1.len() && fm1[x] is Some implies self.fact_map@[x] is Some by {
                        if x != m as int {
                            assert(fmb[x] is Some);
                        }
                    }
                    assert(fmb[my_node as int] is Some);
                    assert(self.fact_map@[my_node as int] is Some);
                    assert(sf.slot@[m as int] == Some(my_depth as int));
                    assert(m as int != my_node as int);
                    assert forall|j: int| 0 <= j < k + 1 implies self.fact_map@[#[trigger] my_scc_set@[j] as int] is Some
                        && self.fact_map@[my_scc_set@[j] as int]->Some_0@ == facts_for_scc@ by {
                        if my_scc_set@[j] != m {
                            assert(fmb[my_scc_set@[j] as int] == self.fact_map@[my_scc_set@[j] as int]);
                        }
                    }
                }
            }
            proof {
                let n = self.n();
                let md = my_depth as int;
                assert forall|x: int| 0 <= x < n && x != my_node as int && #[trigger] sf.slot@[x] == Some(md) implies
                    self.fact_map@[x] is Some && self.fact_map@[x]->Some_0@ == self.fact_map@[my_node as int]->Some_0@
                    && trace_reaches(sf.cx.program, x, my_node as int) && trace_reaches(sf.cx.program, my_node as int, x) by {
                    assert(sf.scc_sets@[md]@.contains(x as usize));
                    let j = choose|j: int| 0 <= j < sf.scc_sets@[md]@.len() && sf.scc_sets@[md]@[j] == x as usize;
                    assert(my_scc_set@[j] == x as usize);
                    assert(trace_reaches(sf.cx.program, sf.scc_sets@[md]@[j] as int, sf.stack@[md] as int));
                    assert(sf.stack@[md] == my_node);
                }
                self.rep@ = Seq::new(n as nat, |x: int| if sf.slot@[x] == Some(md) { my_node as int } else { sf.rep@[x] });
                self.slot@ = Seq::new(n as nat, |x: int| if sf.slot@[x] == Some(md) { None } else { sf.slot@[x] });
                assert forall|d: int| 0 <= d < md implies #[trigger] self.scc_sets@[d] == sf.scc_sets@[d] by {}
                GraphPropagator::lemma_xinv_close(&sf, self, my_node as int, md);
            }
            result = INFINITE_DEPTH;
        } else if min_back == INFINITE_DEPTH {
            proof {
                let n = self.n();
                let md = my_depth as int;
                if sets1[md]@.len() > 0 {
                    assert(sf.scc_sets@[md]@.len() > sa.scc_sets@[md]@.len());
                }
                assert forall|x: int| 0 <= x < n implies #[trigger] sf.slot@[x] != Some(md) by {
                    if sf.slot@[x] == Some(md) {
                        assert(sf.scc_sets@[md]@.contains(x as usize));
                    }
                }
                assert(self.rep@ =~= Seq::new(n as nat, |x: int| if sf.slot@[x] == Some(md) { my_node as int } else { sf.rep@[x] }));
                assert(self.slot@ =~= Seq::new(n as nat, |x: int| if sf.slot@[x] == Some(md) { None } else { sf.slot@[x] }));
                assert forall|d: int| 0 <= d < md implies #[trigger] self.scc_sets@[d] == sf.scc_sets@[d] by {}
                GraphPropagator::lemma_xinv_close(&sf, self, my_node as int, md);
            }
            result = INFINITE_DEPTH;
        } else {
            proof {
                assert(min_back < my_depth);
                let st = stack0.push(my_node);
                assert(st[min_back as int] == stack0[min_back as int]);
                assert forall|d: int| 0 <= d < stack0.len() - 1
                    implies #[trigger] edge(self.cx.program, stack0[d] as int, stack0[d + 1] as int) by {
                    assert(self.stack@ == stack0);
                }
                lemma_stack_reach(self.cx.program, stack0, min_back as int, my_depth - 1);
                lemma_reach_trans(self.cx.program, my_node as int, stack0[min_back as int] as int, stack0[my_depth - 1] as int);
            }
            let last = self.scc_sets.len() - 1;
            let cnt = my_scc_set.len();
            proof {
                assert forall|j: int| 0 <= j < cnt implies trace_reaches(self.cx.program, my_node as int, #[trigger] my_scc_set@[j] as int) by {
                    assert(my_scc_set@[j] == sets1[my_depth as int]@[j]);
                    assert(sf.stack@[my_depth as int] == my_node);
                }
                assert(stack0.last() == stack0[last as int]);
                lemma_reach_edge(self.cx.program, stack0[last as int] as int, my_node as int);
            }
            for k in 0..cnt
                invariant
                    cnt == my_scc_set@.len(),
                    my_scc_set@ == sets1[my_depth as int]@,
                    forall|j: int| 0 <= j < cnt ==> {
                        let m = #[trigger] my_scc_set@[j] as int;
                        &&& 0 <= m < self.n()
                        &&& !is_tie(self.cx.program, m)
                        &&& self.fact_map@[m] is Some
                    },
                    last + 1 == self.scc_sets@.len(),
                    self.inv(),
                    self.stack@ == stack0,
                    self.depth_map@ == dm0,
                    self.fact_map@ == fm1,
                    self.cx.program == old(self).cx.program,
                    self.in_flight@ == old(self).in_flight@,
                    q0.is_prefix_of(self.cx.analysis_queue@),
                    self.sinv(),
                    forall|j: int| 0 <= j < cnt ==> trace_reaches(self.cx.program, #[trigger] my_scc_set@[j] as int, my_node as int),
                    last + 1 == my_depth,
                    trace_reaches(self.cx.program, my_node as int, stack0[last as int] as int),
                    self.scc_sets@[last as int]@ == setsp[last as int]@ + my_scc_set@.take(k as int),
                    forall|d: int| 0 <= d < setsp.len() && d != last as int ==> #[trigger] self.scc_sets@[d] == setsp[d],
                    setsp.len() == last + 1,
                    self.rep@ == sf.rep@,
                    self.slot@ == sf.slot@,
                    self.basis@ == basis1,
                    self.closed@ == closed1,
                    forall|j: int| 0 <= j < cnt ==> trace_reaches(self.cx.program, my_node as int, #[trigger] my_scc_set@[j] as int),
                    trace_reaches(self.cx.program, stack0[last as int] as int, my_node as int),
            {
                let m = my_scc_set[k];
                let ghost sb = self.scc_sets@;
                self.scc_sets[last].push(m);
                proof {
                    assert(my_scc_set@.take(k + 1) =~= my_scc_set@.take(k as int).push(m));
                    assert(self.scc_sets@[last as int]@ =~= setsp[last as int]@ + my_scc_set@.take(k + 1));
                    lemma_reach_trans(self.cx.program, m as int, my_node as int, stack0[last as int] as int);
                    lemma_reach_trans(self.cx.program, stack0[last as int] as int, my_node as int, m as int);
                    assert forall|d: int, k2: int| 0 <= d < self.scc_sets@.len() && 0 <= k2 < self.scc_sets@[d]@.len() implies
                        trace_reaches(self.cx.program, #[trigger] self.scc_sets@[d]@[k2] as int, self.stack@[d] as int)
                        && trace_reaches(self.cx.program, self.stack@[d] as int, self.scc_sets@[d]@[k2] as int) by {
                        if d != last as int || k2 < sb[d]@.len() {
                            assert(self.scc_sets@[d]@[k2] == sb[d]@[k2]);
                        }
                    }
                }
            }
            proof {
                assert(my_scc_set@.take(cnt as int) =~= my_scc_set@);
            }
            result = min_back;
        }
        if min_back != INFINITE_DEPTH && min_back != my_depth {
            let ghost sb = self.scc_sets@;
            self.scc_sets[min_back as usize].push(my_node);
            proof {
                assert(stack0.last() == stack0[my_depth - 1]);
                lemma_reach_edge(self.cx.program, stack0[my_depth - 1] as int, my_node as int);
                lemma_stack_reach(self.cx.program, stack0, min_back as int, my_depth - 1);
                lemma_reach_trans(self.cx.program, stack0[min_back as int] as int, stack0[my_depth - 1] as int, my_node as int);
                assert forall|d: int, k2: int| 0 <= d < self.scc_sets@.len() && 0 <= k2 < self.scc_sets@[d]@.len() implies
                    trace_reaches(self.cx.program, #[trigger] self.scc_sets@[d]@[k2] as int, self.stack@[d] as int)
                    && trace_reaches(self.cx.program, self.stack@[d] as int, self.scc_sets@[d]@[k2] as int) by {
                    if d != min_back as int || k2 < sb[d]@.len() {
                        assert(self.scc_sets@[d]@[k2] == sb[d]@[k2]);
                    }
                }
                let n = self.n();
                let md = my_depth as int;
                let mb = min_back as int;
                assert forall|d: int| 0 <= d < md implies (#[trigger] self.scc_sets@[d])@ == sf.scc_sets@[d]@
                    + (if d == md - 1 { sf.scc_sets@[md]@ } else { Seq::empty() })
                    + (if d == mb { seq![my_node as usize] } else { Seq::empty() }) by {
                    assert(setsp[d] == sf.scc_sets@[d]);
                    if d == mb {
                        assert(self.scc_sets@[d]@ =~= sb[d]@.push(my_node));
                    }
                }
                assert(self.fact_map@ =~= sf.fact_map@.update(my_node as int, self.fact_map@[my_node as int]));
                self.slot@ = Seq::new(n as nat, |x: int|
                    if x == my_node as int { Some(mb) } else if sf.slot@[x] == Some(md) { Some(md - 1) } else { sf.slot@[x] });
                assert(closed1 =~= sf.closed@);
                GraphPropagator::lemma_xinv_defer(&sf, self, my_node as int, md, mb);
            }
        }
        proof {
            let md = my_depth as int;
            assert forall|x: int| 0 <= x < old(self).n() && #[trigger] old(self).fact_map@[x] is Some implies
                sf.fact_map@[x] is Some && sf.slot@[x] != Some(md) by {
                assert(sa.fact_map@[x] is Some);
                if old(self).slot@[x] is Some {
                    assert(old(self).slot@[x]->Some_0 < old(self).scc_sets@.len());
                }
            }
            assert(old(self).keeps_done(&*self));
            assert forall|d: int| 0 <= d < my_depth && #[trigger] self.scc_sets@[d]@.len() > old(self).scc_sets@[d]@.len()
                implies result <= d by {
                assert(sa.scc_sets@[d] == old(self).scc_sets@[d]);
                if sf.scc_sets@[d]@.len() > sa.scc_sets@[d]@.len() {
                } else {
                    assert(min_back != my_depth && min_back != INFINITE_DEPTH);
                }
            }
        }
        result
    }

    fn analyze_fn_facts(&mut self, node: usize, child_depth: u32, min_back: &mut u32) -> (r: BorrowMap)
        requires
            old(self).inv(),
            old(self).acyc_inv(),
            analyzable(old(self).cx.program, node as int),
            old(self).stack@.len() == child_depth as int,
            child_depth >= 1,
            old(self).stack@[child_depth - 1] == node,
            *old(min_back) == INFINITE_DEPTH,
            old(self).sinv(),
            old(self).xinv(),
        ensures
            final(self).inv(),
            final(self).acyc_inv(),
            final(self).sinv(),
            final(self).xinv(),
            old(self).keeps_done(final(self)),
            final(self).scc_sets@.len() == old(self).scc_sets@.len(),
            forall|d: int| 0 <= d < child_depth && #[trigger] final(self).scc_sets@[d]@.len() > old(self).scc_sets@[d]@.len()
                ==> *final(min_back) <= d,
            old(self).cx.program.fns@[node as int] is Body ==> r@ == body_facts(old(self).cx.program, node as int, final(self).fact_map@),
            *final(min_back) < INFINITE_DEPTH
                ==> trace_reaches(old(self).cx.program, node as int, old(self).stack@[*final(min_back) as int] as int),
            borrows_sound(old(self).cx.program, node as int, r@),
            final(self).cx.program == old(self).cx.program,
            final(self).stack@ == old(self).stack@,
            final(self).in_flight@ == old(self).in_flight@,
            old(self).cx.analysis_queue@.is_prefix_of(final(self).cx.analysis_queue@),
            forall|x: int| 0 <= x < old(self).n() && old(self).fact_map@[x] is Some ==> final(self).fact_map@[x] is Some,
            forall|x: int| 0 <= x < old(self).n() ==> final(self).depth_map@[x] == old(self).depth_map@[x],
            *final(min_back) == INFINITE_DEPTH || *final(min_back) < child_depth,
            acyclic(old(self).cx.program) ==> *final(min_back) == INFINITE_DEPTH,
            acyclic(old(self).cx.program) ==> forall|x: int| 0 <= x < old(self).n() && old(self).fact_map@[x] is Some
                ==> final(self).fact_map@[x] == old(self).fact_map@[x],
            acyclic(old(self).cx.program) && old(self).cx.program.fns@[node as int] is Body ==> {
                &&& r@ == body_facts(old(self).cx.program, node as int, final(self).fact_map@)
                &&& forall|k: int| 0 <= k < calls_of(old(self).cx.program, node as int).len()
                    && analyzable(old(self).cx.program, #[trigger] calls_of(old(self).cx.program, node as int)[k] as int)
                    ==> final(self).fact_map@[calls_of(old(self).cx.program, node as int)[k] as int] is Some
            },
            is_tie(old(self).cx.program, node as int) ==> *final(min_back) == INFINITE_DEPTH
                && r@ == tie_view(old(self).cx.program, node as int)
                && *final(self) == *old(self),
            r.wf(),
            forall|k: int| 0 <= k < calls_of(old(self).cx.program, node as int).len()
                && analyzable(old(self).cx.program, #[trigger] calls_of(old(self).cx.program, node as int)[k] as int) ==>
                final(self).fact_map@[calls_of(old(self).cx.program, node as int)[k] as int] is Some
                || (final(self).depth_map@[calls_of(old(self).cx.program, node as int)[k] as int] is Some
                    && *final(min_back) <= final(self).depth_map@[calls_of(old(self).cx.program, node as int)[k] as int]->Some_0),
            forall|k: int| 0 <= k < unsized_of(old(self).cx.program, node as int).len()
                && analyzable(old(self).cx.program, #[trigger] unsized_of(old(self).cx.program, node as int)[k] as int) ==>
                final(self).cx.analysis_queue@.contains(unsized_of(old(self).cx.program, node as int)[k]),
        decreases old(self).measure(), 2nat,
    {
        match &self.cx.program.fns[node] {
            FnKind::Tie { set, .. } => {
                proof {
                    lemma_tie_sound(self.cx.program, node as int);
                }
                return instantiate_set(set);
            },
            _ => {},
        }
        let ghost fm0 = self.fact_map@;
        let ghost dm0 = self.depth_map@;
        let ghost q0 = self.cx.analysis_queue@;
        let ghost stack0 = self.stack@;
        let ghost p = self.cx.program;
        assert(seen_of(fm0, dm0) == old(self).seen_seq());
        let nu = self.unsized_count(node);
        for j in 0..nu
            invariant
                nu == unsized_of(p, node as int).len(),
                p == self.cx.program,
                self.in_flight@ == old(self).in_flight@,
                self.fact_map@ == fm0,
                self.depth_map@ == dm0,
                self.stack@ == stack0,
                self.inv(),
                self.acyc_inv(),
                self.sinv(),
                self.scc_sets@ == old(self).scc_sets@,
                self.rep@ == old(self).rep@,
                self.basis@ == old(self).basis@,
                self.slot@ == old(self).slot@,
                self.closed@ == old(self).closed@,
                self.xinv(),
                q0.is_prefix_of(self.cx.analysis_queue@),
                node < p.fns@.len(),
                forall|k: int| 0 <= k < j && analyzable(p, #[trigger] unsized_of(p, node as int)[k] as int) ==>
                    self.cx.analysis_queue@.contains(unsized_of(p, node as int)[k]),
        {
            let u = self.unsized_at(node, j);
            if self.should_analyze(u) {
                let ghost qa = self.cx.analysis_queue@;
                self.cx.analysis_queue.push(u);
                proof {
                    assert(qa.is_prefix_of(self.cx.analysis_queue@));
                    lemma_prefix_contains(qa, self.cx.analysis_queue@);
                    assert(self.cx.analysis_queue@[qa.len() as int] == u);
                    assert(q0.is_prefix_of(self.cx.analysis_queue@));
                    assert(self.inv());
                }
            }
        }
        let mut borrows = BorrowMap::new();
        let nc = self.call_count(node);
        assert(old(self).keeps_done(&*self));
        for k in 0..nc
            invariant
                nc == calls_of(p, node as int).len(),
                p == self.cx.program,
                self.in_flight@ == old(self).in_flight@,
                node < p.fns@.len(),
                stack0.len() == child_depth,
                borrows.wf(),
                self.inv(),
                self.acyc_inv(),
                self.sinv(),
                borrows_sound(p, node as int, borrows@),
                *min_back < INFINITE_DEPTH ==> trace_reaches(p, node as int, stack0[*min_back as int] as int),
                p.fns@[node as int] is Body,
                self.stack@ == stack0,
                self.fact_map@.len() == fm0.len(),
                *min_back == INFINITE_DEPTH || *min_back < child_depth,
                stack0 == old(self).stack@,
                stack0[child_depth - 1] == node,
                fm0 == old(self).fact_map@,
                acyclic(p) ==> *min_back == INFINITE_DEPTH,
                acyclic(p) ==> forall|x: int| 0 <= x < fm0.len() && fm0[x] is Some ==> self.fact_map@[x] == fm0[x],
                borrows@ == merged_calls(p, node as int, self.fact_map@, k as nat),
                p == old(self).cx.program,
                self.xinv(),
                old(self).keeps_done(self),
                self.scc_sets@.len() == old(self).scc_sets@.len(),
                forall|d: int| 0 <= d < child_depth && #[trigger] self.scc_sets@[d]@.len() > old(self).scc_sets@[d]@.len()
                    ==> *min_back <= d,
                acyclic(p) ==> forall|i: int| 0 <= i < k && analyzable(p, #[trigger] calls_of(p, node as int)[i] as int) ==>
                    self.fact_map@[calls_of(p, node as int)[i] as int] is Some,
                forall|x: int| 0 <= x < fm0.len() && fm0[x] is Some ==> self.fact_map@[x] is Some,
                forall|x: int| 0 <= x < fm0.len() ==> self.depth_map@[x] == dm0[x],
                q0.is_prefix_of(self.cx.analysis_queue@),
                count_seen(seen_of(fm0, dm0)) <= count_seen(self.seen_seq()),
                old(self).seen_seq() == seen_of(fm0, dm0),
                old(self).fact_map@.len() == fm0.len(),
                forall|k2: int| 0 <= k2 < unsized_of(p, node as int).len()
                    && analyzable(p, #[trigger] unsized_of(p, node as int)[k2] as int) ==>
                    self.cx.analysis_queue@.contains(unsized_of(p, node as int)[k2]),
                forall|i: int| 0 <= i < k && analyzable(p, #[trigger] calls_of(p, node as int)[i] as int) ==>
                    self.fact_map@[calls_of(p, node as int)[i] as int] is Some
                    || (self.depth_map@[calls_of(p, node as int)[i] as int] is Some
                        && *min_back <= self.depth_map@[calls_of(p, node as int)[i] as int]->Some_0),
        {
            let target = self.call_at(node, k);
            let ghost fm_k = self.fact_map@;
            let ghost borrows_k = borrows@;
            let ghost sk = *self;
            let ghost mbk = *min_back;
            if self.should_analyze(target) {
                let ghost qb = self.cx.analysis_queue@;
                let ghost fmb = self.fact_map@;
                let ghost dmb = self.depth_map@;
                proof {
                    lemma_count_seen_bound(self.seen_seq());
                    lemma_count_seen_bound(seen_of(fm0, dm0));
                    if acyclic(p) {
                        lemma_the_rank(p);
                        let rank = the_rank(p);
                        assert(rank[target as int] < rank[node as int]);
                        assert forall|i: int| 0 <= i < self.stack@.len()
                            implies rank[target as int] < rank[#[trigger] self.stack@[i] as int] by {
                            if i < child_depth - 1 {
                                assert(rank[self.stack@[child_depth - 1] as int] < rank[self.stack@[i] as int]);
                            }
                        }
                        if self.depth_map@[target as int] is Some {
                            let d = self.depth_map@[target as int]->Some_0 as int;
                            assert(self.stack@[d] == target);
                        }
                    }
                }
                assert(self.measure() <= old(self).measure());
                proof {
                    assert(calls_of(p, node as int)[k as int] == target);
                    assert(edge(p, node as int, target as int));
                    assert(self.stack@.last() == node);
                }
                let d = self.analyze_inner(target, child_depth);
                proof {
                    lemma_reach_edge(p, node as int, target as int);
                    if d < INFINITE_DEPTH {
                        lemma_reach_trans(p, node as int, target as int, stack0[d as int] as int);
                    }
                }
                proof {
                    lemma_prefix_contains(qb, self.cx.analysis_queue@);
                    assert(q0.is_prefix_of(self.cx.analysis_queue@));
                    lemma_count_seen_mono(seen_of(fmb, dmb), self.seen_seq());
                }
                if d < *min_back {
                    *min_back = d;
                }
                let lt = self.lifetime_of(target);
                match &self.fact_map[target] {
                    Some(tf) => {
                        proof {
                            assert(borrows_sound(p, target as int, tf@));
                            lemma_sound_shift(p, node as int, target as int, tf@);
                            lemma_merge_sound(p, node as int, borrows@, tf@, lt);
                        }
                        merge_callee_into(&mut borrows, tf, lt)
                    },
                    None => {},
                }
                proof {
                    assert forall|i: int| 0 <= i < k implies callee_view(p, fm_k, #[trigger] calls_of(p, node as int)[i] as int)
                        == callee_view(p, self.fact_map@, calls_of(p, node as int)[i] as int) by {
                        let c = calls_of(p, node as int)[i] as int;
                        if analyzable(p, c) {
                            if fm_k[c] is Some {
                                assert(sk.fact_map@[c] is Some);
                            } else {
                                assert(dmb[c] is Some);
                                assert(self.depth_map@[c] is Some);
                            }
                        }
                    }
                    lemma_merged_frame(p, node as int, fm_k, self.fact_map@, k as nat);
                    assert(borrows@ == merged_calls(p, node as int, self.fact_map@, (k + 1) as nat));
                    GraphPropagator::lemma_keeps_trans(&old(self), &sk, self);
                    if acyclic(p) {
                        assert(self.fact_map@[target as int] is Some);
                        assert forall|x: int| 0 <= x < fm0.len() && fm0[x] is Some implies self.fact_map@[x] == fm0[x] by {
                            assert(fm_k[x] == fm0[x]);
                        }
                    }
                    assert forall|i: int| 0 <= i < k + 1 && analyzable(p, #[trigger] calls_of(p, node as int)[i] as int) implies
                        self.fact_map@[calls_of(p, node as int)[i] as int] is Some
                        || (self.depth_map@[calls_of(p, node as int)[i] as int] is Some
                            && *min_back <= self.depth_map@[calls_of(p, node as int)[i] as int]->Some_0) by {
                        let c = calls_of(p, node as int)[i] as int;
                        if i < k {
                            if fm_k[c] is Some {
                                assert(sk.fact_map@[c] is Some);
                            } else {
                                assert(dmb[c] is Some);
                            }
                        } else {
                            assert(c == target as int);
                            if self.fact_map@[c] is None {
                                assert(dmb[c] is Some);
                            }
                        }
                    }
                    assert forall|dd: int| 0 <= dd < child_depth && #[trigger] self.scc_sets@[dd]@.len() > old(self).scc_sets@[dd]@.len()
                        implies *min_back <= dd by {
                        if sk.scc_sets@[dd]@.len() > old(self).scc_sets@[dd]@.len() {
                        } else {
                            assert(self.scc_sets@[dd]@.len() > sk.scc_sets@[dd]@.len());
                        }
                    }
                }
            } else {
                proof {
                    assert(merge_callee(borrows_k, Map::empty(), tie_lifetime(p, target as int)) =~= borrows_k);
                    assert(borrows@ == merged_calls(p, node as int, self.fact_map@, (k + 1) as nat));
                }
            }
        }
        match &self.cx.program.fns[node] {
            FnKind::Body { absorb: Some(set), .. } => {
                let s = instantiate_set(set);
                proof {
                    lemma_absorb_sound(p, node as int, borrows@, s@);
                }
                absorb_set(&mut borrows, &s);
            },
            _ => {},
        }
        borrows
    }
}


/// A chain of calls between analyzable functions, possibly empty, leads from `a` to `b`.
pub open spec fn trace_reaches(p: TraceProgram, a: int, b: int) -> bool {
    exists|path: Seq<int>| path.len() >= 1 && path[0] == a && path.last() == b
        && forall|i: int| 0 <= i < path.len() - 1 ==> #[trigger] edge(p, path[i], path[i + 1])
}

/// A tie function that `x` reaches declares a borrow of token `k`, a mutable one
/// where `mutable` is set.
pub open spec fn tie_declares(p: TraceProgram, x: int, k: u64, mutable: bool) -> bool {
    exists|t: int| #[trigger] trace_reaches(p, x, t) && is_tie(p, t) && tie_view(p, t).contains_key(k)
        && (mutable ==> tie_view(p, t)[k].0 == Mutability::Mut)
}

/// Every borrow in `m` comes from a tie function that `x` reaches, and a mutable one
/// from a tie function declaring it mutable.
pub open spec fn borrows_sound(p: TraceProgram, x: int, m: Map<u64, BorrowValue>) -> bool {
    forall|k: u64| #[trigger] m.contains_key(k) ==> tie_declares(p, x, k, false)
        && (m[k].0 == Mutability::Mut ==> tie_declares(p, x, k, true))
}

/// No recorded fact invents a borrow: each comes from a tie function the function reaches.
pub open spec fn facts_sound(p: TraceProgram, fm: Seq<Option<BorrowMap>>) -> bool {
    forall|x: int| 0 <= x < fm.len() && (#[trigger] fm[x]) is Some ==> borrows_sound(p, x, fm[x]->Some_0@)
}

proof fn lemma_reach_refl(p: TraceProgram, a: int)
    ensures
        trace_reaches(p, a, a),
{
    let path = seq![a];
    assert(path.last() == a);
    assert(forall|i: int| 0 <= i < path.len() - 1 ==> #[trigger] edge(p, path[i], path[i + 1]));
}

proof fn lemma_reach_trans(p: TraceProgram, a: int, b: int, c: int)
    requires
        trace_reaches(p, a, b),
        trace_reaches(p, b, c),
    ensures
        trace_reaches(p, a, c),
{
    let p1 = choose|path: Seq<int>| path.len() >= 1 && path[0] == a && path.last() == b
        && forall|i: int| 0 <= i < path.len() - 1 ==> #[trigger] edge(p, path[i], path[i + 1]);
    let p2 = choose|path: Seq<int>| path.len() >= 1 && path[0] == b && path.last() == c
        && forall|i: int| 0 <= i < path.len() - 1 ==> #[trigger] edge(p, path[i], path[i + 1]);
    let np = p1 + p2.drop_first();
    let m = p1.len() as int;
    assert forall|i: int| 0 <= i < np.len() - 1 implies #[trigger] edge(p, np[i], np[i + 1]) by {
        if i < m - 1 {
            assert(np[i] == p1[i]);
            assert(np[i + 1] == p1[i + 1]);
        } else {
            let j = i - (m - 1);
            assert(np[i] == p2[j]) by {
                if i == m - 1 {
                    assert(np[i] == p1[m - 1]);
                    assert(p1[m - 1] == p1.last());
                } else {
                    assert(np[i] == p2.drop_first()[i - m]);
                }
            }
            assert(np[i + 1] == p2.drop_first()[i + 1 - m]);
            assert(np[i + 1] == p2[j + 1]);
            assert(edge(p, p2[j], p2[j + 1]));
        }
    }
    assert(np[0] == a);
    if p2.len() == 1 {
        assert(np =~= p1);
    } else {
        assert(np.last() == p2.last());
    }
}

proof fn lemma_reach_edge(p: TraceProgram, a: int, b: int)
    requires
        edge(p, a, b),
    ensures
        trace_reaches(p, a, b),
{
    let path = seq![a, b];
    assert(path.last() == b);
    assert forall|i: int| 0 <= i < path.len() - 1 implies #[trigger] edge(p, path[i], path[i + 1]) by {
        assert(i == 0);
    }
}

/// What `y` soundly holds, `x` holds soundly too when it reaches `y`.
proof fn lemma_sound_shift(p: TraceProgram, x: int, y: int, m: Map<u64, BorrowValue>)
    requires
        borrows_sound(p, y, m),
        trace_reaches(p, x, y),
    ensures
        borrows_sound(p, x, m),
{
    assert forall|k: u64| #[trigger] m.contains_key(k) implies tie_declares(p, x, k, false)
        && (m[k].0 == Mutability::Mut ==> tie_declares(p, x, k, true)) by {
        let t = choose|t: int| #[trigger] trace_reaches(p, y, t) && is_tie(p, t) && tie_view(p, t).contains_key(k);
        lemma_reach_trans(p, x, y, t);
        if m[k].0 == Mutability::Mut {
            let t2 = choose|t: int| #[trigger] trace_reaches(p, y, t) && is_tie(p, t) && tie_view(p, t).contains_key(k)
                && tie_view(p, t)[k].0 == Mutability::Mut;
            lemma_reach_trans(p, x, y, t2);
        }
    }
}

proof fn lemma_merge_sound(p: TraceProgram, x: int, acc: Map<u64, BorrowValue>, callee: Map<u64, BorrowValue>, lt: Option<u64>)
    requires
        borrows_sound(p, x, acc),
        borrows_sound(p, x, callee),
    ensures
        borrows_sound(p, x, merge_callee(acc, callee, lt)),
{
    let m = merge_callee(acc, callee, lt);
    assert forall|k: u64| #[trigger] m.contains_key(k) implies tie_declares(p, x, k, false)
        && (m[k].0 == Mutability::Mut ==> tie_declares(p, x, k, true)) by {
        if callee.contains_key(k) {
            assert(callee.contains_key(k));
            if acc.contains_key(k) {
                assert(acc.contains_key(k));
            }
        } else {
            assert(acc.contains_key(k));
        }
    }
}

proof fn lemma_absorb_sound(p: TraceProgram, x: int, m: Map<u64, BorrowValue>, set: Map<u64, BorrowValue>)
    requires
        borrows_sound(p, x, m),
    ensures
        borrows_sound(p, x, absorbed(m, set)),
{
    let a = absorbed(m, set);
    assert forall|k: u64| #[trigger] a.contains_key(k) implies tie_declares(p, x, k, false)
        && (a[k].0 == Mutability::Mut ==> tie_declares(p, x, k, true)) by {
        assert(m.contains_key(k));
    }
}

proof fn lemma_tie_sound(p: TraceProgram, t: int)
    requires
        is_tie(p, t),
    ensures
        borrows_sound(p, t, tie_view(p, t)),
{
    lemma_reach_refl(p, t);
}

/// Consecutive entries of `stack` are calls, so each entry reaches every later one.
proof fn lemma_stack_reach(p: TraceProgram, stack: Seq<usize>, i: int, j: int)
    requires
        0 <= i <= j < stack.len(),
        forall|d: int| 0 <= d < stack.len() - 1 ==> #[trigger] edge(p, stack[d] as int, stack[d + 1] as int),
    ensures
        trace_reaches(p, stack[i] as int, stack[j] as int),
    decreases j - i,
{
    if i == j {
        lemma_reach_refl(p, stack[i] as int);
    } else {
        lemma_stack_reach(p, stack, i + 1, j);
        assert(edge(p, stack[i] as int, stack[i + 1] as int));
        lemma_reach_edge(p, stack[i] as int, stack[i + 1] as int);
        lemma_reach_trans(p, stack[i] as int, stack[i + 1] as int, stack[j] as int);
    }
}

/// `rank` strictly decreases along every call from a function to an analyzable one.
pub open spec fn ranks_calls(p: TraceProgram, rank: Seq<nat>) -> bool {
    &&& rank.len() == p.fns@.len()
    &&& forall|x: int, k: int| 0 <= x < p.fns@.len() && 0 <= k < calls_of(p, x).len()
        && analyzable(p, #[trigger] calls_of(p, x)[k] as int) ==> rank[calls_of(p, x)[k] as int] < rank[x]
}

/// No function reaches itself through calls between analyzable functions.
pub open spec fn acyclic(p: TraceProgram) -> bool {
    exists|rank: Seq<nat>| ranks_calls(p, rank)
}

pub open spec fn the_rank(p: TraceProgram) -> Seq<nat> {
    choose|rank: Seq<nat>| ranks_calls(p, rank)
}

/// The borrows a call of `c` contributes, given the facts `fm`.
pub open spec fn callee_view(p: TraceProgram, fm: Seq<Option<BorrowMap>>, c: int) -> Map<u64, BorrowValue> {
    if analyzable(p, c) && fm[c] is Some { fm[c]->Some_0@ } else { Map::empty() }
}

/// The borrows of the first `k` calls of function `x`, merged in call order.
pub open spec fn merged_calls(p: TraceProgram, x: int, fm: Seq<Option<BorrowMap>>, k: nat) -> Map<u64, BorrowValue>
    decreases k,
{
    if k == 0 {
        Map::empty()
    } else {
        let c = calls_of(p, x)[k - 1] as int;
        merge_callee(merged_calls(p, x, fm, (k - 1) as nat), callee_view(p, fm, c), tie_lifetime(p, c))
    }
}

/// The borrows of a function with a body: those of its calls merged in order, then
/// what its absorbed set absorbs taken away.
pub open spec fn body_facts(p: TraceProgram, x: int, fm: Seq<Option<BorrowMap>>) -> Map<u64, BorrowValue> {
    let m = merged_calls(p, x, fm, calls_of(p, x).len());
    match p.fns@[x] {
        FnKind::Body { absorb: Some(set), .. } => absorbed(m, token_set_view(set)),
        _ => m,
    }
}

/// Every function with a body that has facts has facts for each analyzable callee, and
/// its own facts are what its calls and absorbed set give.
pub open spec fn facts_follow_calls(p: TraceProgram, fm: Seq<Option<BorrowMap>>) -> bool {
    forall|x: int| 0 <= x < fm.len() && #[trigger] fm[x] is Some && p.fns@[x] is Body ==> {
        &&& forall|k: int| 0 <= k < calls_of(p, x).len() && analyzable(p, #[trigger] calls_of(p, x)[k] as int)
            ==> fm[calls_of(p, x)[k] as int] is Some
        &&& fm[x]->Some_0@ == body_facts(p, x, fm)
    }
}

proof fn lemma_the_rank(p: TraceProgram)
    requires
        acyclic(p),
    ensures
        ranks_calls(p, the_rank(p)),
{
}

proof fn lemma_merged_frame(p: TraceProgram, x: int, fm1: Seq<Option<BorrowMap>>, fm2: Seq<Option<BorrowMap>>, k: nat)
    requires
        k <= calls_of(p, x).len(),
        forall|i: int| 0 <= i < k ==> callee_view(p, fm1, #[trigger] calls_of(p, x)[i] as int)
            == callee_view(p, fm2, calls_of(p, x)[i] as int),
    ensures
        merged_calls(p, x, fm1, k) == merged_calls(p, x, fm2, k),
    decreases k,
{
    if k > 0 {
        lemma_merged_frame(p, x, fm1, fm2, (k - 1) as nat);
        assert(callee_view(p, fm1, calls_of(p, x)[k - 1] as int) == callee_view(p, fm2, calls_of(p, x)[k - 1] as int));
    }
}

/// The properties every completed propagation over `p` has.
pub open spec fn complete_facts(p: TraceProgram, facts: Seq<Option<BorrowMap>>) -> bool {
    &&& facts.len() == p.fns@.len()
    &&& forall|x: int| 0 <= x < facts.len() && #[trigger] facts[x] is Some ==> {
        &&& analyzable(p, x)
        &&& facts[x]->Some_0.wf()
        &&& is_tie(p, x) ==> facts[x]->Some_0@ == tie_view(p, x)
    }
    &&& forall|x: int, k: int| 0 <= x < facts.len() && facts[x] is Some && 0 <= k < calls_of(p, x).len()
        && analyzable(p, #[trigger] calls_of(p, x)[k] as int) ==> facts[calls_of(p, x)[k] as int] is Some
    &&& forall|x: int, k: int| 0 <= x < facts.len() && facts[x] is Some && 0 <= k < unsized_of(p, x).len()
        && analyzable(p, #[trigger] unsized_of(p, x)[k] as int) ==> facts[unsized_of(p, x)[k] as int] is Some
}

impl GraphPropagator {
    /// No analysis is in progress.
    pub closed spec fn idle(&self) -> bool {
        self.inv() && self.acyc_inv() && self.sinv() && self.xinv() && self.stack@.len() == 0 && self.in_flight@ is None
    }

    /// No analysis is in progress, but one function instance may have been taken off
    /// the queue without being analyzed yet.
    pub closed spec fn taken(&self, i: usize) -> bool {
        self.inv() && self.acyc_inv() && self.sinv() && self.xinv() && self.stack@.len() == 0 && self.in_flight@ == Some(i)
    }

    /// The component root each node's facts were taken from.
    pub closed spec fn reps(&self) -> Seq<int> {
        self.rep@
    }

    /// The facts every node saw when each node computed its own.
    pub closed spec fn bases(&self) -> Seq<Seq<Option<BorrowMap>>> {
        self.basis@
    }

    /// The queue of function instances waiting to be analyzed.
    pub closed spec fn queue(&self) -> Seq<usize> {
        self.cx.analysis_queue@
    }

    /// The facts computed so far.
    pub closed spec fn fact_seq(&self) -> Seq<Option<BorrowMap>> {
        self.fact_map@
    }

    proof fn lemma_idle_complete(&self)
        requires
            self.idle(),
            self.queue().len() == 0,
        ensures
            complete_facts(self.program(), self.fact_seq()),
            self.fact_seq().len() == self.program().fns@.len(),
            acyclic(self.program()) ==> facts_follow_calls(self.program(), self.fact_seq()),
            facts_sound(self.program(), self.fact_seq()),
            grouped_facts(self.program(), self.fact_seq(), self.reps(), self.bases()),
    {
        assert forall|x: int| 0 <= x < self.n() implies #[trigger] self.depth_map@[x] is None by {
            if self.depth_map@[x] is Some {
                assert(self.stack@.len() > 0);
            }
        }
        let fm = self.fact_map@;
        assert forall|x: int| 0 <= x < fm.len() && #[trigger] fm[x] is Some implies {
            let r = self.rep@[x];
            &&& 0 <= r < fm.len()
            &&& fm[r] is Some
            &&& self.rep@[r] == r
            &&& fm[x]->Some_0@ == fm[r]->Some_0@
            &&& r != x ==> trace_reaches(self.cx.program, x, r) && trace_reaches(self.cx.program, r, x)
            &&& (r == x && self.cx.program.fns@[x] is Body) ==> {
                &&& self.basis@[x].len() == fm.len()
                &&& fm[x]->Some_0@ == body_facts(self.cx.program, x, self.basis@[x])
                &&& root_basis_ok(self.cx.program, fm, self.basis@, x)
            }
        } by {
            if self.slot@[x] is Some {
                assert(self.scc_sets@.len() == 0);
            }
            assert(self.closed@[x] || self.slot@[x] is Some || self.rep@[x] != x);
            if self.rep@[x] != x {
                assert(self.closed@[self.rep@[x]]);
            } else {
                assert(self.closed@[x]);
            }
        }
    }

    /// Creates a propagator over `cx.program` with nothing analyzed yet.
    pub fn new(cx: TraceCx) -> (r: GraphPropagator)
        requires
            cx.program.fns@.len() < INFINITE_DEPTH,
            forall|i: int| 0 <= i < cx.analysis_queue@.len() ==> analyzable(cx.program, #[trigger] cx.analysis_queue@[i] as int),
        ensures
            r.idle(),
            r.program() == cx.program,
            r.queue() == cx.analysis_queue@,
            r.fact_seq().len() == cx.program.fns@.len(),
            forall|x: int| 0 <= x < r.fact_seq().len() ==> r.fact_seq()[x] is None,
    {
        let n = cx.program.fns.len();
        let mut fact_map: Vec<Option<BorrowMap>> = Vec::new();
        let mut depth_map: Vec<Option<u32>> = Vec::new();
        for i in 0..n
            invariant
                fact_map@.len() == i,
                depth_map@.len() == i,
                forall|x: int| 0 <= x < i ==> fact_map@[x] is None && depth_map@[x] is None,
        {
            fact_map.push(None);
            depth_map.push(None);
        }
        let r = GraphPropagator {
            cx,
            fact_map,
            depth_map,
            scc_sets: Vec::new(),
            stack: Ghost(Seq::empty()),
            in_flight: Ghost(None),
            rep: Ghost(Seq::new(n as nat, |x: int| x)),
            basis: Ghost(Seq::new(n as nat, |x: int| Seq::<Option<BorrowMap>>::empty())),
            slot: Ghost(Seq::new(n as nat, |x: int| None::<int>)),
            closed: Ghost(Seq::new(n as nat, |x: int| false)),
        };
        proof {
            assert(r.seen_seq() =~= Seq::new(n as nat, |i: int| false));
            lemma_count_seen_bound(r.seen_seq());
        }
        r
    }

    /// Queues `i` for analysis.
    pub fn push_analysis(&mut self, i: usize)
        requires
            old(self).idle(),
            analyzable(old(self).program(), i as int),
        ensures
            final(self).idle(),
            final(self).program() == old(self).program(),
            final(self).queue() == old(self).queue().push(i),
            final(self).fact_seq() == old(self).fact_seq(),
    {
        let ghost q = self.cx.analysis_queue@;
        self.cx.analysis_queue.push(i);
        proof {
            assert(q.is_prefix_of(self.cx.analysis_queue@));
            lemma_prefix_contains(q, self.cx.analysis_queue@);
        }
    }

    /// Takes the most recently queued function instance.
    pub fn pop_analysis(&mut self) -> (r: Option<usize>)
        requires
            old(self).idle(),
        ensures
            final(self).program() == old(self).program(),
            final(self).fact_seq() == old(self).fact_seq(),
            final(self).measure() == old(self).measure(),
            old(self).queue().len() == 0 ==> r is None && final(self).queue() == old(self).queue() && final(self).idle(),
            old(self).queue().len() > 0 ==> r == Some(old(self).queue().last())
                && final(self).queue() == old(self).queue().drop_last()
                && final(self).taken(old(self).queue().last())
                && analyzable(old(self).program(), old(self).queue().last() as int),
    {
        let r = self.cx.analysis_queue.pop();
        proof {
            if old(self).queue().len() > 0 {
                let q = old(self).queue();
                self.in_flight@ = r;
                assert forall|v: usize| q.contains(v) implies self.cx.analysis_queue@.contains(v) || v == q.last() by {
                    let i = choose|i: int| 0 <= i < q.len() && q[i] == v;
                    if i < q.len() - 1 {
                        assert(self.cx.analysis_queue@[i] == v);
                    }
                }
                assert(analyzable(self.cx.program, q[q.len() - 1] as int));
                assert(self.inv());
            }
        }
        r
    }

    /// The facts recorded for function instance `i`, if it has been analyzed.
    pub fn fact_of(&self, i: usize) -> (r: Option<&BorrowMap>)
        requires
            self.inv(),
        ensures
            i >= self.fact_seq().len() ==> r is None,
            i < self.fact_seq().len() ==> r == match self.fact_seq()[i as int] { Some(m) => Some(&m), None => None },
    {
        if i < self.fact_map.len() {
            match &self.fact_map[i] {
                Some(m) => Some(m),
                None => None,
            }
        } else {
            None
        }
    }

    /// Analyzes `start` and everything it calls, returning the facts of `start`.
    pub fn analyze(&mut self, start: usize) -> (r: &BorrowMap)
        requires
            old(self).idle() || old(self).taken(start),
            analyzable(old(self).program(), start as int),
        ensures
            final(self).idle(),
            final(self).program() == old(self).program(),
            old(self).queue().is_prefix_of(final(self).queue()),
            final(self).fact_seq().len() == old(self).fact_seq().len(),
            final(self).fact_seq().len() == final(self).program().fns@.len(),
            final(self).fact_seq()[start as int] == Some(*r),
            forall|x: int| 0 <= x < old(self).fact_seq().len() && old(self).fact_seq()[x] is Some ==>
                final(self).fact_seq()[x] == old(self).fact_seq()[x],
            final(self).measure() <= old(self).measure(),
            old(self).fact_seq()[start as int] is None ==> final(self).measure() < old(self).measure(),
            old(self).fact_seq()[start as int] is Some ==> final(self).queue() == old(self).queue()
                && final(self).fact_seq() == old(self).fact_seq(),
    {
        let ghost s0 = self.seen_seq();
        proof {
            assert forall|x: int| 0 <= x < self.n() implies #[trigger] self.depth_map@[x] is None by {
                if self.depth_map@[x] is Some {
                    assert(self.stack@.len() > 0);
                }
            }
        }
        let _ = self.analyze_inner(start, 0);
        proof {
            self.in_flight@ = None;
            lemma_count_seen_mono(s0, self.seen_seq());
            lemma_count_seen_bound(s0);
            lemma_count_seen_bound(self.seen_seq());
            if old(self).fact_seq()[start as int] is None {
                assert(!s0[start as int]);
                assert(self.seen_seq()[start as int]);
            }
        }
        self.fact_map[start].as_ref().unwrap()
    }

    /// Gives up the propagator, keeping its facts.
    pub fn into_fact_map(self) -> (r: Vec<Option<BorrowMap>>)
        ensures
            r@ == self.fact_seq(),
    {
        self.fact_map
    }
}

/// The borrow facts of every function instance reachable from a set of roots.
pub struct TraceFacts {
    pub facts: Vec<Option<BorrowMap>>,
    /// The root of the component each function instance took its facts from.
    pub group_roots: Ghost<Seq<int>>,
    /// The facts every function instance had when each root computed its own.
    pub bases: Ghost<Seq<Seq<Option<BorrowMap>>>>,
}

impl TraceFacts {
    /// Analyzes every analyzable root, and every function those call or unsize. Every
    /// borrow recorded for a function comes from a tie function it reaches; the
    /// functions of a call cycle share the facts of the first of them analyzed, which
    /// are what its calls gave (`grouped_facts`); in a program without call cycles the
    /// facts are exactly those its calls give.
    pub fn compute(program: TraceProgram, roots: &Vec<usize>) -> (r: TraceFacts)
        requires
            program.fns@.len() < INFINITE_DEPTH,
        ensures
            complete_facts(program, r.facts@),
            grouped_facts(program, r.facts@, r.group_roots@, r.bases@),
            forall|k: int| 0 <= k < roots@.len() && analyzable(program, #[trigger] roots@[k] as int) ==>
                r.facts@[roots@[k] as int] is Some,
            acyclic(program) ==> facts_follow_calls(program, r.facts@),
            facts_sound(program, r.facts@),
    {
        let ghost p = program;
        let mut facts = GraphPropagator::new(TraceCx { program, analysis_queue: Vec::new() });
        for k in 0..roots.len()
            invariant
                facts.idle(),
                facts.program() == p,
                forall|x: int| 0 <= x < facts.fact_seq().len() ==> facts.fact_seq()[x] is None,
                forall|i: int| 0 <= i < k && analyzable(p, #[trigger] roots@[i] as int) ==> facts.queue().contains(roots@[i]),
        {
            let r = roots[k];
            if facts.should_analyze(r) {
                let ghost q = facts.queue();
                facts.push_analysis(r);
                proof {
                    lemma_prefix_contains(q, facts.queue());
                    assert(facts.queue()[q.len() as int] == r);
                }
            }
        }
        let ghost q_roots = facts.queue();
        assert(forall|i: int| 0 <= i < q_roots.len() ==> analyzable(p, #[trigger] q_roots[i] as int));
        loop
            invariant
                facts.idle(),
                facts.program() == p,
                facts.fact_seq().len() == p.fns@.len(),
                forall|i: int| 0 <= i < q_roots.len() ==> analyzable(p, #[trigger] q_roots[i] as int),
                forall|i: int| 0 <= i < q_roots.len() ==>
                    facts.fact_seq()[#[trigger] q_roots[i] as int] is Some || facts.queue().contains(q_roots[i]),
            ensures
                facts.idle(),
                facts.queue().len() == 0,
                facts.program() == p,
                forall|i: int| 0 <= i < q_roots.len() ==> facts.fact_seq()[#[trigger] q_roots[i] as int] is Some,
            decreases facts.measure(), facts.queue().len(),
        {
            let ghost before = facts.fact_seq();
            let ghost qb = facts.queue();
            match facts.pop_analysis() {
                Some(next) => {
                    let ghost qp = facts.queue();
                    facts.analyze(next);
                    proof {
                        lemma_prefix_contains(qp, facts.queue());
                        assert forall|i: int| 0 <= i < q_roots.len() implies
                            facts.fact_seq()[#[trigger] q_roots[i] as int] is Some || facts.queue().contains(q_roots[i]) by {
                            if before[q_roots[i] as int] is None {
                                assert(qb.contains(q_roots[i]));
                                let j = choose|j: int| 0 <= j < qb.len() && qb[j] == q_roots[i];
                                if j < qb.len() - 1 {
                                    assert(qp[j] == q_roots[i]);
                                }
                            }
                        }
                    }
                },
                None => {
                    break;
                },
            }
        }
        proof {
            facts.lemma_idle_complete();
        }
        let ghost reps = facts.reps();
        let ghost bases = facts.bases();
        TraceFacts { facts: facts.into_fact_map(), group_roots: Ghost(reps), bases: Ghost(bases) }
    }
}

} // verus!
