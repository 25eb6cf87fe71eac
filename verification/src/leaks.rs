use vstd::prelude::*;
use crate::vec_map::{VecMap, seq_map, lemma_take_push, lemma_seq_map_empty, distinct_keys, lemma_seq_map_at};
use crate::trace::count_seen;

verus! {

/// How many borrows of one component a function leaves behind when it returns:
/// positive counts are borrows it took, negative ones borrows it released.
#[derive(Debug, Clone, Copy, PartialEq, Eq, Structural)]
pub struct LeakFacts {
    pub leaked_muts: i32,
    pub leaked_refs: i32,
}

/// What the analysis knows about how a function treats one component.
#[derive(Debug, Clone, Copy, PartialEq, Eq, Structural)]
pub struct FunctionFacts {
    /// The most shared borrows of the component its callers may hold when calling it.
    pub max_enter_ref: i32,
    /// The most mutable borrows of the component its callers may hold when calling it.
    pub max_enter_mut: i32,
    /// Whether it may borrow the component mutably.
    pub mutably_borrows: bool,
    /// What it leaves borrowed when it returns.
    pub leaks: LeakFacts,
}

/// Leak counts, per component.
pub type LeakMap = VecMap<LeakFacts>;

/// Function facts, per component.
pub type FactsMap = VecMap<FunctionFacts>;

pub open spec fn zero_leaks() -> LeakFacts {
    LeakFacts { leaked_muts: 0, leaked_refs: 0 }
}

pub open spec fn default_facts() -> FunctionFacts {
    FunctionFacts {
        max_enter_ref: i32::MAX,
        max_enter_mut: i32::MAX,
        mutably_borrows: false,
        leaks: zero_leaks(),
    }
}

impl Default for LeakFacts {
    fn default() -> (r: LeakFacts)
        ensures
            r == zero_leaks(),
    {
        LeakFacts { leaked_muts: 0, leaked_refs: 0 }
    }
}

impl Default for FunctionFacts {
    /// A function that borrows nothing: any number of borrows may be held around it.
    fn default() -> (r: FunctionFacts)
        ensures
            r == default_facts(),
    {
        FunctionFacts {
            max_enter_ref: i32::MAX,
            max_enter_mut: i32::MAX,
            mutably_borrows: false,
            leaks: LeakFacts { leaked_muts: 0, leaked_refs: 0 },
        }
    }
}

/// The four primitives the analysis knows by name.
#[derive(Debug, Clone, Copy, PartialEq, Eq, Structural)]
pub enum Primitive {
    /// `__autoken_borrow_mutably`
    BorrowMutably,
    /// `__autoken_unborrow_mutably`
    UnborrowMutably,
    /// `__autoken_borrow_immutably`
    BorrowImmutably,
    /// `__autoken_unborrow_immutably`
    UnborrowImmutably,
}

/// The facts hardcoded for each primitive.
pub open spec fn primitive_facts(p: Primitive) -> FunctionFacts {
    match p {
        Primitive::BorrowMutably => FunctionFacts {
            max_enter_mut: 0,
            max_enter_ref: 0,
            mutably_borrows: true,
            leaks: LeakFacts { leaked_muts: 1, leaked_refs: 0 },
        },
        Primitive::UnborrowMutably => FunctionFacts {
            max_enter_mut: i32::MAX,
            max_enter_ref: i32::MAX,
            mutably_borrows: false,
            leaks: LeakFacts { leaked_muts: -1i32, leaked_refs: 0 },
        },
        Primitive::BorrowImmutably => FunctionFacts {
            max_enter_mut: 0,
            max_enter_ref: i32::MAX,
            mutably_borrows: false,
            leaks: LeakFacts { leaked_muts: 0, leaked_refs: 1 },
        },
        Primitive::UnborrowImmutably => FunctionFacts {
            max_enter_mut: i32::MAX,
            max_enter_ref: i32::MAX,
            mutably_borrows: false,
            leaks: LeakFacts { leaked_muts: 0, leaked_refs: -1i32 },
        },
    }
}

/// The facts of a primitive.
pub fn hardcoded_facts(p: Primitive) -> (r: FunctionFacts)
    ensures
        r == primitive_facts(p),
{
    match p {
        Primitive::BorrowMutably => FunctionFacts {
            max_enter_mut: 0,
            max_enter_ref: 0,
            mutably_borrows: true,
            leaks: LeakFacts { leaked_muts: 1, leaked_refs: 0 },
        },
        Primitive::UnborrowMutably => FunctionFacts {
            max_enter_mut: i32::MAX,
            max_enter_ref: i32::MAX,
            mutably_borrows: false,
            leaks: LeakFacts { leaked_muts: -1i32, leaked_refs: 0 },
        },
        Primitive::BorrowImmutably => FunctionFacts {
            max_enter_mut: 0,
            max_enter_ref: i32::MAX,
            mutably_borrows: false,
            leaks: LeakFacts { leaked_muts: 0, leaked_refs: 1 },
        },
        Primitive::UnborrowImmutably => FunctionFacts {
            max_enter_mut: i32::MAX,
            max_enter_ref: i32::MAX,
            mutably_borrows: false,
            leaks: LeakFacts { leaked_muts: 0, leaked_refs: -1i32 },
        },
    }
}

/// `a - b`, clamped to the range of `i32`.
pub open spec fn sat_sub(a: i32, b: i32) -> i32 {
    if a - b > i32::MAX {
        i32::MAX
    } else if a - b < i32::MIN {
        i32::MIN
    } else {
        (a - b) as i32
    }
}

/// Saturating subtraction on `i32`.
pub fn saturating_sub_i32(a: i32, b: i32) -> (r: i32)
    ensures
        r == sat_sub(a, b),
{
    let d: i64 = a as i64 - b as i64;
    if d > i32::MAX as i64 {
        i32::MAX
    } else if d < i32::MIN as i64 {
        i32::MIN
    } else {
        d as i32
    }
}

/// The sum of two leak counts, wrapping on overflow.
pub open spec fn leak_add(a: LeakFacts, b: LeakFacts) -> LeakFacts {
    LeakFacts {
        leaked_muts: a.leaked_muts.wrapping_add(b.leaked_muts),
        leaked_refs: a.leaked_refs.wrapping_add(b.leaked_refs),
    }
}

pub open spec fn leak_of(m: Map<u64, LeakFacts>, k: u64) -> LeakFacts {
    if m.contains_key(k) { m[k] } else { zero_leaks() }
}

pub open spec fn call_leak_of(m: Map<u64, FunctionFacts>, k: u64) -> LeakFacts {
    if m.contains_key(k) { m[k].leaks } else { zero_leaks() }
}

/// The leaks that hold after a call: what was held before plus what the callee leaks,
/// with every component whose counts come to zero left out.
pub open spec fn leaks_after(curr: Map<u64, LeakFacts>, call: Map<u64, FunctionFacts>) -> Map<u64, LeakFacts> {
    Map::new(
        |k: u64| (curr.contains_key(k) || call.contains_key(k))
            && leak_add(call_leak_of(call, k), leak_of(curr, k)) != zero_leaks(),
        |k: u64| leak_add(call_leak_of(call, k), leak_of(curr, k)),
    )
}

/// A function's facts after one call site with `curr` held: the callee's limits, less
/// what is held, bound the caller's; a limit that would go negative is not recorded.
pub open spec fn constrained(base: FunctionFacts, held: LeakFacts, callee: FunctionFacts) -> FunctionFacts {
    let cm = sat_sub(callee.max_enter_mut, held.leaked_muts);
    let cr = sat_sub(callee.max_enter_ref, held.leaked_refs);
    FunctionFacts {
        max_enter_mut: if cm >= 0 && cm < base.max_enter_mut { cm } else { base.max_enter_mut },
        max_enter_ref: if cr >= 0 && cr < base.max_enter_ref { cr } else { base.max_enter_ref },
        mutably_borrows: base.mutably_borrows || callee.mutably_borrows,
        leaks: base.leaks,
    }
}

pub open spec fn facts_of(m: Map<u64, FunctionFacts>, k: u64) -> FunctionFacts {
    if m.contains_key(k) { m[k] } else { default_facts() }
}

/// The caller's facts after a call site whose callee has `call` and around which
/// `curr` is held.
pub open spec fn facts_after_call(
    my: Map<u64, FunctionFacts>,
    curr: Map<u64, LeakFacts>,
    call: Map<u64, FunctionFacts>,
) -> Map<u64, FunctionFacts> {
    Map::new(
        |k: u64| my.contains_key(k) || call.contains_key(k),
        |k: u64|
            if call.contains_key(k) {
                constrained(facts_of(my, k), leak_of(curr, k), call[k])
            } else {
                my[k]
            },
    )
}

/// A diagnostic of the leak analysis. Spans and components are the ids the caller
/// gave them.
#[derive(Debug, Clone, Copy, PartialEq, Eq, Structural)]
pub enum LeakDiagnostic {
    /// A function calls back into itself while holding mutable borrows of `component`.
    RecursesHoldingMut { span: u64, component: u64, leaked_muts: i32 },
    /// A callee admits at most `max_enter_mut` mutable borrows but more are held.
    TooManyMuts { span: u64, component: u64, max_enter_mut: i32, leaked_muts: i32 },
    /// A callee admits at most `max_enter_ref` shared borrows but more are held.
    TooManyRefs { span: u64, component: u64, max_enter_ref: i32, leaked_refs: i32 },
    /// Two control-flow paths reach a block holding different borrows.
    InconsistentPaths { span: u64 },
    /// A self-recursive function may leak borrows of `component`.
    RecursiveLeak { span: u64, component: u64 },
    /// A self-recursive function holds a shared borrow of `component` across the
    /// recursion but may borrow it mutably.
    RecursiveMutWhileRef { span: u64, component: u64 },
}

/// The limit diagnostics of one call site, in the order of the callee's facts.
pub open spec fn limit_diags(curr: Map<u64, LeakFacts>, call: Seq<(u64, FunctionFacts)>, span: u64) -> Seq<LeakDiagnostic>
    decreases call.len(),
{
    if call.len() == 0 {
        Seq::empty()
    } else {
        let (k, cf) = call.last();
        let held = leak_of(curr, k);
        let cm = sat_sub(cf.max_enter_mut, held.leaked_muts);
        let cr = sat_sub(cf.max_enter_ref, held.leaked_refs);
        let dm = if cm < 0 {
            seq![LeakDiagnostic::TooManyMuts {
                span,
                component: k,
                max_enter_mut: cf.max_enter_mut,
                leaked_muts: held.leaked_muts,
            }]
        } else {
            Seq::empty()
        };
        let dr = if cr < 0 {
            seq![LeakDiagnostic::TooManyRefs {
                span,
                component: k,
                max_enter_ref: cf.max_enter_ref,
                leaked_refs: held.leaked_refs,
            }]
        } else {
            Seq::empty()
        };
        limit_diags(curr, call.drop_last(), span) + dm + dr
    }
}

/// Applies one call site: `my` takes the callee's limits, and every violated limit is
/// reported. Returns the borrows held after the call.
pub fn apply_call(
    my: &mut FactsMap,
    curr: &LeakMap,
    call: &FactsMap,
    span: u64,
    diags: &mut Vec<LeakDiagnostic>,
) -> (r: LeakMap)
    requires
        old(my).wf(),
        curr.wf(),
        call.wf(),
    ensures
        final(my).wf(),
        final(my)@ == facts_after_call(old(my)@, curr@, call@),
        final(diags)@ == old(diags)@ + limit_diags(curr@, call.entries@, span),
        r.wf(),
        r@ == leaks_after(curr@, call@),
{
    let n = call.entries.len();
    let ghost s = call.entries@;
    let ghost my0 = my@;
    let ghost d0 = diags@;
    proof {
        lemma_seq_map_empty(s.take(0));
        assert(facts_after_call(my0, curr@, seq_map(s.take(0))) =~= my0);
        assert(limit_diags(curr@, s.take(0), span) =~= Seq::<LeakDiagnostic>::empty());
    }
    for i in 0..n
        invariant
            n == s.len(),
            s == call.entries@,
            call.wf(),
            curr.wf(),
            my.wf(),
            my@ == facts_after_call(my0, curr@, seq_map(s.take(i as int))),
            diags@ == d0 + limit_diags(curr@, s.take(i as int), span),
    {
        proof {
            lemma_take_push(s, i as int);
        }
        let (k, cf) = call.entry_at(i);
        let mut f = match my.get(k) {
            Some(f) => f,
            None => FunctionFacts::default(),
        };
        let held = match curr.get(k) {
            Some(h) => h,
            None => LeakFacts::default(),
        };
        let cm = saturating_sub_i32(cf.max_enter_mut, held.leaked_muts);
        if cm >= 0 {
            if cm < f.max_enter_mut {
                f.max_enter_mut = cm;
            }
        } else {
            diags.push(LeakDiagnostic::TooManyMuts {
                span,
                component: k,
                max_enter_mut: cf.max_enter_mut,
                leaked_muts: held.leaked_muts,
            });
        }
        let cr = saturating_sub_i32(cf.max_enter_ref, held.leaked_refs);
        if cr >= 0 {
            if cr < f.max_enter_ref {
                f.max_enter_ref = cr;
            }
        } else {
            diags.push(LeakDiagnostic::TooManyRefs {
                span,
                component: k,
                max_enter_ref: cf.max_enter_ref,
                leaked_refs: held.leaked_refs,
            });
        }
        f.mutably_borrows = f.mutably_borrows || cf.mutably_borrows;
        my.insert(k, f);
        proof {
            let t = s.take(i + 1);
            assert(t.drop_last() =~= s.take(i as int));
            assert(t.last() == s[i as int]);
            assert(my@ =~= facts_after_call(my0, curr@, seq_map(t)));
            assert(diags@ =~= d0 + limit_diags(curr@, t, span));
        }
    }
    proof {
        assert(s.take(n as int) =~= s);
    }
    leaks_after_call(curr, call)
}

/// The borrows held after a call: see `leaks_after`.
pub fn leaks_after_call(curr: &LeakMap, call: &FactsMap) -> (r: LeakMap)
    requires
        curr.wf(),
        call.wf(),
    ensures
        r.wf(),
        r@ == leaks_after(curr@, call@),
{
    // Start from the callee's non-zero leaks...
    let mut r = LeakMap::new();
    let n = call.entries.len();
    let ghost s = call.entries@;
    proof {
        lemma_seq_map_empty(s.take(0));
    }
    for i in 0..n
        invariant
            n == s.len(),
            s == call.entries@,
            call.wf(),
            r.wf(),
            r@ == Map::new(
                |k: u64| seq_map(s.take(i as int)).contains_key(k) && seq_map(s.take(i as int))[k].leaks != zero_leaks(),
                |k: u64| seq_map(s.take(i as int))[k].leaks,
            ),
    {
        proof {
            lemma_take_push(s, i as int);
        }
        let (k, cf) = call.entry_at(i);
        if cf.leaks.leaked_refs != 0 || cf.leaks.leaked_muts != 0 {
            r.insert(k, cf.leaks);
        }
        proof {
            let m1 = seq_map(s.take(i + 1));
            assert(r@ =~= Map::new(
                |k: u64| m1.contains_key(k) && m1[k].leaks != zero_leaks(),
                |k: u64| m1[k].leaks,
            ));
        }
    }
    // ...then add what was held before, dropping components that come to zero.
    let ghost base = r@;
    let m = curr.entries.len();
    let ghost c = curr.entries@;
    proof {
        assert(s.take(n as int) =~= s);
        lemma_seq_map_empty(c.take(0));
        assert(leaks_after(seq_map(c.take(0)), call@) =~= base);
    }
    for j in 0..m
        invariant
            m == c.len(),
            c == curr.entries@,
            curr.wf(),
            call.wf(),
            r.wf(),
            r@ == leaks_after(seq_map(c.take(j as int)), call@),
    {
        proof {
            lemma_take_push(c, j as int);
        }
        let (k, cur) = curr.entry_at(j);
        match r.get(k) {
            Some(e) => {
                let nf = LeakFacts {
                    leaked_refs: e.leaked_refs.wrapping_add(cur.leaked_refs),
                    leaked_muts: e.leaked_muts.wrapping_add(cur.leaked_muts),
                };
                if nf.leaked_refs == 0 && nf.leaked_muts == 0 {
                    r.remove(k);
                } else {
                    r.insert(k, nf);
                }
            },
            None => {
                if cur.leaked_refs != 0 || cur.leaked_muts != 0 {
                    r.insert(k, cur);
                }
            },
        }
        proof {
            assert(r@ =~= leaks_after(seq_map(c.take(j + 1)), call@));
        }
    }
    proof {
        assert(c.take(m as int) =~= c);
    }
    r
}


/// The components held before a recursive call and what they imply: every component
/// held mutably is reported, every component held shared is recorded in `forbidden`.
pub open spec fn recursion_diags(curr: Seq<(u64, LeakFacts)>, span: u64) -> Seq<LeakDiagnostic>
    decreases curr.len(),
{
    if curr.len() == 0 {
        Seq::empty()
    } else {
        let (k, lf) = curr.last();
        recursion_diags(curr.drop_last(), span) + if lf.leaked_muts > 0 {
            seq![LeakDiagnostic::RecursesHoldingMut { span, component: k, leaked_muts: lf.leaked_muts }]
        } else {
            Seq::empty()
        }
    }
}

/// The components of `curr` held shared at least once.
pub open spec fn shared_components(curr: Map<u64, LeakFacts>) -> Set<u64> {
    Set::new(|k: u64| curr.contains_key(k) && curr[k].leaked_refs > 0)
}

/// Checks a call that recurses into a function still being analyzed, with `curr` held.
pub fn check_recursive_call(curr: &LeakMap, span: u64, diags: &mut Vec<LeakDiagnostic>, forbidden: &mut VecMap<()>)
    requires
        curr.wf(),
        old(forbidden).wf(),
    ensures
        final(diags)@ == old(diags)@ + recursion_diags(curr.entries@, span),
        final(forbidden).wf(),
        final(forbidden)@.dom() == old(forbidden)@.dom() + shared_components(curr@),
{
    let n = curr.entries.len();
    let ghost s = curr.entries@;
    let ghost d0 = diags@;
    let ghost f0 = forbidden@.dom();
    proof {
        lemma_seq_map_empty(s.take(0));
        assert(f0 + shared_components(seq_map(s.take(0))) =~= f0);
        assert(recursion_diags(s.take(0), span) =~= Seq::<LeakDiagnostic>::empty());
    }
    for i in 0..n
        invariant
            n == s.len(),
            s == curr.entries@,
            curr.wf(),
            forbidden.wf(),
            forbidden@.dom() == f0 + shared_components(seq_map(s.take(i as int))),
            diags@ == d0 + recursion_diags(s.take(i as int), span),
    {
        proof {
            lemma_take_push(s, i as int);
        }
        let (k, lf) = curr.entry_at(i);
        if lf.leaked_muts > 0 {
            diags.push(LeakDiagnostic::RecursesHoldingMut { span, component: k, leaked_muts: lf.leaked_muts });
        }
        if lf.leaked_refs > 0 {
            forbidden.insert(k, ());
        }
        proof {
            let t = s.take(i + 1);
            assert(t.drop_last() =~= s.take(i as int));
            assert(t.last() == s[i as int]);
            assert(forbidden@.dom() =~= f0 + shared_components(seq_map(t)));
            assert(diags@ =~= d0 + recursion_diags(t, span));
        }
    }
    proof {
        assert(s.take(n as int) =~= s);
    }
}

/// Entry `j` of `a` is recorded in `b` with the same value.
pub open spec fn entry_agrees(a: &LeakMap, b: &LeakMap, j: int) -> bool {
    b@.contains_key(a.entries@[j].0) && b@[a.entries@[j].0] == a.entries@[j].1
}

/// Whether two leak maps hold the same counts for the same components.
#[verifier::spinoff_prover]
pub fn same_leaks(a: &LeakMap, b: &LeakMap) -> (r: bool)
    requires
        a.wf(),
        b.wf(),
    ensures
        r == (a@ == b@),
{
    let n = a.entries.len();
    let mut i: usize = 0;
    while i < n
        invariant
            n == a.entries@.len(),
            i <= n,
            a.wf(),
            b.wf(),
            forall|j: int| 0 <= j < i ==> #[trigger] entry_agrees(a, b, j),
        decreases n - i,
    {
        let (k, v) = a.entry_at(i);
        match b.get(k) {
            Some(w) => {
                if w.leaked_muts != v.leaked_muts || w.leaked_refs != v.leaked_refs {
                    return false;
                }
                assert(w == v);
                assert(k == a.entries@[i as int].0);
                assert(b@.contains_key(a.entries@[i as int].0));
                assert(b@[a.entries@[i as int].0] == a.entries@[i as int].1);
                assert(entry_agrees(a, b, i as int));
            },
            None => {
                return false;
            },
        }
        i = i + 1;
    }
    let m = b.entries.len();
    let mut q: usize = 0;
    while q < m
        invariant
            m == b.entries@.len(),
            q <= m,
            a.wf(),
            b.wf(),
            forall|j: int| 0 <= j < q ==> #[trigger] a@.contains_key(b.entries@[j].0),
        decreases m - q,
    {
        let (k, _) = b.entry_at(q);
        if !a.contains(k) {
            return false;
        }
        q = q + 1;
    }
    proof {
        assert forall|k: u64| #[trigger] a@.dom().contains(k) implies b@.dom().contains(k) && b@[k] == a@[k] by {
            let j = choose|j: int| 0 <= j < a.entries@.len() && #[trigger] a.entries@[j].0 == k;
            crate::vec_map::lemma_seq_map_at(a.entries@, j);
            assert(entry_agrees(a, b, j));
        }
        assert forall|k: u64| #[trigger] b@.dom().contains(k) implies a@.dom().contains(k) by {
            let j = choose|j: int| 0 <= j < b.entries@.len() && #[trigger] b.entries@[j].0 == k;
            assert(a@.contains_key(b.entries@[j].0));
        }
        assert(a@.dom() =~= b@.dom());
        assert(a@ =~= b@);
    }
    true
}

/// The labels of a function's blocks as maps.
pub open spec fn labels_view(bb: Seq<Option<LeakMap>>) -> Seq<Option<Map<u64, LeakFacts>>> {
    Seq::new(bb.len(), |i: int| match bb[i] { Some(m) => Some(m@), None => None })
}

/// Which blocks carry a label.
pub open spec fn labeled(bb: Seq<Option<LeakMap>>) -> Seq<bool> {
    Seq::new(bb.len(), |i: int| bb[i] is Some)
}

/// One `InconsistentPaths` diagnostic for each edge into an already labelled block
/// whose label differs from `exp`.
pub open spec fn inconsistency_diags(
    bb: Seq<Option<Map<u64, LeakFacts>>>,
    targets: Seq<usize>,
    exp: Map<u64, LeakFacts>,
    span: u64,
) -> Seq<LeakDiagnostic>
    decreases targets.len(),
{
    if targets.len() == 0 {
        Seq::empty()
    } else {
        let t = targets.last() as int;
        inconsistency_diags(bb, targets.drop_last(), exp, span) + if bb[t] is Some && bb[t]->Some_0 != exp {
            seq![LeakDiagnostic::InconsistentPaths { span }]
        } else {
            Seq::empty()
        }
    }
}

/// Hands the borrows held after a block to each of its successors: an unlabelled
/// successor is labelled with them (and queued unless it is the return block), a
/// labelled one is checked against them.
pub fn propagate(
    bb: &mut Vec<Option<LeakMap>>,
    targets: &Vec<usize>,
    exp: &LeakMap,
    span: u64,
    diags: &mut Vec<LeakDiagnostic>,
    process: &mut Vec<usize>,
)
    requires
        exp.wf(),
        old(bb)@.len() >= 1,
        forall|i: int| 0 <= i < targets@.len() ==> #[trigger] targets@[i] < old(bb)@.len(),
        forall|i: int| 0 <= i < old(bb)@.len() && #[trigger] old(bb)@[i] is Some ==> old(bb)@[i]->Some_0.wf(),
    ensures
        final(bb)@.len() == old(bb)@.len(),
        forall|i: int| 0 <= i < final(bb)@.len() && #[trigger] final(bb)@[i] is Some ==> final(bb)@[i]->Some_0.wf(),
        labels_view(final(bb)@) == Seq::new(old(bb)@.len(), |i: int|
            if old(bb)@[i] is None && targets@.contains(i as usize) { Some(exp@) } else { labels_view(old(bb)@)[i] }),
        final(diags)@ == old(diags)@ + inconsistency_diags(labels_view(old(bb)@), targets@, exp@, span),
        old(process)@.is_prefix_of(final(process)@),
        forall|j: int| old(process)@.len() <= j < final(process)@.len() ==> {
            let t = #[trigger] final(process)@[j] as int;
            &&& t < final(bb)@.len() - 1
            &&& old(bb)@[t] is None
            &&& targets@.contains(t as usize)
        },
        forall|t: int| 0 <= t < final(bb)@.len() - 1 && old(bb)@[t] is None && targets@.contains(t as usize)
            ==> #[trigger] final(process)@.contains(t as usize),
        forall|j1: int, j2: int| old(process)@.len() <= j1 < j2 < final(process)@.len()
            ==> final(process)@[j1] != final(process)@[j2],
        count_seen(labeled(old(bb)@)) + (final(process)@.len() - old(process)@.len()) <= count_seen(labeled(final(bb)@)),
{
    let ghost bb0 = bb@;
    let ghost l0 = labels_view(bb@);
    let ghost d0 = diags@;
    let ghost p0 = process@;
    let nt = targets.len();
    let last = bb.len() - 1;
    proof {
        assert(inconsistency_diags(l0, targets@.take(0), exp@, span) =~= Seq::<LeakDiagnostic>::empty());
        assert(labels_view(bb@) =~= Seq::new(bb0.len(), |i: int|
            if bb0[i] is None && targets@.take(0).contains(i as usize) { Some(exp@) } else { l0[i] }));
    }
    for j in 0..nt
        invariant
            nt == targets@.len(),
            last + 1 == bb0.len(),
            bb@.len() == bb0.len(),
            exp.wf(),
            l0 == labels_view(bb0),
            forall|i: int| 0 <= i < targets@.len() ==> #[trigger] targets@[i] < bb0.len(),
            forall|i: int| 0 <= i < bb@.len() && #[trigger] bb@[i] is Some ==> bb@[i]->Some_0.wf(),
            labels_view(bb@) == Seq::new(bb0.len(), |i: int|
                if bb0[i] is None && targets@.take(j as int).contains(i as usize) { Some(exp@) } else { l0[i] }),
            diags@ == d0 + inconsistency_diags(l0, targets@.take(j as int), exp@, span),
            p0.is_prefix_of(process@),
            forall|q: int| p0.len() <= q < process@.len() ==> {
                let t = #[trigger] process@[q] as int;
                &&& t < last
                &&& bb0[t] is None
                &&& targets@.take(j as int).contains(t as usize)
            },
            forall|t: int| 0 <= t < last && bb0[t] is None && targets@.take(j as int).contains(t as usize)
                ==> #[trigger] process@.contains(t as usize),
            forall|q: int| p0.len() <= q < process@.len() ==> bb@[#[trigger] process@[q] as int] is Some,
            forall|j1: int, j2: int| p0.len() <= j1 < j2 < process@.len() ==> process@[j1] != process@[j2],
            count_seen(labeled(bb0)) + (process@.len() - p0.len()) <= count_seen(labeled(bb@)),
    {
        let t = targets[j];
        let ghost tk = targets@.take(j as int);
        let ghost tk1 = targets@.take(j + 1);
        proof {
            assert(tk1 =~= tk.push(t));
            assert(tk1.drop_last() =~= tk);
            assert forall|v: usize| tk.contains(v) implies tk1.contains(v) by {
                let q = choose|q: int| 0 <= q < tk.len() && tk[q] == v;
                assert(tk1[q] == v);
            }
            assert(tk1.contains(t)) by {
                assert(tk1[j as int] == t);
            }
            assert forall|v: usize| tk1.contains(v) implies tk.contains(v) || v == t by {
                let q = choose|q: int| 0 <= q < tk1.len() && tk1[q] == v;
                if q < j {
                    assert(tk[q] == v);
                }
            }
        }
        let ghost before = bb@;
        let ghost lb = labels_view(bb@);
        let ghost p_start = process@;
        let is_set = bb[t].is_some();
        if is_set {
            let differs = match &bb[t] {
                Some(tf) => !same_leaks(tf, exp),
                None => false,
            };
            proof {
                if bb0[t as int] is None {
                    assert(tk.contains(t) || lb[t as int] == l0[t as int]);
                }
            }
            proof {
                assert(tk1.last() == t);
                assert(inconsistency_diags(l0, tk1, exp@, span) == inconsistency_diags(l0, tk, exp@, span) + (
                    if l0[t as int] is Some && l0[t as int]->Some_0 != exp@ {
                        seq![LeakDiagnostic::InconsistentPaths { span }]
                    } else {
                        Seq::empty()
                    }));
                if bb0[t as int] is None {
                    assert(tk.contains(t));
                    assert(lb[t as int] == Some(exp@));
                } else {
                    assert(lb[t as int] == l0[t as int]);
                }
                assert(differs == (l0[t as int] is Some && l0[t as int]->Some_0 != exp@));
            }
            if differs {
                diags.push(LeakDiagnostic::InconsistentPaths { span });
            }
            proof {
                assert(diags@ =~= d0 + inconsistency_diags(l0, tk1, exp@, span));
                assert(labels_view(bb@) =~= Seq::new(bb0.len(), |i: int|
                    if bb0[i] is None && tk1.contains(i as usize) { Some(exp@) } else { l0[i] }));
            }
        } else {
            proof {
                assert(bb0[t as int] is None) by {
                    if bb0[t as int] is Some {
                        assert(lb[t as int] == l0[t as int]);
                    }
                }
                assert(!tk.contains(t)) by {
                    if tk.contains(t) {
                        assert(lb[t as int] == Some(exp@));
                    }
                }
            }
            bb.set(t, Some(exp.copy()));
            proof {
                assert(diags@ =~= d0 + inconsistency_diags(l0, tk1, exp@, span));
                assert forall|i: int| 0 <= i < bb0.len() implies #[trigger] labels_view(bb@)[i] ==
                    (if bb0[i] is None && tk1.contains(i as usize) { Some(exp@) } else { l0[i] }) by {
                    if i != t as int {
                        assert(labels_view(bb@)[i] == lb[i]);
                        assert(tk1.contains(i as usize) == tk.contains(i as usize));
                    }
                }
                assert(labels_view(bb@) =~= Seq::new(bb0.len(), |i: int|
                    if bb0[i] is None && tk1.contains(i as usize) { Some(exp@) } else { l0[i] }));
                assert(labeled(before)[t as int] == false);
                assert(labeled(bb@)[t as int]);
                assert forall|i: int| 0 <= i < labeled(before).len() && #[trigger] labeled(before)[i]
                    implies labeled(bb@)[i] by {}
                crate::trace::lemma_count_seen_mono(labeled(before), labeled(bb@));
            }
            if t < last {
                let ghost pb = process@;
                proof {
                    assert forall|q: int| p0.len() <= q < pb.len() implies pb[q] != t by {
                        assert(before[pb[q] as int] is Some);
                    }
                }
                process.push(t);
                proof {
                    assert(p0.is_prefix_of(process@));
                    assert forall|v: usize| pb.contains(v) implies process@.contains(v) by {
                        let q = choose|q: int| 0 <= q < pb.len() && pb[q] == v;
                        assert(process@[q] == v);
                    }
                    assert(process@[pb.len() as int] == t);
                }
            }
        }
        proof {
            assert forall|q: int| p0.len() <= q < process@.len() implies {
                let tt = #[trigger] process@[q] as int;
                &&& tt < last
                &&& bb0[tt] is None
                &&& tk1.contains(tt as usize)
            } by {}
            assert forall|tt: int| 0 <= tt < last && bb0[tt] is None && tk1.contains(tt as usize)
                implies #[trigger] process@.contains(tt as usize) by {
                if tt != t as int || is_set {
                    assert(tk.contains(tt as usize));
                    assert(p_start.contains(tt as usize));
                    let q = choose|q: int| 0 <= q < p_start.len() && p_start[q] == tt as usize;
                    assert(process@[q] == tt as usize);
                } else {
                    assert(process@[p_start.len() as int] == t);
                }
            }
        }
    }
    proof {
        assert(targets@.take(nt as int) =~= targets@);
    }
}


/// One statement that turns a function into a value whose calls the MIR no longer
/// names directly.
pub enum Coercion {
    /// A function item or closure made into a pointer of the function-pointer type `fn_ty`.
    FnPointer { fn_ty: u64, instance: usize },
    /// A value unsized into a trait object: each method of its vtable with the
    /// implementation that it resolves to.
    Vtable { methods: Vec<(u64, usize)> },
}

/// How a block ends.
#[allow(inconsistent_fields)]
pub enum Terminator {
    /// `Goto` and `Assert`: continues at `target`.
    Goto { target: usize },
    /// Continues at one of `targets`.
    SwitchInt { targets: Vec<usize> },
    /// Inline assembly, continuing at `destination` if it returns there.
    InlineAsm { destination: Option<usize> },
    /// Ends the path without returning: unwinding, termination and unreachable code.
    Stop,
    /// Returns to the caller.
    Return,
    /// Calls `callee`, continuing at `target` if the call returns.
    Call { callee: usize, target: Option<usize> },
    /// Drops a value, running `dtor` when its type has drop glue, and continues at `target`.
    Drop { dtor: Option<usize>, target: usize },
}

/// A basic block: its coercions in statement order, its terminator, and the span
/// its diagnostics point at.
pub struct Block {
    pub coercions: Vec<Coercion>,
    pub terminator: Terminator,
    pub span: u64,
}

/// A function instance of the analyzed program.
pub enum LeakFn {
    /// One of the four primitives, instantiated on `component`.
    Primitive { kind: Primitive, component: u64 },
    /// A function with a body; block 0 is its entry.
    Body { blocks: Vec<Block>, span: u64 },
}

/// The analyzed program: function instance `i` is `fns[i]`.
pub struct LeakProgram {
    pub fns: Vec<LeakFn>,
}

pub open spec fn opt_seq(o: Option<usize>) -> Seq<usize> {
    match o {
        Some(t) => seq![t],
        None => Seq::empty(),
    }
}

/// The function a terminator calls, if any.
pub open spec fn term_callee(t: Terminator) -> Option<usize> {
    match t {
        Terminator::Call { callee, .. } => Some(callee),
        Terminator::Drop { dtor, .. } => dtor,
        _ => None,
    }
}

/// The blocks a terminator continues at; `ret` stands for returning.
pub open spec fn term_targets(t: Terminator, ret: usize) -> Seq<usize> {
    match t {
        Terminator::Goto { target } => seq![target],
        Terminator::SwitchInt { targets } => targets@,
        Terminator::InlineAsm { destination } => opt_seq(destination),
        Terminator::Stop => Seq::empty(),
        Terminator::Return => seq![ret],
        Terminator::Call { target, .. } => opt_seq(target),
        Terminator::Drop { target, .. } => seq![target],
    }
}

pub open spec fn coercion_ok(c: Coercion, nf: int) -> bool {
    match c {
        Coercion::FnPointer { instance, .. } => instance < nf,
        Coercion::Vtable { methods } => forall|i: int| 0 <= i < methods@.len() ==> #[trigger] methods@[i].1 < nf,
    }
}

pub open spec fn block_ok(b: Block, nb: int, nf: int) -> bool {
    &&& forall|i: int| 0 <= i < term_targets(b.terminator, nb as usize).len()
        ==> #[trigger] term_targets(b.terminator, nb as usize)[i] < nb || b.terminator is Return
    &&& (term_callee(b.terminator) matches Some(c) ==> c < nf)
    &&& forall|i: int| 0 <= i < b.coercions@.len() ==> coercion_ok(#[trigger] b.coercions@[i], nf)
}

/// Every index in the program names a block or function of it.
pub open spec fn leak_program_ok(p: LeakProgram) -> bool {
    &&& p.fns@.len() < u32::MAX
    &&& forall|f: int| 0 <= f < p.fns@.len() ==> match #[trigger] p.fns@[f] {
        LeakFn::Primitive { .. } => true,
        LeakFn::Body { blocks, .. } => 1 <= blocks@.len() < usize::MAX && forall|b: int|
            0 <= b < blocks@.len() ==> block_ok(#[trigger] blocks@[b], blocks@.len() as int, p.fns@.len() as int),
    }
}

pub open spec fn body_blocks(p: LeakProgram, f: int) -> Seq<Block> {
    match p.fns@[f] {
        LeakFn::Body { blocks, .. } => blocks@,
        _ => Seq::empty(),
    }
}

/// The facts a primitive's instance is known by: its own component only.
pub open spec fn primitive_map(kind: Primitive, component: u64) -> Map<u64, FunctionFacts> {
    Map::empty().insert(component, primitive_facts(kind))
}

/// `my` with the leaks of the return block recorded.
pub open spec fn with_leaks(my: Map<u64, FunctionFacts>, ret: Map<u64, LeakFacts>) -> Map<u64, FunctionFacts> {
    Map::new(
        |k: u64| my.contains_key(k) || ret.contains_key(k),
        |k: u64| if ret.contains_key(k) {
            FunctionFacts { leaks: ret[k], ..facts_of(my, k) }
        } else {
            my[k]
        },
    )
}

/// The borrows a block label holds: those of the label, or none where the block
/// has no label.
pub open spec fn label_at(labels: Seq<Option<Map<u64, LeakFacts>>>, b: int) -> Map<u64, LeakFacts> {
    match labels[b] {
        Some(m) => m,
        None => Map::empty(),
    }
}

/// A function's facts gathered from its call sites, taken in `order`: block `b`
/// calls a callee whose facts are `used[b]` while holding what its label holds.
pub open spec fn fold_calls(
    order: Seq<usize>,
    labels: Seq<Option<Map<u64, LeakFacts>>>,
    used: Map<usize, Map<u64, FunctionFacts>>,
) -> Map<u64, FunctionFacts>
    decreases order.len(),
{
    if order.len() == 0 {
        Map::empty()
    } else {
        let b = order.last();
        facts_after_call(fold_calls(order.drop_last(), labels, used), label_at(labels, b as int), used[b])
    }
}

/// Each successor of block `b` holds what `b` leaves held, or the disagreement
/// is reported at `b`.
pub open spec fn edge_ok(
    blocks: Seq<Block>,
    labels: Seq<Option<Map<u64, LeakFacts>>>,
    used: Map<usize, Map<u64, FunctionFacts>>,
    diags: Seq<LeakDiagnostic>,
    b: usize,
) -> bool {
    forall|k: int| 0 <= k < term_targets(blocks[b as int].terminator, blocks.len() as usize).len() ==> {
        let t = #[trigger] term_targets(blocks[b as int].terminator, blocks.len() as usize)[k] as int;
        &&& labels[t] is Some
        &&& (labels[t] == Some(leaks_after(label_at(labels, b as int), used[b]))
            || diags.contains(LeakDiagnostic::InconsistentPaths { span: blocks[b as int].span }))
    }
}

/// Every callee limit that what block `b` holds violates is reported at `b`.
pub open spec fn limits_reported(
    blocks: Seq<Block>,
    labels: Seq<Option<Map<u64, LeakFacts>>>,
    used: Map<usize, Map<u64, FunctionFacts>>,
    diags: Seq<LeakDiagnostic>,
    b: usize,
) -> bool {
    forall|k: u64| #[trigger] used[b].contains_key(k) ==> {
        let cf = used[b][k];
        let h = leak_of(label_at(labels, b as int), k);
        let span = blocks[b as int].span;
        &&& (sat_sub(cf.max_enter_mut, h.leaked_muts) < 0 ==> diags.contains(LeakDiagnostic::TooManyMuts {
            span,
            component: k,
            max_enter_mut: cf.max_enter_mut,
            leaked_muts: h.leaked_muts,
        }))
        &&& (sat_sub(cf.max_enter_ref, h.leaked_refs) < 0 ==> diags.contains(LeakDiagnostic::TooManyRefs {
            span,
            component: k,
            max_enter_ref: cf.max_enter_ref,
            leaked_refs: h.leaked_refs,
        }))
    }
}

/// Reports of violated limits stay as more is reported, and as long as the block's
/// label and callee facts stay.
proof fn lemma_limits_diags(
    blocks: Seq<Block>,
    l1: Seq<Option<Map<u64, LeakFacts>>>,
    l2: Seq<Option<Map<u64, LeakFacts>>>,
    u1: Map<usize, Map<u64, FunctionFacts>>,
    u2: Map<usize, Map<u64, FunctionFacts>>,
    d1: Seq<LeakDiagnostic>,
    d2: Seq<LeakDiagnostic>,
    b: usize,
)
    requires
        limits_reported(blocks, l1, u1, d1, b),
        label_at(l1, b as int) == label_at(l2, b as int),
        u1[b] == u2[b],
        d1.is_prefix_of(d2),
    ensures
        limits_reported(blocks, l2, u2, d2, b),
{
    assert forall|k: u64| #[trigger] u2[b].contains_key(k) implies {
        let cf = u2[b][k];
        let h = leak_of(label_at(l2, b as int), k);
        let span = blocks[b as int].span;
        &&& (sat_sub(cf.max_enter_mut, h.leaked_muts) < 0 ==> d2.contains(LeakDiagnostic::TooManyMuts {
            span,
            component: k,
            max_enter_mut: cf.max_enter_mut,
            leaked_muts: h.leaked_muts,
        }))
        &&& (sat_sub(cf.max_enter_ref, h.leaked_refs) < 0 ==> d2.contains(LeakDiagnostic::TooManyRefs {
            span,
            component: k,
            max_enter_ref: cf.max_enter_ref,
            leaked_refs: h.leaked_refs,
        }))
    } by {
        assert(u1[b].contains_key(k));
        let cf = u1[b][k];
        let h = leak_of(label_at(l1, b as int), k);
        let span = blocks[b as int].span;
        let em = LeakDiagnostic::TooManyMuts { span, component: k, max_enter_mut: cf.max_enter_mut, leaked_muts: h.leaked_muts };
        let er = LeakDiagnostic::TooManyRefs { span, component: k, max_enter_ref: cf.max_enter_ref, leaked_refs: h.leaked_refs };
        if d1.contains(em) {
            let w = choose|w: int| 0 <= w < d1.len() && d1[w] == em;
            assert(d2[w] == em);
        }
        if d1.contains(er) {
            let w = choose|w: int| 0 <= w < d1.len() && d1[w] == er;
            assert(d2[w] == er);
        }
    }
}

/// The limit diagnostics of a call site report every violated limit.
proof fn lemma_limit_reported(curr: Map<u64, LeakFacts>, entries: Seq<(u64, FunctionFacts)>, span: u64, k: u64)
    requires
        distinct_keys(entries),
        seq_map(entries).contains_key(k),
    ensures
        ({
            let cf = seq_map(entries)[k];
            let h = leak_of(curr, k);
            let d = limit_diags(curr, entries, span);
            &&& (sat_sub(cf.max_enter_mut, h.leaked_muts) < 0 ==> d.contains(LeakDiagnostic::TooManyMuts {
                span,
                component: k,
                max_enter_mut: cf.max_enter_mut,
                leaked_muts: h.leaked_muts,
            }))
            &&& (sat_sub(cf.max_enter_ref, h.leaked_refs) < 0 ==> d.contains(LeakDiagnostic::TooManyRefs {
                span,
                component: k,
                max_enter_ref: cf.max_enter_ref,
                leaked_refs: h.leaked_refs,
            }))
        }),
    decreases entries.len(),
{
    let i = choose|i: int| 0 <= i < entries.len() && #[trigger] entries[i].0 == k;
    lemma_seq_map_at(entries, i);
    let cf = entries[i].1;
    let h = leak_of(curr, k);
    let d = limit_diags(curr, entries, span);
    let rest = entries.drop_last();
    let pre = limit_diags(curr, rest, span);
    let em = LeakDiagnostic::TooManyMuts { span, component: k, max_enter_mut: cf.max_enter_mut, leaked_muts: h.leaked_muts };
    let er = LeakDiagnostic::TooManyRefs { span, component: k, max_enter_ref: cf.max_enter_ref, leaked_refs: h.leaked_refs };
    if i == entries.len() - 1 {
        assert(entries.last() == entries[i]);
        let cm = sat_sub(cf.max_enter_mut, h.leaked_muts);
        let cr = sat_sub(cf.max_enter_ref, h.leaked_refs);
        let dm = if cm < 0 { seq![em] } else { Seq::empty() };
        let dr = if cr < 0 { seq![er] } else { Seq::empty() };
        assert(d == pre + dm + dr);
        if cm < 0 {
            assert(d[pre.len() as int] == em);
        }
        if cr < 0 {
            assert(d[(pre.len() + dm.len()) as int] == er);
        }
    } else {
        assert(distinct_keys(rest));
        assert(rest[i] == entries[i]);
        lemma_seq_map_at(rest, i);
        lemma_limit_reported(curr, rest, span, k);
        let (k2, cf2) = entries.last();
        let held2 = leak_of(curr, k2);
        let cm2 = sat_sub(cf2.max_enter_mut, held2.leaked_muts);
        let cr2 = sat_sub(cf2.max_enter_ref, held2.leaked_refs);
        let dm2 = if cm2 < 0 { seq![LeakDiagnostic::TooManyMuts {
            span, component: k2, max_enter_mut: cf2.max_enter_mut, leaked_muts: held2.leaked_muts }] } else { Seq::empty() };
        let dr2 = if cr2 < 0 { seq![LeakDiagnostic::TooManyRefs {
            span, component: k2, max_enter_ref: cf2.max_enter_ref, leaked_refs: held2.leaked_refs }] } else { Seq::empty() };
        assert(d == pre + dm2 + dr2);
        if sat_sub(cf.max_enter_mut, h.leaked_muts) < 0 {
            let w = choose|w: int| 0 <= w < pre.len() && pre[w] == em;
            assert(d[w] == em);
        }
        if sat_sub(cf.max_enter_ref, h.leaked_refs) < 0 {
            let w = choose|w: int| 0 <= w < pre.len() && pre[w] == er;
            assert(d[w] == er);
        }
    }
}

/// Block `t` got its label from one of its predecessors in `order`: what that
/// predecessor leaves held.
pub open spec fn label_from(
    blocks: Seq<Block>,
    labels: Seq<Option<Map<u64, LeakFacts>>>,
    order: Seq<usize>,
    used: Map<usize, Map<u64, FunctionFacts>>,
    t: int,
) -> bool {
    exists|i: int, k: int|
        0 <= i < order.len() && 0 <= k < term_targets(blocks[order[i] as int].terminator, blocks.len() as usize).len()
        && #[trigger] term_targets(blocks[order[i] as int].terminator, blocks.len() as usize)[k] as int == t
        && labels[t] == Some(leaks_after(label_at(labels, order[i] as int), used[order[i]]))
}

/// One analysis of a body with `blocks`: `labels` gives the borrows held on entry
/// to each block reached (and, last, at its return), `order` the blocks whose
/// terminators it applied, each once, and `used[b]` the callee facts it applied
/// at block `b`. Block 0 holds nothing; every label comes from a predecessor;
/// every successor agrees with its predecessor or the disagreement is reported;
/// every violated callee limit is reported; and `facts` are the call sites' limits
/// with the return block's leaks.
pub open spec fn body_run(
    blocks: Seq<Block>,
    labels: Seq<Option<Map<u64, LeakFacts>>>,
    order: Seq<usize>,
    used: Map<usize, Map<u64, FunctionFacts>>,
    facts: Map<u64, FunctionFacts>,
    diags: Seq<LeakDiagnostic>,
) -> bool {
    let nb = blocks.len();
    &&& labels.len() == nb + 1
    &&& labels[0] == Some(Map::<u64, LeakFacts>::empty())
    &&& forall|i: int, j: int| 0 <= i < j < order.len() ==> order[i] != order[j]
    &&& forall|i: int| 0 <= i < order.len() ==> {
        &&& #[trigger] order[i] < nb
        &&& labels[order[i] as int] is Some
        &&& !(blocks[order[i] as int].terminator is Stop)
        &&& edge_ok(blocks, labels, used, diags, order[i])
        &&& limits_reported(blocks, labels, used, diags, order[i])
    }
    &&& forall|b: int| 0 <= b < nb && (#[trigger] labels[b]) is Some && !(blocks[b].terminator is Stop)
        ==> order.contains(b as usize)
    &&& forall|t: int| 0 < t <= nb && (#[trigger] labels[t]) is Some ==> label_from(blocks, labels, order, used, t)
    &&& facts == with_leaks(fold_calls(order, labels, used), label_at(labels, nb as int))
}

/// Some block of function `f` calls `g`.
pub open spec fn calls(p: LeakProgram, f: int, g: usize) -> bool {
    exists|b: int| 0 <= b < body_blocks(p, f).len() && #[trigger] term_callee(body_blocks(p, f)[b].terminator) == Some(g)
}

/// Each function of `path` calls the next.
pub open spec fn is_call_path(p: LeakProgram, path: Seq<usize>) -> bool {
    forall|i: int| 0 <= i < path.len() - 1 ==> #[trigger] calls(p, path[i] as int, path[i + 1])
}

/// A chain of calls, possibly empty, leads from `c` to `x`.
pub open spec fn reaches(p: LeakProgram, c: usize, x: usize) -> bool {
    exists|path: Seq<usize>| path.len() >= 1 && path[0] == c && path.last() == x && #[trigger] is_call_path(p, path)
}

proof fn lemma_reaches_refl(p: LeakProgram, a: usize)
    ensures
        reaches(p, a, a),
{
    let path = seq![a];
    assert(path.last() == a);
    assert(is_call_path(p, path));
}

proof fn lemma_reaches_trans(p: LeakProgram, a: usize, b: usize, c: usize)
    requires
        reaches(p, a, b),
        reaches(p, b, c),
    ensures
        reaches(p, a, c),
{
    let p1 = choose|path: Seq<usize>| path.len() >= 1 && path[0] == a && path.last() == b && #[trigger] is_call_path(p, path);
    let p2 = choose|path: Seq<usize>| path.len() >= 1 && path[0] == b && path.last() == c && #[trigger] is_call_path(p, path);
    let np = p1 + p2.drop_first();
    let m = p1.len() as int;
    assert forall|i: int| 0 <= i < np.len() - 1 implies #[trigger] calls(p, np[i] as int, np[i + 1]) by {
        if i < m - 1 {
            assert(np[i] == p1[i]);
            assert(np[i + 1] == p1[i + 1]);
        } else {
            let j = i - (m - 1);
            assert(np[i] == p2[j]) by {
                if i == m - 1 {
                    assert(np[i] == p1[m - 1]);
                    assert(p1[m - 1] == p1.last());
                } else {
                    assert(np[i] == p2.drop_first()[i - m]);
                }
            }
            assert(np[i + 1] == p2.drop_first()[i + 1 - m]);
            assert(np[i + 1] == p2[j + 1]);
            assert(calls(p, p2[j] as int, p2[j + 1]));
        }
    }
    assert(np[0] == a);
    if p2.len() == 1 {
        assert(np =~= p1);
    } else {
        assert(np.last() == p2.last());
    }
    assert(is_call_path(p, np));
}

proof fn lemma_reaches_call(p: LeakProgram, a: usize, b: usize)
    requires
        calls(p, a as int, b),
    ensures
        reaches(p, a, b),
{
    let path = seq![a, b];
    assert(path.last() == b);
    assert forall|i: int| 0 <= i < path.len() - 1 implies #[trigger] calls(p, path[i] as int, path[i + 1]) by {
        assert(i == 0);
    }
    assert(is_call_path(p, path));
}

/// No function reaches back into itself through its calls.
pub open spec fn call_acyclic(p: LeakProgram) -> bool {
    forall|f: int, g: usize| 0 <= f < p.fns@.len() && #[trigger] calls(p, f, g) ==> !reaches(p, g, f as usize)
}

/// The gathered facts depend only on the labels and callee facts of the blocks in
/// `order`.
proof fn lemma_fold_frame(
    order: Seq<usize>,
    l1: Seq<Option<Map<u64, LeakFacts>>>,
    l2: Seq<Option<Map<u64, LeakFacts>>>,
    u1: Map<usize, Map<u64, FunctionFacts>>,
    u2: Map<usize, Map<u64, FunctionFacts>>,
)
    requires
        forall|i: int| 0 <= i < order.len() ==> l1[#[trigger] order[i] as int] == l2[order[i] as int]
            && u1[order[i]] == u2[order[i]],
    ensures
        fold_calls(order, l1, u1) == fold_calls(order, l2, u2),
    decreases order.len(),
{
    if order.len() > 0 {
        let o = order.drop_last();
        assert forall|i: int| 0 <= i < o.len() implies l1[#[trigger] o[i] as int] == l2[o[i] as int]
            && u1[o[i]] == u2[o[i]] by {
            assert(o[i] == order[i]);
        }
        lemma_fold_frame(o, l1, l2, u1, u2);
        assert(order.last() == order[order.len() - 1]);
    }
}

/// Two call sites applied one after the other give the same facts in either order.
proof fn lemma_call_commute(
    my: Map<u64, FunctionFacts>,
    h1: Map<u64, LeakFacts>,
    f1: Map<u64, FunctionFacts>,
    h2: Map<u64, LeakFacts>,
    f2: Map<u64, FunctionFacts>,
)
    ensures
        facts_after_call(facts_after_call(my, h1, f1), h2, f2) == facts_after_call(facts_after_call(my, h2, f2), h1, f1),
{
    let a = facts_after_call(facts_after_call(my, h1, f1), h2, f2);
    let b = facts_after_call(facts_after_call(my, h2, f2), h1, f1);
    assert forall|k: u64| a.contains_key(k) == b.contains_key(k) && (a.contains_key(k) ==> a[k] == b[k]) by {
        if a.contains_key(k) {
            let base = facts_of(my, k);
            if f1.contains_key(k) && f2.contains_key(k) {
                let x = constrained(constrained(base, leak_of(h1, k), f1[k]), leak_of(h2, k), f2[k]);
                let y = constrained(constrained(base, leak_of(h2, k), f2[k]), leak_of(h1, k), f1[k]);
                assert(x == y);
            }
        }
    }
    assert(a =~= b);
}

/// Moving the block at `i` to the end of the order gives the same facts.
proof fn lemma_fold_move_last(
    order: Seq<usize>,
    labels: Seq<Option<Map<u64, LeakFacts>>>,
    used: Map<usize, Map<u64, FunctionFacts>>,
    i: int,
)
    requires
        0 <= i < order.len(),
    ensures
        fold_calls(order, labels, used) == fold_calls(order.remove(i).push(order[i]), labels, used),
    decreases order.len(),
{
    let n = order.len();
    if i == n - 1 {
        assert(order.remove(i).push(order[i]) =~= order);
    } else {
        let q = order.drop_last();
        let b = order.last();
        lemma_fold_move_last(q, labels, used, i);
        let r = q.remove(i);
        let c = q[i];
        assert(c == order[i]);
        let rc = r.push(c);
        assert(q.remove(i).push(q[i]) == rc);
        assert(rc.drop_last() =~= r);
        assert(rc.last() == c);
        let fr = fold_calls(r, labels, used);
        assert(fold_calls(q, labels, used) == facts_after_call(fr, label_at(labels, c as int), used[c]));
        assert(fold_calls(order, labels, used)
            == facts_after_call(fold_calls(q, labels, used), label_at(labels, b as int), used[b]));
        lemma_call_commute(fr, label_at(labels, c as int), used[c], label_at(labels, b as int), used[b]);
        let rb = r.push(b);
        assert(order.remove(i) =~= rb);
        let rbc = rb.push(c);
        assert(order.remove(i).push(order[i]) == rbc);
        assert(rbc.drop_last() =~= rb);
        assert(rbc.last() == c);
        assert(rb.drop_last() =~= r);
        assert(rb.last() == b);
        assert(fold_calls(rb, labels, used) == facts_after_call(fr, label_at(labels, b as int), used[b]));
        assert(fold_calls(rbc, labels, used)
            == facts_after_call(fold_calls(rb, labels, used), label_at(labels, c as int), used[c]));
    }
}

/// The gathered facts depend only on which blocks are applied, each once, not on
/// the order they are taken in.
pub proof fn lemma_fold_any_order(
    o1: Seq<usize>,
    o2: Seq<usize>,
    labels: Seq<Option<Map<u64, LeakFacts>>>,
    used: Map<usize, Map<u64, FunctionFacts>>,
)
    requires
        o1.no_duplicates(),
        o2.no_duplicates(),
        o1.to_set() == o2.to_set(),
    ensures
        fold_calls(o1, labels, used) == fold_calls(o2, labels, used),
    decreases o2.len(),
{
    o1.unique_seq_to_set();
    o2.unique_seq_to_set();
    if o2.len() > 0 {
        let b = o2.last();
        assert(o2.to_set().contains(b)) by {
            assert(o2.contains(b));
        }
        assert(o1.contains(b));
        let i = o1.index_of(b);
        lemma_fold_move_last(o1, labels, used, i);
        let r1 = o1.remove(i);
        let r2 = o2.drop_last();
        assert(r1.no_duplicates()) by {
            assert forall|x: int, y: int| 0 <= x < y < r1.len() implies r1[x] != r1[y] by {
                let xx = if x < i { x } else { x + 1 };
                let yy = if y < i { y } else { y + 1 };
                assert(r1[x] == o1[xx]);
                assert(r1[y] == o1[yy]);
            }
        }
        assert(r2.no_duplicates()) by {
            assert forall|x: int, y: int| 0 <= x < y < r2.len() implies r2[x] != r2[y] by {
                assert(r2[x] == o2[x]);
                assert(r2[y] == o2[y]);
            }
        }
        assert(r1.to_set() =~= r2.to_set()) by {
            assert forall|v: usize| r1.to_set().contains(v) <==> r2.to_set().contains(v) by {
                if r1.contains(v) {
                    let x = choose|x: int| 0 <= x < r1.len() && r1[x] == v;
                    let xx = if x < i { x } else { x + 1 };
                    assert(o1[xx] == v);
                    assert(v != b);
                    assert(o1.to_set().contains(v));
                    assert(o2.contains(v));
                    let y = choose|y: int| 0 <= y < o2.len() && o2[y] == v;
                    assert(y != o2.len() - 1);
                    assert(r2[y] == v);
                }
                if r2.contains(v) {
                    let y = choose|y: int| 0 <= y < r2.len() && r2[y] == v;
                    assert(o2[y] == v);
                    assert(v != b);
                    assert(o2.to_set().contains(v));
                    assert(o1.contains(v));
                    let x = choose|x: int| 0 <= x < o1.len() && o1[x] == v;
                    assert(x != i);
                    let xr = if x < i { x } else { x - 1 };
                    assert(r1[xr] == v);
                }
            }
        }
        lemma_fold_any_order(r1, r2, labels, used);
        assert(r1.push(b).drop_last() =~= r1);
    } else {
        assert(o1.len() == 0) by {
            if o1.len() > 0 {
                assert(o1.to_set().contains(o1[0]));
            }
        }
    }
}

proof fn lemma_limit_member(curr: Map<u64, LeakFacts>, entries: Seq<(u64, FunctionFacts)>, span: u64, d: LeakDiagnostic)
    requires
        limit_diags(curr, entries, span).contains(d),
    ensures
        exists|i: int| 0 <= i < entries.len() && {
            let (k, cf) = #[trigger] entries[i];
            let h = leak_of(curr, k);
            ||| (d == LeakDiagnostic::TooManyMuts { span, component: k, max_enter_mut: cf.max_enter_mut, leaked_muts: h.leaked_muts }
                && sat_sub(cf.max_enter_mut, h.leaked_muts) < 0)
            ||| (d == LeakDiagnostic::TooManyRefs { span, component: k, max_enter_ref: cf.max_enter_ref, leaked_refs: h.leaked_refs }
                && sat_sub(cf.max_enter_ref, h.leaked_refs) < 0)
        },
    decreases entries.len(),
{
    let all = limit_diags(curr, entries, span);
    let rest = entries.drop_last();
    let pre = limit_diags(curr, rest, span);
    let (k, cf) = entries.last();
    let h = leak_of(curr, k);
    let cm = sat_sub(cf.max_enter_mut, h.leaked_muts);
    let cr = sat_sub(cf.max_enter_ref, h.leaked_refs);
    let em = LeakDiagnostic::TooManyMuts { span, component: k, max_enter_mut: cf.max_enter_mut, leaked_muts: h.leaked_muts };
    let er = LeakDiagnostic::TooManyRefs { span, component: k, max_enter_ref: cf.max_enter_ref, leaked_refs: h.leaked_refs };
    let dm = if cm < 0 { seq![em] } else { Seq::empty() };
    let dr = if cr < 0 { seq![er] } else { Seq::empty() };
    assert(all == pre + dm + dr);
    let w = choose|w: int| 0 <= w < all.len() && all[w] == d;
    let last = entries.len() - 1;
    assert(entries[last] == entries.last());
    if w < pre.len() {
        assert(pre[w] == d);
        lemma_limit_member(curr, rest, span, d);
        let i = choose|i: int| 0 <= i < rest.len() && {
            let (k, cf) = #[trigger] rest[i];
            let h = leak_of(curr, k);
            ||| (d == LeakDiagnostic::TooManyMuts { span, component: k, max_enter_mut: cf.max_enter_mut, leaked_muts: h.leaked_muts }
                && sat_sub(cf.max_enter_mut, h.leaked_muts) < 0)
            ||| (d == LeakDiagnostic::TooManyRefs { span, component: k, max_enter_ref: cf.max_enter_ref, leaked_refs: h.leaked_refs }
                && sat_sub(cf.max_enter_ref, h.leaked_refs) < 0)
        };
        assert(entries[i] == rest[i]);
    } else if w < pre.len() + dm.len() {
        assert(d == em);
    } else {
        assert(d == er);
    }
}

proof fn lemma_recursion_member(s: Seq<(u64, LeakFacts)>, span: u64, d: LeakDiagnostic)
    requires
        recursion_diags(s, span).contains(d),
    ensures
        exists|i: int| 0 <= i < s.len() && (#[trigger] s[i]).1.leaked_muts > 0
            && d == (LeakDiagnostic::RecursesHoldingMut { span, component: s[i].0, leaked_muts: s[i].1.leaked_muts }),
    decreases s.len(),
{
    let all = recursion_diags(s, span);
    let pre = recursion_diags(s.drop_last(), span);
    let w = choose|w: int| 0 <= w < all.len() && all[w] == d;
    let last = s.len() - 1;
    assert(s[last] == s.last());
    if w < pre.len() {
        assert(pre[w] == d);
        lemma_recursion_member(s.drop_last(), span, d);
        let i = choose|i: int| 0 <= i < s.drop_last().len() && (#[trigger] s.drop_last()[i]).1.leaked_muts > 0
            && d == (LeakDiagnostic::RecursesHoldingMut { span, component: s.drop_last()[i].0, leaked_muts: s.drop_last()[i].1.leaked_muts });
        assert(s[i] == s.drop_last()[i]);
    }
}

proof fn lemma_inconsistency_member(
    bb: Seq<Option<Map<u64, LeakFacts>>>,
    targets: Seq<usize>,
    exp: Map<u64, LeakFacts>,
    span: u64,
    d: LeakDiagnostic,
)
    requires
        inconsistency_diags(bb, targets, exp, span).contains(d),
    ensures
        d == (LeakDiagnostic::InconsistentPaths { span }),
        exists|i: int| 0 <= i < targets.len() && bb[#[trigger] targets[i] as int] is Some
            && bb[targets[i] as int]->Some_0 != exp,
    decreases targets.len(),
{
    let all = inconsistency_diags(bb, targets, exp, span);
    let rest = targets.drop_last();
    let pre = inconsistency_diags(bb, rest, exp, span);
    let w = choose|w: int| 0 <= w < all.len() && all[w] == d;
    let last = targets.len() - 1;
    assert(targets[last] == targets.last());
    if w < pre.len() {
        assert(pre[w] == d);
        lemma_inconsistency_member(bb, rest, exp, span, d);
        let i = choose|i: int| 0 <= i < rest.len() && bb[#[trigger] rest[i] as int] is Some
            && bb[rest[i] as int]->Some_0 != exp;
        assert(targets[i] == rest[i]);
    }
}

proof fn lemma_recursive_leak_member(s: Seq<(u64, LeakFacts)>, recursive: bool, span: u64, d: LeakDiagnostic)
    requires
        recursive_leak_diags(s, recursive, span).contains(d),
    ensures
        exists|i: int| 0 <= i < s.len() && (#[trigger] s[i]).1 != zero_leaks()
            && d == (LeakDiagnostic::RecursiveLeak { span, component: s[i].0 }),
    decreases s.len(),
{
    let all = recursive_leak_diags(s, recursive, span);
    let pre = recursive_leak_diags(s.drop_last(), recursive, span);
    let w = choose|w: int| 0 <= w < all.len() && all[w] == d;
    let last = s.len() - 1;
    assert(s[last] == s.last());
    if w < pre.len() {
        assert(pre[w] == d);
        lemma_recursive_leak_member(s.drop_last(), recursive, span, d);
        let i = choose|i: int| 0 <= i < s.drop_last().len() && (#[trigger] s.drop_last()[i]).1 != zero_leaks()
            && d == (LeakDiagnostic::RecursiveLeak { span, component: s.drop_last()[i].0 });
        assert(s[i] == s.drop_last()[i]);
    }
}

proof fn lemma_forbidden_member(fs: Seq<(u64, ())>, facts: Map<u64, FunctionFacts>, span: u64, d: LeakDiagnostic)
    requires
        forbidden_diags(fs, facts, span).contains(d),
    ensures
        exists|i: int| 0 <= i < fs.len() && facts.contains_key((#[trigger] fs[i]).0) && facts[fs[i].0].mutably_borrows
            && d == (LeakDiagnostic::RecursiveMutWhileRef { span, component: fs[i].0 }),
    decreases fs.len(),
{
    let all = forbidden_diags(fs, facts, span);
    let pre = forbidden_diags(fs.drop_last(), facts, span);
    let w = choose|w: int| 0 <= w < all.len() && all[w] == d;
    let last = fs.len() - 1;
    assert(fs[last] == fs.last());
    if w < pre.len() {
        assert(pre[w] == d);
        lemma_forbidden_member(fs.drop_last(), facts, span, d);
        let i = choose|i: int| 0 <= i < fs.drop_last().len() && facts.contains_key((#[trigger] fs.drop_last()[i]).0)
            && facts[fs.drop_last()[i].0].mutably_borrows
            && d == (LeakDiagnostic::RecursiveMutWhileRef { span, component: fs.drop_last()[i].0 });
        assert(fs[i] == fs.drop_last()[i]);
    }
}

/// Block `b`, labelled, calls a callee that admits at most `mx` mutable borrows of
/// `k` while holding `lm` of them, too many.
pub open spec fn limit_mut_at(
    blocks: Seq<Block>,
    labels: Seq<Option<Map<u64, LeakFacts>>>,
    used: Map<usize, Map<u64, FunctionFacts>>,
    b: usize,
    span: u64,
    k: u64,
    mx: i32,
    lm: i32,
) -> bool {
    &&& blocks[b as int].span == span
    &&& labels[b as int] is Some
    &&& used[b].contains_key(k)
    &&& used[b][k].max_enter_mut == mx
    &&& leak_of(label_at(labels, b as int), k).leaked_muts == lm
    &&& sat_sub(mx, lm) < 0
}

/// The same for shared borrows.
pub open spec fn limit_ref_at(
    blocks: Seq<Block>,
    labels: Seq<Option<Map<u64, LeakFacts>>>,
    used: Map<usize, Map<u64, FunctionFacts>>,
    b: usize,
    span: u64,
    k: u64,
    mx: i32,
    lr: i32,
) -> bool {
    &&& blocks[b as int].span == span
    &&& labels[b as int] is Some
    &&& used[b].contains_key(k)
    &&& used[b][k].max_enter_ref == mx
    &&& leak_of(label_at(labels, b as int), k).leaked_refs == lr
    &&& sat_sub(mx, lr) < 0
}

/// A target of block `b`, labelled, holds other borrows than `b` leaves held.
pub open spec fn disagree_at(
    blocks: Seq<Block>,
    labels: Seq<Option<Map<u64, LeakFacts>>>,
    used: Map<usize, Map<u64, FunctionFacts>>,
    b: usize,
    span: u64,
) -> bool {
    &&& blocks[b as int].span == span
    &&& labels[b as int] is Some
    &&& exists|i: int| 0 <= i < term_targets(blocks[b as int].terminator, blocks.len() as usize).len() && {
        let t = #[trigger] term_targets(blocks[b as int].terminator, blocks.len() as usize)[i] as int;
        labels[t] is Some && labels[t] != Some(leaks_after(label_at(labels, b as int), used[b]))
    }
}

/// Block `b`, labelled, calls out while holding `lm > 0` mutable borrows of `k`.
pub open spec fn recurse_mut_at(
    blocks: Seq<Block>,
    labels: Seq<Option<Map<u64, LeakFacts>>>,
    b: usize,
    span: u64,
    k: u64,
    lm: i32,
) -> bool {
    &&& blocks[b as int].span == span
    &&& labels[b as int] is Some
    &&& term_callee(blocks[b as int].terminator) is Some
    &&& label_at(labels, b as int).contains_key(k)
    &&& label_at(labels, b as int)[k].leaked_muts == lm
    &&& lm > 0
}

/// Some applied block calls out while holding a shared borrow of `k`.
pub open spec fn shared_at_call(
    blocks: Seq<Block>,
    labels: Seq<Option<Map<u64, LeakFacts>>>,
    order: Seq<usize>,
    k: u64,
) -> bool {
    exists|j: int| 0 <= j < order.len() && {
        let b = #[trigger] order[j] as int;
        &&& labels[b] is Some
        &&& term_callee(blocks[b].terminator) is Some
        &&& label_at(labels, b).contains_key(k)
        &&& label_at(labels, b)[k].leaked_refs > 0
    }
}

/// Diagnostic `d` is explained by the run of a body with `blocks` and span
/// `body_span`, recorded as `labels`, `order` and `used`, with `facts` once complete.
pub open spec fn run_explains(
    blocks: Seq<Block>,
    body_span: u64,
    labels: Seq<Option<Map<u64, LeakFacts>>>,
    order: Seq<usize>,
    used: Map<usize, Map<u64, FunctionFacts>>,
    facts: Option<Map<u64, FunctionFacts>>,
    d: LeakDiagnostic,
) -> bool {
    match d {
        LeakDiagnostic::TooManyMuts { span, component, max_enter_mut, leaked_muts } => exists|j: int|
            0 <= j < order.len() && limit_mut_at(blocks, labels, used, #[trigger] order[j], span, component, max_enter_mut, leaked_muts),
        LeakDiagnostic::TooManyRefs { span, component, max_enter_ref, leaked_refs } => exists|j: int|
            0 <= j < order.len() && limit_ref_at(blocks, labels, used, #[trigger] order[j], span, component, max_enter_ref, leaked_refs),
        LeakDiagnostic::InconsistentPaths { span } => exists|j: int|
            0 <= j < order.len() && disagree_at(blocks, labels, used, #[trigger] order[j], span),
        LeakDiagnostic::RecursesHoldingMut { span, component, leaked_muts } => exists|j: int|
            0 <= j < order.len() && recurse_mut_at(blocks, labels, #[trigger] order[j], span, component, leaked_muts),
        LeakDiagnostic::RecursiveLeak { span, component } => {
            &&& facts is Some
            &&& span == body_span
            &&& label_at(labels, blocks.len() as int).contains_key(component)
            &&& label_at(labels, blocks.len() as int)[component] != zero_leaks()
        },
        LeakDiagnostic::RecursiveMutWhileRef { span, component } => {
            &&& facts matches Some(f) && f.contains_key(component) && f[component].mutably_borrows
            &&& span == body_span
            &&& shared_at_call(blocks, labels, order, component)
        },
    }
}

/// The run recorded as `(l2, o2, u2)` continues the one recorded as `(l1, o1, u1)`.
pub open spec fn run_extends(
    l1: Seq<Option<Map<u64, LeakFacts>>>,
    o1: Seq<usize>,
    u1: Map<usize, Map<u64, FunctionFacts>>,
    l2: Seq<Option<Map<u64, LeakFacts>>>,
    o2: Seq<usize>,
    u2: Map<usize, Map<u64, FunctionFacts>>,
) -> bool {
    &&& l1.len() == l2.len()
    &&& o1.is_prefix_of(o2)
    &&& forall|t: int| 0 <= t < l1.len() && (#[trigger] l1[t]) is Some ==> l2[t] == l1[t]
    &&& forall|j: int| 0 <= j < o1.len() ==> u2[#[trigger] o1[j]] == u1[o1[j]]
}

/// An explanation stays one as the run goes on.
proof fn lemma_run_explains_extends(
    blocks: Seq<Block>,
    body_span: u64,
    l1: Seq<Option<Map<u64, LeakFacts>>>,
    o1: Seq<usize>,
    u1: Map<usize, Map<u64, FunctionFacts>>,
    f1: Option<Map<u64, FunctionFacts>>,
    l2: Seq<Option<Map<u64, LeakFacts>>>,
    o2: Seq<usize>,
    u2: Map<usize, Map<u64, FunctionFacts>>,
    f2: Option<Map<u64, FunctionFacts>>,
    d: LeakDiagnostic,
)
    requires
        run_explains(blocks, body_span, l1, o1, u1, f1, d),
        run_extends(l1, o1, u1, l2, o2, u2),
        targets_in_range(blocks),
        l1.len() == blocks.len() + 1,
        forall|j: int| 0 <= j < o1.len() ==> #[trigger] o1[j] < blocks.len(),
        f1 is Some ==> f2 == f1 && l2 == l1 && o2 == o1,
    ensures
        run_explains(blocks, body_span, l2, o2, u2, f2, d),
{
    match d {
        LeakDiagnostic::TooManyMuts { span, component, max_enter_mut, leaked_muts } => {
            let j = choose|j: int| 0 <= j < o1.len() && limit_mut_at(blocks, l1, u1, #[trigger] o1[j], span, component, max_enter_mut, leaked_muts);
            assert(o2[j] == o1[j]);
            assert(limit_mut_at(blocks, l2, u2, o2[j], span, component, max_enter_mut, leaked_muts));
        },
        LeakDiagnostic::TooManyRefs { span, component, max_enter_ref, leaked_refs } => {
            let j = choose|j: int| 0 <= j < o1.len() && limit_ref_at(blocks, l1, u1, #[trigger] o1[j], span, component, max_enter_ref, leaked_refs);
            assert(o2[j] == o1[j]);
            assert(limit_ref_at(blocks, l2, u2, o2[j], span, component, max_enter_ref, leaked_refs));
        },
        LeakDiagnostic::InconsistentPaths { span } => {
            let j = choose|j: int| 0 <= j < o1.len() && disagree_at(blocks, l1, u1, #[trigger] o1[j], span);
            let b = o1[j];
            assert(o2[j] == b);
            let i = choose|i: int| 0 <= i < term_targets(blocks[b as int].terminator, blocks.len() as usize).len() && {
                let t = #[trigger] term_targets(blocks[b as int].terminator, blocks.len() as usize)[i] as int;
                l1[t] is Some && l1[t] != Some(leaks_after(label_at(l1, b as int), u1[b]))
            };
            let t = term_targets(blocks[b as int].terminator, blocks.len() as usize)[i] as int;
            assert(t <= blocks.len());
            assert(l2[t] == l1[t]);
            assert(disagree_at(blocks, l2, u2, o2[j], span));
        },
        LeakDiagnostic::RecursesHoldingMut { span, component, leaked_muts } => {
            let j = choose|j: int| 0 <= j < o1.len() && recurse_mut_at(blocks, l1, #[trigger] o1[j], span, component, leaked_muts);
            assert(o2[j] == o1[j]);
            assert(recurse_mut_at(blocks, l2, o2[j], span, component, leaked_muts));
        },
        _ => {},
    }
}

/// What applying block `curr` reports is explained by the run once `curr` is applied.
proof fn lemma_step_segment_explained(
    blocks: Seq<Block>,
    body_span: u64,
    order: Seq<usize>,
    used: Map<usize, Map<u64, FunctionFacts>>,
    l0: Seq<Option<Map<u64, LeakFacts>>>,
    curr: usize,
    call: Map<u64, FunctionFacts>,
    call_entries: Seq<(u64, FunctionFacts)>,
    curr_entries: Seq<(u64, LeakFacts)>,
    rec: bool,
    d: LeakDiagnostic,
)
    requires
        l0.len() == blocks.len() + 1,
        targets_in_range(blocks),
        curr < blocks.len(),
        l0[curr as int] is Some,
        distinct_keys(curr_entries),
        seq_map(curr_entries) == label_at(l0, curr as int),
        distinct_keys(call_entries),
        seq_map(call_entries) == call,
        rec ==> term_callee(blocks[curr as int].terminator) is Some,
        ((if rec { recursion_diags(curr_entries, blocks[curr as int].span) } else { Seq::empty() })
            + limit_diags(label_at(l0, curr as int), call_entries, blocks[curr as int].span)
            + inconsistency_diags(l0, term_targets(blocks[curr as int].terminator, blocks.len() as usize),
                leaks_after(label_at(l0, curr as int), call), blocks[curr as int].span)).contains(d),
    ensures
        run_explains(blocks, body_span, step_labels(blocks, l0, curr, call), order.push(curr), used.insert(curr, call), None, d),
{
    let span = blocks[curr as int].span;
    let held = label_at(l0, curr as int);
    let ts = term_targets(blocks[curr as int].terminator, blocks.len() as usize);
    let exp = leaks_after(held, call);
    let ra = if rec { recursion_diags(curr_entries, span) } else { Seq::empty() };
    let lb = limit_diags(held, call_entries, span);
    let ic = inconsistency_diags(l0, ts, exp, span);
    let seg = ra + lb + ic;
    let l1 = step_labels(blocks, l0, curr, call);
    let o1 = order.push(curr);
    let u1 = used.insert(curr, call);
    let jc = order.len() as int;
    assert(o1[jc] == curr);
    assert(l1[curr as int] == l0[curr as int]);
    assert(label_at(l1, curr as int) == held);
    let w = choose|w: int| 0 <= w < seg.len() && seg[w] == d;
    if w < ra.len() {
        assert(ra[w] == d);
        lemma_recursion_member(curr_entries, span, d);
        let i = choose|i: int| 0 <= i < curr_entries.len() && (#[trigger] curr_entries[i]).1.leaked_muts > 0
            && d == (LeakDiagnostic::RecursesHoldingMut { span, component: curr_entries[i].0, leaked_muts: curr_entries[i].1.leaked_muts });
        lemma_seq_map_at(curr_entries, i);
        assert(recurse_mut_at(blocks, l1, o1[jc], span, curr_entries[i].0, curr_entries[i].1.leaked_muts));
    } else if w < ra.len() + lb.len() {
        assert(lb[w - ra.len()] == d);
        lemma_limit_member(held, call_entries, span, d);
        let i = choose|i: int| 0 <= i < call_entries.len() && {
            let (k, cf) = #[trigger] call_entries[i];
            let h = leak_of(held, k);
            ||| (d == LeakDiagnostic::TooManyMuts { span, component: k, max_enter_mut: cf.max_enter_mut, leaked_muts: h.leaked_muts }
                && sat_sub(cf.max_enter_mut, h.leaked_muts) < 0)
            ||| (d == LeakDiagnostic::TooManyRefs { span, component: k, max_enter_ref: cf.max_enter_ref, leaked_refs: h.leaked_refs }
                && sat_sub(cf.max_enter_ref, h.leaked_refs) < 0)
        };
        lemma_seq_map_at(call_entries, i);
        let (k, cf) = call_entries[i];
        assert(u1[curr] == call);
        if d is TooManyMuts {
            assert(limit_mut_at(blocks, l1, u1, o1[jc], span, k, cf.max_enter_mut, leak_of(held, k).leaked_muts));
        } else {
            assert(limit_ref_at(blocks, l1, u1, o1[jc], span, k, cf.max_enter_ref, leak_of(held, k).leaked_refs));
        }
    } else {
        assert(ic[w - ra.len() - lb.len()] == d);
        lemma_inconsistency_member(l0, ts, exp, span, d);
        let i = choose|i: int| 0 <= i < ts.len() && l0[#[trigger] ts[i] as int] is Some && l0[ts[i] as int]->Some_0 != exp;
        let t = ts[i] as int;
        assert(t <= blocks.len());
        assert(l1[t] == l0[t]);
        assert(u1[curr] == call);
        assert(term_targets(blocks[o1[jc] as int].terminator, blocks.len() as usize)[i] as int == t);
        assert(disagree_at(blocks, l1, u1, o1[jc], span));
    }
}

/// The limit diagnostics a call site appends report each limit it violates.
proof fn lemma_apply_limits(
    blocks: Seq<Block>,
    l0: Seq<Option<Map<u64, LeakFacts>>>,
    used: Map<usize, Map<u64, FunctionFacts>>,
    curr: usize,
    call: Map<u64, FunctionFacts>,
    entries: Seq<(u64, FunctionFacts)>,
    dpre: Seq<LeakDiagnostic>,
    dmid: Seq<LeakDiagnostic>,
)
    requires
        distinct_keys(entries),
        seq_map(entries) == call,
        dmid == dpre + limit_diags(label_at(l0, curr as int), entries, blocks[curr as int].span),
    ensures
        limits_reported(blocks, l0, used.insert(curr, call), dmid, curr),
{
    let used1 = used.insert(curr, call);
    let span = blocks[curr as int].span;
    let held = label_at(l0, curr as int);
    let inc = limit_diags(held, entries, span);
    assert forall|k: u64| #[trigger] used1[curr].contains_key(k) implies {
        let cf = used1[curr][k];
        let h = leak_of(label_at(l0, curr as int), k);
        let sp = blocks[curr as int].span;
        &&& (sat_sub(cf.max_enter_mut, h.leaked_muts) < 0 ==> dmid.contains(LeakDiagnostic::TooManyMuts {
            span: sp,
            component: k,
            max_enter_mut: cf.max_enter_mut,
            leaked_muts: h.leaked_muts,
        }))
        &&& (sat_sub(cf.max_enter_ref, h.leaked_refs) < 0 ==> dmid.contains(LeakDiagnostic::TooManyRefs {
            span: sp,
            component: k,
            max_enter_ref: cf.max_enter_ref,
            leaked_refs: h.leaked_refs,
        }))
    } by {
        lemma_limit_reported(held, entries, span, k);
        let cf = used1[curr][k];
        let h = leak_of(held, k);
        let em = LeakDiagnostic::TooManyMuts { span, component: k, max_enter_mut: cf.max_enter_mut, leaked_muts: h.leaked_muts };
        let er = LeakDiagnostic::TooManyRefs { span, component: k, max_enter_ref: cf.max_enter_ref, leaked_refs: h.leaked_refs };
        if inc.contains(em) {
            let w = choose|w: int| 0 <= w < inc.len() && inc[w] == em;
            assert(dmid[dpre.len() + w] == em);
        }
        if inc.contains(er) {
            let w = choose|w: int| 0 <= w < inc.len() && inc[w] == er;
            assert(dmid[dpre.len() + w] == er);
        }
    }
}

/// Which labels are set.
pub open spec fn some_mask(labels: Seq<Option<Map<u64, LeakFacts>>>) -> Seq<bool> {
    Seq::new(labels.len(), |i: int| labels[i] is Some)
}

/// The state of one body's analysis between two blocks: the labels `lv`, the worklist,
/// the blocks applied so far with their callee facts, what has been reported, the
/// facts gathered so far and the components forbidden by recursive calls.
#[verifier::opaque]
spec fn run_state(
    blocks: Seq<Block>,
    lv: Seq<Option<Map<u64, LeakFacts>>>,
    queue: Seq<usize>,
    processed: Seq<bool>,
    order: Seq<usize>,
    used: Map<usize, Map<u64, FunctionFacts>>,
    diags: Seq<LeakDiagnostic>,
    my: Map<u64, FunctionFacts>,
    forb: Map<u64, ()>,
) -> bool {
    &&& lv.len() == blocks.len() + 1
    &&& lv[0] == Some(Map::<u64, LeakFacts>::empty())
    &&& worklist_ok(blocks, some_mask(lv), queue, processed, order)
    &&& forall|i: int| 0 <= i < order.len() ==> edge_ok(blocks, lv, used, diags, #[trigger] order[i])
        && limits_reported(blocks, lv, used, diags, order[i])
    &&& forall|t: int| 0 < t <= blocks.len() && (#[trigger] lv[t]) is Some ==> label_from(blocks, lv, order, used, t)
    &&& my == fold_calls(order, lv, used)
    &&& forbidden_shared(blocks, lv, order, forb)
}

/// The state before the first block.
proof fn lemma_run_state_init(blocks: Seq<Block>, lv: Seq<Option<Map<u64, LeakFacts>>>)
    requires
        blocks.len() >= 1,
        blocks.len() < usize::MAX,
        lv.len() == blocks.len() + 1,
        lv[0] == Some(Map::<u64, LeakFacts>::empty()),
        forall|t: int| 0 < t < lv.len() ==> (#[trigger] lv[t]) is None,
    ensures
        run_state(blocks, lv, seq![0usize], Seq::new(blocks.len(), |i: int| false), Seq::empty(),
            Map::empty(), Seq::empty(), Map::empty(), Map::empty()),
{
    reveal(run_state);
    reveal(forbidden_shared);
    let q = seq![0usize];
    let lab = some_mask(lv);
    assert(q[0] == 0);
    assert forall|b: int| 0 <= b < blocks.len() && #[trigger] lab[b] implies q.contains(b as usize) by {
        assert(b == 0);
        assert(q[0] == 0);
    }
    assert(fold_calls(Seq::<usize>::empty(), lv, Map::empty()) == Map::<u64, FunctionFacts>::empty());
}

/// A state stays one as more is reported.
proof fn lemma_run_state_diags(
    blocks: Seq<Block>,
    lv: Seq<Option<Map<u64, LeakFacts>>>,
    queue: Seq<usize>,
    processed: Seq<bool>,
    order: Seq<usize>,
    used: Map<usize, Map<u64, FunctionFacts>>,
    d1: Seq<LeakDiagnostic>,
    d2: Seq<LeakDiagnostic>,
    my: Map<u64, FunctionFacts>,
    forb: Map<u64, ()>,
)
    requires
        run_state(blocks, lv, queue, processed, order, used, d1, my, forb),
        d1.is_prefix_of(d2),
    ensures
        run_state(blocks, lv, queue, processed, order, used, d2, my, forb),
{
    reveal(run_state);
    assert forall|i: int| 0 <= i < order.len() implies edge_ok(blocks, lv, used, d2, #[trigger] order[i])
        && limits_reported(blocks, lv, used, d2, order[i]) by {
        let b = order[i];
        lemma_limits_diags(blocks, lv, lv, used, used, d1, d2, b);
        assert(edge_ok(blocks, lv, used, d1, b));
        assert forall|k: int| 0 <= k < term_targets(blocks[b as int].terminator, blocks.len() as usize).len() implies {
            let t = #[trigger] term_targets(blocks[b as int].terminator, blocks.len() as usize)[k] as int;
            &&& lv[t] is Some
            &&& (lv[t] == Some(leaks_after(label_at(lv, b as int), used[b]))
                || d2.contains(LeakDiagnostic::InconsistentPaths { span: blocks[b as int].span }))
        } by {
            let e = LeakDiagnostic::InconsistentPaths { span: blocks[b as int].span };
            if d1.contains(e) {
                let w = choose|w: int| 0 <= w < d1.len() && d1[w] == e;
                assert(d2[w] == e);
            }
        }
    }
}

/// What a state says of the block taken off the worklist.
proof fn lemma_run_state_pop(
    blocks: Seq<Block>,
    lv: Seq<Option<Map<u64, LeakFacts>>>,
    queue: Seq<usize>,
    processed: Seq<bool>,
    order: Seq<usize>,
    used: Map<usize, Map<u64, FunctionFacts>>,
    diags: Seq<LeakDiagnostic>,
    my: Map<u64, FunctionFacts>,
    forb: Map<u64, ()>,
)
    requires
        run_state(blocks, lv, queue, processed, order, used, diags, my, forb),
        queue.len() > 0,
    ensures
        queue.last() < blocks.len(),
        lv[queue.last() as int] is Some,
        !order.contains(queue.last()),
        !processed[queue.last() as int],
        lv.len() == blocks.len() + 1,
        forall|j: int| 0 <= j < order.len() ==> #[trigger] order[j] < blocks.len(),
{
    reveal(run_state);
    assert(queue[queue.len() - 1] == queue.last());
    if order.contains(queue.last()) {
        let j = choose|j: int| 0 <= j < order.len() && order[j] == queue.last();
        assert(processed[order[j] as int]);
    }
}

/// Taking a block that ends its path.
proof fn lemma_run_state_stop(
    blocks: Seq<Block>,
    lv: Seq<Option<Map<u64, LeakFacts>>>,
    queue: Seq<usize>,
    processed: Seq<bool>,
    order: Seq<usize>,
    used: Map<usize, Map<u64, FunctionFacts>>,
    diags: Seq<LeakDiagnostic>,
    my: Map<u64, FunctionFacts>,
    forb: Map<u64, ()>,
)
    requires
        run_state(blocks, lv, queue, processed, order, used, diags, my, forb),
        queue.len() > 0,
        blocks[queue.last() as int].terminator is Stop,
    ensures
        run_state(blocks, lv, queue.drop_last(), processed.update(queue.last() as int, true), order, used, diags, my, forb),
{
    reveal(run_state);
    lemma_worklist_stop(blocks, some_mask(lv), queue, processed, order);
}

/// Applying the block `curr` taken off the worklist: its callee facts `call`, the
/// limit and disagreement reports, the new labels and queued blocks, and the
/// components forbidden by a recursive call at it.
proof fn lemma_run_state_step(
    blocks: Seq<Block>,
    lv0: Seq<Option<Map<u64, LeakFacts>>>,
    q0: Seq<usize>,
    q1: Seq<usize>,
    processed: Seq<bool>,
    order: Seq<usize>,
    used: Map<usize, Map<u64, FunctionFacts>>,
    d0: Seq<LeakDiagnostic>,
    dpre: Seq<LeakDiagnostic>,
    d1: Seq<LeakDiagnostic>,
    my0: Map<u64, FunctionFacts>,
    f0: Map<u64, ()>,
    f1: Map<u64, ()>,
    call: Map<u64, FunctionFacts>,
    call_entries: Seq<(u64, FunctionFacts)>,
    rec: bool,
)
    requires
        run_state(blocks, lv0, q0, processed, order, used, d0, my0, f0),
        targets_in_range(blocks),
        q0.len() > 0,
        !(blocks[q0.last() as int].terminator is Stop),
        d0.is_prefix_of(dpre),
        distinct_keys(call_entries),
        seq_map(call_entries) == call,
        d1 == dpre + limit_diags(label_at(lv0, q0.last() as int), call_entries, blocks[q0.last() as int].span)
            + inconsistency_diags(lv0, term_targets(blocks[q0.last() as int].terminator, blocks.len() as usize),
                leaks_after(label_at(lv0, q0.last() as int), call), blocks[q0.last() as int].span),
        q0.drop_last().is_prefix_of(q1),
        forall|j: int| q0.len() - 1 <= j < q1.len() ==> {
            let t = #[trigger] q1[j] as int;
            &&& t < blocks.len()
            &&& lv0[t] is None
            &&& term_targets(blocks[q0.last() as int].terminator, blocks.len() as usize).contains(t as usize)
        },
        forall|t: int| 0 <= t < blocks.len() && lv0[t] is None
            && term_targets(blocks[q0.last() as int].terminator, blocks.len() as usize).contains(t as usize)
            ==> #[trigger] q1.contains(t as usize),
        forall|j1: int, j2: int| q0.len() - 1 <= j1 < j2 < q1.len() ==> q1[j1] != q1[j2],
        forall|k: u64| #[trigger] f1.contains_key(k) ==> f0.contains_key(k) || (rec
            && label_at(lv0, q0.last() as int).contains_key(k) && label_at(lv0, q0.last() as int)[k].leaked_refs > 0),
        rec ==> term_callee(blocks[q0.last() as int].terminator) is Some,
    ensures
        run_state(blocks, step_labels(blocks, lv0, q0.last(), call), q1, processed.update(q0.last() as int, true),
            order.push(q0.last()), used.insert(q0.last(), call), d1,
            facts_after_call(my0, label_at(lv0, q0.last() as int), call), f1),
{
    reveal(run_state);
    let curr = q0.last();
    let nb = blocks.len();
    let lv1 = step_labels(blocks, lv0, curr, call);
    let ts = term_targets(blocks[curr as int].terminator, nb as usize);
    let span = blocks[curr as int].span;
    let dmid = dpre + limit_diags(label_at(lv0, curr as int), call_entries, span);
    assert(d1 == dmid + inconsistency_diags(lv0, ts, leaks_after(label_at(lv0, curr as int), call), span));
    assert(q0[q0.len() - 1] == curr);
    assert(forall|i: int| 0 <= i < some_mask(lv1).len() ==> #[trigger] some_mask(lv1)[i] == (some_mask(lv0)[i] || ts.contains(i as usize)));
    lemma_worklist_step(blocks, some_mask(lv0), some_mask(lv1), q0, q1, processed, order);
    assert(!order.contains(curr));
    assert(lv0[curr as int] is Some);
    lemma_apply_limits(blocks, lv0, used, curr, call, call_entries, dpre, dmid);
    assert(d0.is_prefix_of(dmid)) by {
        assert forall|w: int| 0 <= w < d0.len() implies d0[w] == dmid[w] by {
            assert(d0[w] == dpre[w]);
        }
    }
    lemma_run_step(blocks, order, used, lv0, curr, call, d0, dmid, d1);
    reveal(forbidden_shared);
    assert forall|k: u64| #[trigger] f1.contains_key(k) implies shared_at_call(blocks, lv1, order.push(curr), k) by {
        if f0.contains_key(k) {
            lemma_shared_step(blocks, order, lv0, curr, call, k);
        } else {
            lemma_shared_new(blocks, order, lv0, curr, call, k);
        }
    }
}

/// Once the worklist is empty, the state is a body run.
proof fn lemma_run_state_done(
    blocks: Seq<Block>,
    lv: Seq<Option<Map<u64, LeakFacts>>>,
    processed: Seq<bool>,
    order: Seq<usize>,
    used: Map<usize, Map<u64, FunctionFacts>>,
    diags: Seq<LeakDiagnostic>,
    my: Map<u64, FunctionFacts>,
    forb: Map<u64, ()>,
)
    requires
        run_state(blocks, lv, Seq::empty(), processed, order, used, diags, my, forb),
    ensures
        body_run(blocks, lv, order, used, with_leaks(my, label_at(lv, blocks.len() as int)), diags),
        forbidden_shared(blocks, lv, order, forb),
        lv.len() == blocks.len() + 1,
        forall|b: int| 0 <= b < blocks.len() && (#[trigger] lv[b]) is Some ==> processed[b],
        forall|b: int| 0 <= b < blocks.len() && #[trigger] processed[b] ==> {
            &&& lv[b] is Some
            &&& forall|k: int| 0 <= k < term_targets(blocks[b].terminator, blocks.len() as usize).len()
                ==> lv[#[trigger] term_targets(blocks[b].terminator, blocks.len() as usize)[k] as int] is Some
        },
        forall|j: int| 0 <= j < order.len() ==> #[trigger] order[j] < blocks.len() && processed[order[j] as int],
{
    reveal(run_state);
    let lab = some_mask(lv);
    assert forall|b: int| 0 <= b < blocks.len() && (#[trigger] lv[b]) is Some implies processed[b] by {
        assert(lab[b]);
        assert(!Seq::<usize>::empty().contains(b as usize));
    }
    assert forall|b: int| 0 <= b < blocks.len() && #[trigger] processed[b] implies {
        &&& lv[b] is Some
        &&& forall|k: int| 0 <= k < term_targets(blocks[b].terminator, blocks.len() as usize).len()
            ==> lv[#[trigger] term_targets(blocks[b].terminator, blocks.len() as usize)[k] as int] is Some
    } by {
        assert(lab[b]);
        assert forall|k: int| 0 <= k < term_targets(blocks[b].terminator, blocks.len() as usize).len()
            implies lv[#[trigger] term_targets(blocks[b].terminator, blocks.len() as usize)[k] as int] is Some by {
            assert(lab[term_targets(blocks[b].terminator, blocks.len() as usize)[k] as int]);
        }
    }
    assert forall|b: int| 0 <= b < blocks.len() && (#[trigger] lv[b]) is Some && !(blocks[b].terminator is Stop)
        implies order.contains(b as usize) by {
        assert(processed[b]);
    }
    assert forall|i: int| 0 <= i < order.len() implies {
        &&& #[trigger] order[i] < blocks.len()
        &&& lv[order[i] as int] is Some
        &&& !(blocks[order[i] as int].terminator is Stop)
        &&& edge_ok(blocks, lv, used, diags, order[i])
        &&& limits_reported(blocks, lv, used, diags, order[i])
    } by {
        assert(processed[order[i] as int]);
        assert(lab[order[i] as int]);
    }
}

/// Every component in `forbidden` is held shared at an applied call site.
#[verifier::opaque]
pub open spec fn forbidden_shared(
    blocks: Seq<Block>,
    labels: Seq<Option<Map<u64, LeakFacts>>>,
    order: Seq<usize>,
    forbidden: Map<u64, ()>,
) -> bool {
    forall|k: u64| #[trigger] forbidden.contains_key(k) ==> shared_at_call(blocks, labels, order, k)
}

/// A shared borrow held at an applied call site stays so as the run goes on.
proof fn lemma_shared_step(
    blocks: Seq<Block>,
    order: Seq<usize>,
    l0: Seq<Option<Map<u64, LeakFacts>>>,
    curr: usize,
    call: Map<u64, FunctionFacts>,
    k: u64,
)
    requires
        shared_at_call(blocks, l0, order, k),
        l0.len() == blocks.len() + 1,
        forall|j: int| 0 <= j < order.len() ==> #[trigger] order[j] < blocks.len(),
    ensures
        shared_at_call(blocks, step_labels(blocks, l0, curr, call), order.push(curr), k),
{
    let l1 = step_labels(blocks, l0, curr, call);
    let o1 = order.push(curr);
    let j = choose|j: int| 0 <= j < order.len() && {
        let b = #[trigger] order[j] as int;
        &&& l0[b] is Some
        &&& term_callee(blocks[b].terminator) is Some
        &&& label_at(l0, b).contains_key(k)
        &&& label_at(l0, b)[k].leaked_refs > 0
    };
    let b = order[j] as int;
    assert(o1[j] == order[j]);
    assert(l1[b] == l0[b]);
    assert(label_at(l1, b) == label_at(l0, b));
}

/// A shared borrow held at the call site just applied.
proof fn lemma_shared_new(
    blocks: Seq<Block>,
    order: Seq<usize>,
    l0: Seq<Option<Map<u64, LeakFacts>>>,
    curr: usize,
    call: Map<u64, FunctionFacts>,
    k: u64,
)
    requires
        l0.len() == blocks.len() + 1,
        curr < blocks.len(),
        l0[curr as int] is Some,
        term_callee(blocks[curr as int].terminator) is Some,
        label_at(l0, curr as int).contains_key(k),
        label_at(l0, curr as int)[k].leaked_refs > 0,
    ensures
        shared_at_call(blocks, step_labels(blocks, l0, curr, call), order.push(curr), k),
{
    let l1 = step_labels(blocks, l0, curr, call);
    let o1 = order.push(curr);
    let j = order.len() as int;
    assert(o1[j] == curr);
    assert(l1[curr as int] == l0[curr as int]);
    assert(label_at(l1, curr as int) == label_at(l0, curr as int));
}

/// A target already labelled with other borrows is reported.
proof fn lemma_inconsistency_reported(
    bb: Seq<Option<Map<u64, LeakFacts>>>,
    targets: Seq<usize>,
    exp: Map<u64, LeakFacts>,
    span: u64,
    t: usize,
)
    requires
        targets.contains(t),
        bb[t as int] is Some,
        bb[t as int]->Some_0 != exp,
    ensures
        inconsistency_diags(bb, targets, exp, span).contains(LeakDiagnostic::InconsistentPaths { span }),
    decreases targets.len(),
{
    let d = inconsistency_diags(bb, targets, exp, span);
    let rest = targets.drop_last();
    if targets.last() == t {
        let e = LeakDiagnostic::InconsistentPaths { span };
        let pre = inconsistency_diags(bb, rest, exp, span);
        assert(d == pre + seq![e]);
        assert(d[pre.len() as int] == e);
    } else {
        let q = choose|q: int| 0 <= q < targets.len() && targets[q] == t;
        assert(q != targets.len() - 1);
        assert(rest[q] == t);
        lemma_inconsistency_reported(bb, rest, exp, span, t);
        let pre = inconsistency_diags(bb, rest, exp, span);
        let e = LeakDiagnostic::InconsistentPaths { span };
        let w = choose|w: int| 0 <= w < pre.len() && pre[w] == e;
        assert(d[w] == e);
    }
}

/// Every target of every block names a block or the return block.
pub open spec fn targets_in_range(blocks: Seq<Block>) -> bool {
    forall|b: int, k: int| 0 <= b < blocks.len() && 0 <= k < term_targets(blocks[b].terminator, blocks.len() as usize).len()
        ==> #[trigger] term_targets(blocks[b].terminator, blocks.len() as usize)[k] <= blocks.len()
}

/// The labels after block `curr`, labelled in `l0`, applies `call`: each unlabelled
/// target gets what `curr` leaves held.
pub open spec fn step_labels(
    blocks: Seq<Block>,
    l0: Seq<Option<Map<u64, LeakFacts>>>,
    curr: usize,
    call: Map<u64, FunctionFacts>,
) -> Seq<Option<Map<u64, LeakFacts>>> {
    Seq::new(l0.len(), |i: int|
        if l0[i] is None && term_targets(blocks[curr as int].terminator, blocks.len() as usize).contains(i as usize) {
            Some(leaks_after(label_at(l0, curr as int), call))
        } else {
            l0[i]
        })
}

/// The blocks already applied keep their edges when `curr` is applied.
#[verifier::spinoff_prover]
proof fn lemma_step_old_edges(
    blocks: Seq<Block>,
    order: Seq<usize>,
    used: Map<usize, Map<u64, FunctionFacts>>,
    l0: Seq<Option<Map<u64, LeakFacts>>>,
    curr: usize,
    call: Map<u64, FunctionFacts>,
    d0: Seq<LeakDiagnostic>,
    d1: Seq<LeakDiagnostic>,
    i: int,
)
    requires
        l0.len() == blocks.len() + 1,
        targets_in_range(blocks),
        !order.contains(curr),
        0 <= i < order.len(),
        order[i] < blocks.len(),
        l0[order[i] as int] is Some,
        edge_ok(blocks, l0, used, d0, order[i]),
        d0.is_prefix_of(d1),
    ensures
        edge_ok(blocks, step_labels(blocks, l0, curr, call), used.insert(curr, call), d1, order[i]),
{
    let nb = blocks.len();
    let b = order[i];
    let l1 = step_labels(blocks, l0, curr, call);
    let used1 = used.insert(curr, call);
    assert(b != curr) by {
        if b == curr {
            assert(order.contains(curr));
        }
    }
    assert forall|k: int| 0 <= k < term_targets(blocks[b as int].terminator, nb as usize).len() implies {
        let t = #[trigger] term_targets(blocks[b as int].terminator, nb as usize)[k] as int;
        &&& l1[t] is Some
        &&& (l1[t] == Some(leaks_after(label_at(l1, b as int), used1[b]))
            || d1.contains(LeakDiagnostic::InconsistentPaths { span: blocks[b as int].span }))
    } by {
        let t = term_targets(blocks[b as int].terminator, nb as usize)[k] as int;
        assert(l0[t] is Some);
        assert(t <= nb);
        assert(l1[t] == l0[t]);
        assert(label_at(l1, b as int) == label_at(l0, b as int));
        let eb = LeakDiagnostic::InconsistentPaths { span: blocks[b as int].span };
        if d0.contains(eb) {
            let w = choose|w: int| 0 <= w < d0.len() && d0[w] == eb;
            assert(d1[w] == eb);
        }
    }
}

/// The edges of the block just applied.
#[verifier::spinoff_prover]
proof fn lemma_step_new_edge(
    blocks: Seq<Block>,
    used: Map<usize, Map<u64, FunctionFacts>>,
    l0: Seq<Option<Map<u64, LeakFacts>>>,
    curr: usize,
    call: Map<u64, FunctionFacts>,
    dmid: Seq<LeakDiagnostic>,
    d1: Seq<LeakDiagnostic>,
)
    requires
        l0.len() == blocks.len() + 1,
        targets_in_range(blocks),
        curr < blocks.len(),
        l0[curr as int] is Some,
        d1 == dmid + inconsistency_diags(l0, term_targets(blocks[curr as int].terminator, blocks.len() as usize),
            leaks_after(label_at(l0, curr as int), call), blocks[curr as int].span),
    ensures
        edge_ok(blocks, step_labels(blocks, l0, curr, call), used.insert(curr, call), d1, curr),
{
    let nb = blocks.len();
    let ts = term_targets(blocks[curr as int].terminator, nb as usize);
    let exp = leaks_after(label_at(l0, curr as int), call);
    let span = blocks[curr as int].span;
    let l1 = step_labels(blocks, l0, curr, call);
    let used1 = used.insert(curr, call);
    let e = LeakDiagnostic::InconsistentPaths { span };
    assert(label_at(l1, curr as int) == label_at(l0, curr as int));
    assert forall|k: int| 0 <= k < ts.len() implies {
        let t = #[trigger] term_targets(blocks[curr as int].terminator, nb as usize)[k] as int;
        &&& l1[t] is Some
        &&& (l1[t] == Some(leaks_after(label_at(l1, curr as int), used1[curr]))
            || d1.contains(LeakDiagnostic::InconsistentPaths { span: blocks[curr as int].span }))
    } by {
        let t = ts[k] as int;
        assert(t <= nb);
        assert(ts.contains(t as usize));
        if l0[t] is Some && l0[t]->Some_0 != exp {
            lemma_inconsistency_reported(l0, ts, exp, span, t as usize);
            let inc = inconsistency_diags(l0, ts, exp, span);
            let w = choose|w: int| 0 <= w < inc.len() && inc[w] == e;
            assert(d1[dmid.len() + w] == e);
        }
    }
}

/// Every label still comes from an applied predecessor once `curr` is applied.
#[verifier::spinoff_prover]
proof fn lemma_step_labels(
    blocks: Seq<Block>,
    order: Seq<usize>,
    used: Map<usize, Map<u64, FunctionFacts>>,
    l0: Seq<Option<Map<u64, LeakFacts>>>,
    curr: usize,
    call: Map<u64, FunctionFacts>,
    t: int,
)
    requires
        l0.len() == blocks.len() + 1,
        curr < blocks.len(),
        l0[curr as int] is Some,
        !order.contains(curr),
        forall|i: int| 0 <= i < order.len() ==> #[trigger] order[i] < blocks.len() && l0[order[i] as int] is Some,
        blocks.len() < usize::MAX,
        0 < t <= blocks.len(),
        step_labels(blocks, l0, curr, call)[t] is Some,
        l0[t] is Some ==> label_from(blocks, l0, order, used, t),
    ensures
        label_from(blocks, step_labels(blocks, l0, curr, call), order.push(curr), used.insert(curr, call), t),
{
    let ts = term_targets(blocks[curr as int].terminator, blocks.len() as usize);
    let l1 = step_labels(blocks, l0, curr, call);
    let order1 = order.push(curr);
    let used1 = used.insert(curr, call);
    if l0[t] is Some {
        let (i, k) = choose|i: int, k: int|
            0 <= i < order.len() && 0 <= k < term_targets(blocks[order[i] as int].terminator, blocks.len() as usize).len()
            && #[trigger] term_targets(blocks[order[i] as int].terminator, blocks.len() as usize)[k] as int == t
            && l0[t] == Some(leaks_after(label_at(l0, order[i] as int), used[order[i]]));
        assert(order1[i] == order[i]);
        assert(order[i] != curr) by {
            if order[i] == curr {
                assert(order.contains(curr));
            }
        }
        assert(l1[order[i] as int] == l0[order[i] as int]);
        assert(label_at(l1, order[i] as int) == label_at(l0, order[i] as int));
        assert(l1[t] == l0[t]);
        assert(term_targets(blocks[order1[i] as int].terminator, blocks.len() as usize)[k] as int == t);
    } else {
        assert(ts.contains(t as usize));
        let k = choose|k: int| 0 <= k < ts.len() && ts[k] == t as usize;
        let i = order.len() as int;
        assert(order1[i] == curr);
        assert(label_at(l1, curr as int) == label_at(l0, curr as int));
        assert(term_targets(blocks[order1[i] as int].terminator, blocks.len() as usize)[k] as int == t);
    }
}

/// The bookkeeping of the block worklist of one body: `lab` marks the labelled
/// blocks, `queue` the blocks waiting, each once and none applied yet, `processed`
/// the blocks taken from it, and `order` those of them whose terminators were applied.
pub open spec fn worklist_ok(
    blocks: Seq<Block>,
    lab: Seq<bool>,
    queue: Seq<usize>,
    processed: Seq<bool>,
    order: Seq<usize>,
) -> bool {
    let nb = blocks.len();
    &&& nb < usize::MAX
    &&& lab.len() == nb + 1
    &&& processed.len() == nb
    &&& forall|q: int| 0 <= q < queue.len() ==> #[trigger] queue[q] < nb && lab[queue[q] as int]
    &&& forall|q1: int, q2: int| 0 <= q1 < q2 < queue.len() ==> queue[q1] != queue[q2]
    &&& forall|q: int| 0 <= q < queue.len() ==> !processed[#[trigger] queue[q] as int]
    &&& forall|b: int| 0 <= b < nb && #[trigger] lab[b] ==> queue.contains(b as usize) || processed[b]
    &&& forall|b: int| 0 <= b < nb && #[trigger] processed[b] ==> {
        &&& lab[b]
        &&& forall|k: int| 0 <= k < term_targets(blocks[b].terminator, nb as usize).len()
            ==> lab[#[trigger] term_targets(blocks[b].terminator, nb as usize)[k] as int]
    }
    &&& forall|i: int, j: int| 0 <= i < j < order.len() ==> order[i] != order[j]
    &&& forall|i: int| 0 <= i < order.len() ==> {
        &&& #[trigger] order[i] < nb
        &&& processed[order[i] as int]
        &&& !(blocks[order[i] as int].terminator is Stop)
    }
    &&& forall|b: int| 0 <= b < nb && #[trigger] processed[b] && !(blocks[b].terminator is Stop)
        ==> order.contains(b as usize)
}

/// Taking a block that ends its path off the worklist.
#[verifier::spinoff_prover]
proof fn lemma_worklist_stop(
    blocks: Seq<Block>,
    lab: Seq<bool>,
    queue: Seq<usize>,
    processed: Seq<bool>,
    order: Seq<usize>,
)
    requires
        worklist_ok(blocks, lab, queue, processed, order),
        queue.len() > 0,
        blocks[queue.last() as int].terminator is Stop,
    ensures
        worklist_ok(blocks, lab, queue.drop_last(), processed.update(queue.last() as int, true), order),
{
    let nb = blocks.len();
    let curr = queue.last();
    let q1 = queue.drop_last();
    let p1 = processed.update(curr as int, true);
    assert(queue[queue.len() - 1] == curr);
    assert forall|q: int| 0 <= q < q1.len() implies #[trigger] q1[q] != curr by {
        assert(q1[q] == queue[q]);
    }
    assert forall|b: int| 0 <= b < nb && #[trigger] lab[b] implies q1.contains(b as usize) || p1[b] by {
        if b != curr as int && queue.contains(b as usize) {
            let q = choose|q: int| 0 <= q < queue.len() && queue[q] == b as usize;
            assert(q < queue.len() - 1);
            assert(q1[q] == b as usize);
        }
    }
    assert forall|b: int| 0 <= b < nb && #[trigger] p1[b] implies {
        &&& lab[b]
        &&& forall|k: int| 0 <= k < term_targets(blocks[b].terminator, nb as usize).len()
            ==> lab[#[trigger] term_targets(blocks[b].terminator, nb as usize)[k] as int]
    } by {
        if b == curr as int {
            assert(term_targets(blocks[b].terminator, nb as usize) =~= Seq::<usize>::empty());
        }
    }
}

/// Applying block `curr`, the last on the worklist: its unlabelled targets get
/// labelled and queued, each once.
#[verifier::spinoff_prover]
proof fn lemma_worklist_step(
    blocks: Seq<Block>,
    lab0: Seq<bool>,
    lab1: Seq<bool>,
    queue0: Seq<usize>,
    queue1: Seq<usize>,
    processed: Seq<bool>,
    order: Seq<usize>,
)
    requires
        worklist_ok(blocks, lab0, queue0, processed, order),
        targets_in_range(blocks),
        queue0.len() > 0,
        !(blocks[queue0.last() as int].terminator is Stop),
        lab1.len() == lab0.len(),
        forall|i: int| 0 <= i < lab1.len() ==> #[trigger] lab1[i] == (lab0[i]
            || term_targets(blocks[queue0.last() as int].terminator, blocks.len() as usize).contains(i as usize)),
        queue0.drop_last().is_prefix_of(queue1),
        forall|j: int| queue0.len() - 1 <= j < queue1.len() ==> {
            let t = #[trigger] queue1[j] as int;
            &&& t < blocks.len()
            &&& !lab0[t]
            &&& term_targets(blocks[queue0.last() as int].terminator, blocks.len() as usize).contains(t as usize)
        },
        forall|t: int| 0 <= t < blocks.len() && !lab0[t]
            && term_targets(blocks[queue0.last() as int].terminator, blocks.len() as usize).contains(t as usize)
            ==> #[trigger] queue1.contains(t as usize),
        forall|j1: int, j2: int| queue0.len() - 1 <= j1 < j2 < queue1.len() ==> queue1[j1] != queue1[j2],
    ensures
        !order.contains(queue0.last()),
        worklist_ok(blocks, lab1, queue1, processed.update(queue0.last() as int, true), order.push(queue0.last())),
{
    let nb = blocks.len();
    let curr = queue0.last();
    let ts = term_targets(blocks[curr as int].terminator, nb as usize);
    let pr = queue0.drop_last();
    let m = pr.len() as int;
    let p1 = processed.update(curr as int, true);
    let o1 = order.push(curr);
    assert(queue0[queue0.len() - 1] == curr);
    assert(!processed[curr as int]);
    assert(lab0[curr as int]);
    assert(!order.contains(curr)) by {
        if order.contains(curr) {
            let i = choose|i: int| 0 <= i < order.len() && order[i] == curr;
            assert(processed[order[i] as int]);
        }
    }
    assert forall|q: int| 0 <= q < m implies #[trigger] queue1[q] == queue0[q] by {
        assert(queue1[q] == pr[q]);
    }
    assert forall|q: int| 0 <= q < queue1.len() implies #[trigger] queue1[q] < nb && lab1[queue1[q] as int] by {
        if q < m {
            assert(queue1[q] == queue0[q]);
        }
    }
    assert forall|q1: int, q2: int| 0 <= q1 < q2 < queue1.len() implies queue1[q1] != queue1[q2] by {
        if q2 < m {
            assert(queue1[q1] == queue0[q1]);
            assert(queue1[q2] == queue0[q2]);
        } else if q1 < m {
            assert(queue1[q1] == queue0[q1]);
            assert(lab0[queue0[q1] as int]);
        }
    }
    assert forall|q: int| 0 <= q < queue1.len() implies !p1[#[trigger] queue1[q] as int] by {
        if q < m {
            assert(queue1[q] == queue0[q]);
            assert(queue0[q] != curr);
        } else {
            assert(!lab0[queue1[q] as int]);
            if processed[queue1[q] as int] {
                assert(lab0[queue1[q] as int]);
            }
        }
    }
    assert forall|b: int| 0 <= b < nb && #[trigger] lab1[b] implies queue1.contains(b as usize) || p1[b] by {
        if b != curr as int {
            if lab0[b] {
                if queue0.contains(b as usize) {
                    let q = choose|q: int| 0 <= q < queue0.len() && queue0[q] == b as usize;
                    assert(q < m);
                    assert(queue1[q] == b as usize);
                }
            } else {
                assert(ts.contains(b as usize));
            }
        }
    }
    assert forall|b: int| 0 <= b < nb && #[trigger] p1[b] implies {
        &&& lab1[b]
        &&& forall|k: int| 0 <= k < term_targets(blocks[b].terminator, nb as usize).len()
            ==> lab1[#[trigger] term_targets(blocks[b].terminator, nb as usize)[k] as int]
    } by {
        assert forall|k: int| 0 <= k < term_targets(blocks[b].terminator, nb as usize).len()
            implies lab1[#[trigger] term_targets(blocks[b].terminator, nb as usize)[k] as int] by {
            let t = term_targets(blocks[b].terminator, nb as usize)[k] as int;
            assert(t <= nb);
            if b == curr as int {
                assert(ts[k] == t as usize);
                assert(ts.contains(t as usize));
            } else {
                assert(lab0[t]);
            }
        }
    }
    assert forall|i: int, j: int| 0 <= i < j < o1.len() implies o1[i] != o1[j] by {
        if j == o1.len() - 1 {
            assert(o1[j] == curr);
            assert(o1[i] == order[i]);
        } else {
            assert(o1[i] == order[i]);
            assert(o1[j] == order[j]);
        }
    }
    assert forall|i: int| 0 <= i < o1.len() implies {
        &&& #[trigger] o1[i] < nb
        &&& p1[o1[i] as int]
        &&& !(blocks[o1[i] as int].terminator is Stop)
    } by {
        if i < order.len() {
            assert(o1[i] == order[i]);
        }
    }
    assert forall|b: int| 0 <= b < nb && #[trigger] p1[b] && !(blocks[b].terminator is Stop)
        implies o1.contains(b as usize) by {
        if b == curr as int {
            assert(o1[order.len() as int] == curr);
        } else {
            let i = choose|i: int| 0 <= i < order.len() && order[i] == b as usize;
            assert(o1[i] == b as usize);
        }
    }
}

/// One applied block extends a body run: `curr`, labelled in `l0`, applies `call`
/// and hands what it leaves held to its targets, reporting any disagreement.
proof fn lemma_run_step(
    blocks: Seq<Block>,
    order: Seq<usize>,
    used: Map<usize, Map<u64, FunctionFacts>>,
    l0: Seq<Option<Map<u64, LeakFacts>>>,
    curr: usize,
    call: Map<u64, FunctionFacts>,
    d0: Seq<LeakDiagnostic>,
    dmid: Seq<LeakDiagnostic>,
    d1: Seq<LeakDiagnostic>,
)
    requires
        l0.len() == blocks.len() + 1,
        targets_in_range(blocks),
        curr < blocks.len(),
        l0[curr as int] is Some,
        !order.contains(curr),
        forall|i: int| 0 <= i < order.len() ==> {
            &&& #[trigger] order[i] < blocks.len()
            &&& l0[order[i] as int] is Some
            &&& edge_ok(blocks, l0, used, d0, order[i])
            &&& limits_reported(blocks, l0, used, d0, order[i])
        },
        forall|t: int| 0 < t <= blocks.len() && (#[trigger] l0[t]) is Some ==> label_from(blocks, l0, order, used, t),
        blocks.len() < usize::MAX,
        d0.is_prefix_of(dmid),
        limits_reported(blocks, l0, used.insert(curr, call), dmid, curr),
        d1 == dmid + inconsistency_diags(l0, term_targets(blocks[curr as int].terminator, blocks.len() as usize),
            leaks_after(label_at(l0, curr as int), call), blocks[curr as int].span),
    ensures
        ({
            let order1 = order.push(curr);
            let used1 = used.insert(curr, call);
            let l1 = step_labels(blocks, l0, curr, call);
            &&& facts_after_call(fold_calls(order, l0, used), label_at(l0, curr as int), call)
                == fold_calls(order1, l1, used1)
            &&& l1.len() == l0.len()
            &&& forall|b: int| 0 <= b < l0.len() && (#[trigger] l0[b]) is Some ==> l1[b] == l0[b]
            &&& forall|i: int| 0 <= i < order1.len() ==> {
                &&& #[trigger] order1[i] < blocks.len()
                &&& l1[order1[i] as int] is Some
                &&& edge_ok(blocks, l1, used1, d1, order1[i])
                &&& limits_reported(blocks, l1, used1, d1, order1[i])
            }
            &&& forall|t: int| 0 < t <= blocks.len() && (#[trigger] l1[t]) is Some
                ==> label_from(blocks, l1, order1, used1, t)
        }),
{
    let order1 = order.push(curr);
    let used1 = used.insert(curr, call);
    let l1 = step_labels(blocks, l0, curr, call);
    assert(dmid.is_prefix_of(d1));
    assert(d0.is_prefix_of(d1)) by {
        assert forall|w: int| 0 <= w < d0.len() implies d0[w] == d1[w] by {
            assert(d0[w] == dmid[w]);
        }
    }
    assert forall|i: int| 0 <= i < order.len() implies
        l0[#[trigger] order[i] as int] == l1[order[i] as int] && used[order[i]] == used1[order[i]] by {
        if order[i] == curr {
            assert(order.contains(curr));
        }
    }
    lemma_fold_frame(order, l0, l1, used, used1);
    assert(order1.drop_last() =~= order);
    assert(label_at(l1, curr as int) == label_at(l0, curr as int));
    assert forall|i: int| 0 <= i < order1.len() implies {
        &&& #[trigger] order1[i] < blocks.len()
        &&& l1[order1[i] as int] is Some
        &&& edge_ok(blocks, l1, used1, d1, order1[i])
        &&& limits_reported(blocks, l1, used1, d1, order1[i])
    } by {
        if i < order.len() {
            assert(order1[i] == order[i]);
            lemma_step_old_edges(blocks, order, used, l0, curr, call, d0, d1, i);
            assert(order[i] != curr) by {
                if order[i] == curr {
                    assert(order.contains(curr));
                }
            }
            assert(l1[order[i] as int] == l0[order[i] as int]);
            lemma_limits_diags(blocks, l0, l1, used, used1, d0, d1, order[i]);
        } else {
            assert(order1[i] == curr);
            lemma_step_new_edge(blocks, used, l0, curr, call, dmid, d1);
            lemma_limits_diags(blocks, l0, l1, used1, used1, dmid, d1, curr);
        }
    }
    assert forall|t: int| 0 < t <= blocks.len() && (#[trigger] l1[t]) is Some
        implies label_from(blocks, l1, order1, used1, t) by {
        lemma_step_labels(blocks, order, used, l0, curr, call, t);
    }
}

/// A self-recursive function is reported for every component it may leak.
pub open spec fn recursive_leak_diags(ret: Seq<(u64, LeakFacts)>, recursive: bool, span: u64) -> Seq<LeakDiagnostic>
    decreases ret.len(),
{
    if ret.len() == 0 {
        Seq::empty()
    } else {
        let (k, lf) = ret.last();
        recursive_leak_diags(ret.drop_last(), recursive, span) + if recursive && lf != zero_leaks() {
            seq![LeakDiagnostic::RecursiveLeak { span, component: k }]
        } else {
            Seq::empty()
        }
    }
}

/// A component held shared across a recursive call must not be borrowed mutably.
pub open spec fn forbidden_diags(forbidden: Seq<(u64, ())>, facts: Map<u64, FunctionFacts>, span: u64) -> Seq<LeakDiagnostic>
    decreases forbidden.len(),
{
    if forbidden.len() == 0 {
        Seq::empty()
    } else {
        let k = forbidden.last().0;
        forbidden_diags(forbidden.drop_last(), facts, span) + if facts.contains_key(k) && facts[k].mutably_borrows {
            seq![LeakDiagnostic::RecursiveMutWhileRef { span, component: k }]
        } else {
            Seq::empty()
        }
    }
}

/// Completes a function's facts from the borrows held at its return and runs the
/// checks that apply to self-recursive functions.
pub fn finish_facts(
    my: &mut FactsMap,
    ret: &LeakMap,
    recursive: bool,
    span: u64,
    forbidden: &VecMap<()>,
    diags: &mut Vec<LeakDiagnostic>,
)
    requires
        old(my).wf(),
        ret.wf(),
        forbidden.wf(),
    ensures
        final(my).wf(),
        final(my)@ == with_leaks(old(my)@, ret@),
        final(diags)@ == old(diags)@ + recursive_leak_diags(ret.entries@, recursive, span)
            + forbidden_diags(forbidden.entries@, with_leaks(old(my)@, ret@), span),
{
    let n = ret.entries.len();
    let ghost s = ret.entries@;
    let ghost my0 = my@;
    let ghost d0 = diags@;
    proof {
        lemma_seq_map_empty(s.take(0));
        assert(with_leaks(my0, seq_map(s.take(0))) =~= my0);
        assert(recursive_leak_diags(s.take(0), recursive, span) =~= Seq::<LeakDiagnostic>::empty());
    }
    for i in 0..n
        invariant
            n == s.len(),
            s == ret.entries@,
            ret.wf(),
            my.wf(),
            my@ == with_leaks(my0, seq_map(s.take(i as int))),
            diags@ == d0 + recursive_leak_diags(s.take(i as int), recursive, span),
    {
        proof {
            lemma_take_push(s, i as int);
        }
        let (k, lf) = ret.entry_at(i);
        let mut f = match my.get(k) {
            Some(f) => f,
            None => FunctionFacts::default(),
        };
        f.leaks = lf;
        my.insert(k, f);
        if recursive && (lf.leaked_muts != 0 || lf.leaked_refs != 0) {
            diags.push(LeakDiagnostic::RecursiveLeak { span, component: k });
        }
        proof {
            let t = s.take(i + 1);
            assert(t.drop_last() =~= s.take(i as int));
            assert(t.last() == s[i as int]);
            assert(my@ =~= with_leaks(my0, seq_map(t)));
            assert(diags@ =~= d0 + recursive_leak_diags(t, recursive, span));
        }
    }
    proof {
        assert(s.take(n as int) =~= s);
    }
    let ghost d1 = diags@;
    let ghost fs = forbidden.entries@;
    let ghost facts = my@;
    let m = forbidden.entries.len();
    proof {
        assert(forbidden_diags(fs.take(0), facts, span) =~= Seq::<LeakDiagnostic>::empty());
    }
    for j in 0..m
        invariant
            m == fs.len(),
            fs == forbidden.entries@,
            my.wf(),
            my@ == facts,
            diags@ == d1 + forbidden_diags(fs.take(j as int), facts, span),
    {
        let k = forbidden.entries[j].0;
        match my.get(k) {
            Some(f) => {
                if f.mutably_borrows {
                    diags.push(LeakDiagnostic::RecursiveMutWhileRef { span, component: k });
                }
            },
            None => {},
        }
        proof {
            let t = fs.take(j + 1);
            assert(t.drop_last() =~= fs.take(j as int));
            assert(t.last() == fs[j as int]);
            assert(diags@ =~= d1 + forbidden_diags(t, facts, span));
        }
    }
    proof {
        assert(fs.take(m as int) =~= fs);
    }
}


/// What a body `me` owes for the blocks `rec` whose calls recursed into a function
/// still under analysis (each applied and calling a function that reaches `me`, and
/// every call of `me` itself among them): at
/// each, every component held mutably is reported; every component held shared at one
/// that the body may borrow mutably is reported at `span`; and if any block recursed,
/// every component the body may leak is reported at `span`.
pub open spec fn recursion_reported(
    p: LeakProgram,
    blocks: Seq<Block>,
    span: u64,
    me: usize,
    labels: Seq<Option<Map<u64, LeakFacts>>>,
    order: Seq<usize>,
    rec: Set<usize>,
    facts: Map<u64, FunctionFacts>,
    diags: Seq<LeakDiagnostic>,
) -> bool {
    &&& forall|b: usize| #[trigger] rec.contains(b) ==> order.contains(b)
        && (term_callee(blocks[b as int].terminator) matches Some(c) && reaches(p, c, me))
    &&& forall|i: int| 0 <= i < order.len() && term_callee(blocks[#[trigger] order[i] as int].terminator) == Some(me)
        ==> rec.contains(order[i])
    &&& forall|b: usize, k: u64| #[trigger] rec.contains(b) && #[trigger] label_at(labels, b as int).contains_key(k)
        && label_at(labels, b as int)[k].leaked_muts > 0 ==> diags.contains(LeakDiagnostic::RecursesHoldingMut {
            span: blocks[b as int].span,
            component: k,
            leaked_muts: label_at(labels, b as int)[k].leaked_muts,
        })
    &&& forall|b: usize, k: u64| #[trigger] rec.contains(b) && #[trigger] label_at(labels, b as int).contains_key(k)
        && label_at(labels, b as int)[k].leaked_refs > 0 && facts.contains_key(k) && facts[k].mutably_borrows
        ==> diags.contains(LeakDiagnostic::RecursiveMutWhileRef { span, component: k })
    &&& !rec.is_empty() ==> forall|k: u64| #[trigger] label_at(labels, blocks.len() as int).contains_key(k)
        && label_at(labels, blocks.len() as int)[k] != zero_leaks()
        ==> diags.contains(LeakDiagnostic::RecursiveLeak { span, component: k })
}

/// What is reported stays reported as more is.
proof fn lemma_recursion_reported_diags(
    p: LeakProgram,
    blocks: Seq<Block>,
    span: u64,
    me: usize,
    labels: Seq<Option<Map<u64, LeakFacts>>>,
    order: Seq<usize>,
    rec: Set<usize>,
    facts: Map<u64, FunctionFacts>,
    d1: Seq<LeakDiagnostic>,
    d2: Seq<LeakDiagnostic>,
)
    requires
        recursion_reported(p, blocks, span, me, labels, order, rec, facts, d1),
        d1.is_prefix_of(d2),
    ensures
        recursion_reported(p, blocks, span, me, labels, order, rec, facts, d2),
{
    assert forall|d: LeakDiagnostic| d1.contains(d) implies d2.contains(d) by {
        let w = choose|w: int| 0 <= w < d1.len() && d1[w] == d;
        assert(d2[w] == d);
    }
}

/// Each entry held mutably is among the reports of a recursive call.
proof fn lemma_recursion_diags_has(s: Seq<(u64, LeakFacts)>, span: u64, i: int)
    requires
        0 <= i < s.len(),
        s[i].1.leaked_muts > 0,
    ensures
        recursion_diags(s, span).contains(LeakDiagnostic::RecursesHoldingMut { span, component: s[i].0, leaked_muts: s[i].1.leaked_muts }),
    decreases s.len(),
{
    let d = LeakDiagnostic::RecursesHoldingMut { span, component: s[i].0, leaked_muts: s[i].1.leaked_muts };
    let all = recursion_diags(s, span);
    let pre = recursion_diags(s.drop_last(), span);
    if i == s.len() - 1 {
        assert(s.last() == s[i]);
        assert(all[all.len() - 1] == d);
    } else {
        assert(s.drop_last()[i] == s[i]);
        lemma_recursion_diags_has(s.drop_last(), span, i);
        let w = choose|w: int| 0 <= w < pre.len() && pre[w] == d;
        assert(all[w] == d);
    }
}

/// Each entry that leaks is among the reports of a self-recursive function.
proof fn lemma_recursive_leak_has(s: Seq<(u64, LeakFacts)>, span: u64, i: int)
    requires
        0 <= i < s.len(),
        s[i].1 != zero_leaks(),
    ensures
        recursive_leak_diags(s, true, span).contains(LeakDiagnostic::RecursiveLeak { span, component: s[i].0 }),
    decreases s.len(),
{
    let d = LeakDiagnostic::RecursiveLeak { span, component: s[i].0 };
    let all = recursive_leak_diags(s, true, span);
    let pre = recursive_leak_diags(s.drop_last(), true, span);
    if i == s.len() - 1 {
        assert(s.last() == s[i]);
        assert(all[all.len() - 1] == d);
    } else {
        assert(s.drop_last()[i] == s[i]);
        lemma_recursive_leak_has(s.drop_last(), span, i);
        let w = choose|w: int| 0 <= w < pre.len() && pre[w] == d;
        assert(all[w] == d);
    }
}

/// Each forbidden component the body may borrow mutably is reported.
proof fn lemma_forbidden_has(s: Seq<(u64, ())>, facts: Map<u64, FunctionFacts>, span: u64, i: int)
    requires
        0 <= i < s.len(),
        facts.contains_key(s[i].0),
        facts[s[i].0].mutably_borrows,
    ensures
        forbidden_diags(s, facts, span).contains(LeakDiagnostic::RecursiveMutWhileRef { span, component: s[i].0 }),
    decreases s.len(),
{
    let d = LeakDiagnostic::RecursiveMutWhileRef { span, component: s[i].0 };
    let all = forbidden_diags(s, facts, span);
    let pre = forbidden_diags(s.drop_last(), facts, span);
    if i == s.len() - 1 {
        assert(s.last() == s[i]);
        assert(all[all.len() - 1] == d);
    } else {
        assert(s.drop_last()[i] == s[i]);
        lemma_forbidden_has(s.drop_last(), facts, span, i);
        let w = choose|w: int| 0 <= w < pre.len() && pre[w] == d;
        assert(all[w] == d);
    }
}

/// Applying block `curr` keeps what the recursing blocks owe so far: their reports and
/// forbidden components stay, and `curr` joins them when its call recursed.
proof fn lemma_rec_step(
    p: LeakProgram,
    blocks: Seq<Block>,
    me: usize,
    l0: Seq<Option<Map<u64, LeakFacts>>>,
    l1: Seq<Option<Map<u64, LeakFacts>>>,
    curr: usize,
    callee: Option<usize>,
    rec: bool,
    order_pre: Seq<usize>,
    order: Seq<usize>,
    recs_pre: Set<usize>,
    recs: Set<usize>,
    d0: Seq<LeakDiagnostic>,
    d1: Seq<LeakDiagnostic>,
    f0: Map<u64, ()>,
    f1: Map<u64, ()>,
    entries: Seq<(u64, LeakFacts)>,
    span: u64,
)
    requires
        0 <= curr < l0.len(),
        l1.len() == l0.len(),
        l0[curr as int] is Some,
        forall|b: int| 0 <= b < l0.len() && (#[trigger] l0[b]) is Some ==> l1[b] == l0[b],
        order == order_pre.push(curr),
        forall|i: int| 0 <= i < order_pre.len() ==> 0 <= #[trigger] order_pre[i] < l0.len() && l0[order_pre[i] as int] is Some,
        forall|b: usize| #[trigger] recs_pre.contains(b) ==> order_pre.contains(b)
            && (term_callee(blocks[b as int].terminator) matches Some(c) && reaches(p, c, me)),
        forall|i: int| 0 <= i < order_pre.len() && term_callee(blocks[#[trigger] order_pre[i] as int].terminator) == Some(me)
            ==> recs_pre.contains(order_pre[i]),
        forall|b: usize, k: u64| #[trigger] recs_pre.contains(b) && #[trigger] label_at(l0, b as int).contains_key(k)
            && label_at(l0, b as int)[k].leaked_muts > 0 ==> d0.contains(LeakDiagnostic::RecursesHoldingMut {
                span: blocks[b as int].span,
                component: k,
                leaked_muts: label_at(l0, b as int)[k].leaked_muts,
            }),
        forall|b: usize, k: u64| #[trigger] recs_pre.contains(b) && #[trigger] label_at(l0, b as int).contains_key(k)
            && label_at(l0, b as int)[k].leaked_refs > 0 ==> f0.contains_key(k),
        d0.is_prefix_of(d1),
        rec ==> forall|d: LeakDiagnostic| recursion_diags(entries, span).contains(d) ==> #[trigger] d1.contains(d),
        distinct_keys(entries),
        seq_map(entries) == label_at(l0, curr as int),
        span == blocks[curr as int].span,
        forall|k: u64| #[trigger] f0.contains_key(k) ==> f1.contains_key(k),
        rec ==> forall|k: u64| #[trigger] shared_components(label_at(l0, curr as int)).contains(k) ==> f1.contains_key(k),
        callee == term_callee(blocks[curr as int].terminator),
        rec ==> callee is Some && reaches(p, callee->Some_0, me),
        callee == Some(me) ==> rec,
        recs == (if rec { recs_pre.insert(curr) } else { recs_pre }),
    ensures
        forall|b: usize| #[trigger] recs.contains(b) ==> order.contains(b)
            && (term_callee(blocks[b as int].terminator) matches Some(c) && reaches(p, c, me)),
        forall|i: int| 0 <= i < order.len() && term_callee(blocks[#[trigger] order[i] as int].terminator) == Some(me)
            ==> recs.contains(order[i]),
        forall|b: usize, k: u64| #[trigger] recs.contains(b) && #[trigger] label_at(l1, b as int).contains_key(k)
            && label_at(l1, b as int)[k].leaked_muts > 0 ==> d1.contains(LeakDiagnostic::RecursesHoldingMut {
                span: blocks[b as int].span,
                component: k,
                leaked_muts: label_at(l1, b as int)[k].leaked_muts,
            }),
        forall|b: usize, k: u64| #[trigger] recs.contains(b) && #[trigger] label_at(l1, b as int).contains_key(k)
            && label_at(l1, b as int)[k].leaked_refs > 0 ==> f1.contains_key(k),
        forall|i: int| 0 <= i < order.len() ==> 0 <= #[trigger] order[i] < l1.len() && l1[order[i] as int] is Some,
{
    assert forall|d: LeakDiagnostic| d0.contains(d) implies d1.contains(d) by {
        let w = choose|w: int| 0 <= w < d0.len() && d0[w] == d;
        assert(d1[w] == d);
    }
    assert forall|b: usize| recs_pre.contains(b) implies l0[b as int] is Some && label_at(l1, b as int) == label_at(l0, b as int) by {
        let i = choose|i: int| 0 <= i < order_pre.len() && order_pre[i] == b;
        assert(l0[order_pre[i] as int] is Some);
    }
    assert(label_at(l1, curr as int) == label_at(l0, curr as int));
    assert forall|b: usize, k: u64| #[trigger] recs.contains(b) && #[trigger] label_at(l1, b as int).contains_key(k)
        && label_at(l1, b as int)[k].leaked_muts > 0 implies d1.contains(LeakDiagnostic::RecursesHoldingMut {
            span: blocks[b as int].span,
            component: k,
            leaked_muts: label_at(l1, b as int)[k].leaked_muts,
        }) by {
        if recs_pre.contains(b) {
            assert(label_at(l0, b as int).contains_key(k));
        } else {
            assert(rec && b == curr);
            assert(crate::vec_map::seq_has_key(entries, k));
            let i = choose|i: int| 0 <= i < entries.len() && #[trigger] entries[i].0 == k;
            lemma_seq_map_at(entries, i);
            lemma_recursion_diags_has(entries, span, i);
        }
    }
    assert forall|b: usize, k: u64| #[trigger] recs.contains(b) && #[trigger] label_at(l1, b as int).contains_key(k)
        && label_at(l1, b as int)[k].leaked_refs > 0 implies f1.contains_key(k) by {
        if recs_pre.contains(b) {
            assert(label_at(l0, b as int).contains_key(k));
            assert(f0.contains_key(k));
        } else {
            assert(shared_components(label_at(l0, curr as int)).contains(k));
        }
    }
    assert forall|b: usize| #[trigger] recs.contains(b) implies order.contains(b)
        && (term_callee(blocks[b as int].terminator) matches Some(c) && reaches(p, c, me)) by {
        if recs_pre.contains(b) {
            let i = choose|i: int| 0 <= i < order_pre.len() && order_pre[i] == b;
            assert(order[i] == b);
        } else {
            assert(order[order.len() - 1] == curr);
        }
    }
    assert forall|i: int| 0 <= i < order.len() && term_callee(blocks[#[trigger] order[i] as int].terminator) == Some(me)
        implies recs.contains(order[i]) by {
        if i < order.len() - 1 {
            assert(order[i] == order_pre[i]);
        } else {
            assert(order[i] == curr);
        }
    }
    assert forall|i: int| 0 <= i < order.len() implies 0 <= #[trigger] order[i] < l1.len() && l1[order[i] as int] is Some by {
        if i < order.len() - 1 {
            assert(order[i] == order_pre[i]);
        } else {
            assert(order[i] == curr);
        }
    }
}

/// At the end of a body's analysis: what was reported at each block whose call
/// recursed, and what finishing the facts reports, is what the body owes.
proof fn lemma_finish_recursion(
    p: LeakProgram,
    blocks: Seq<Block>,
    span: u64,
    me: usize,
    lv: Seq<Option<Map<u64, LeakFacts>>>,
    order: Seq<usize>,
    recs: Set<usize>,
    forb: VecMap<()>,
    ret: Seq<(u64, LeakFacts)>,
    facts: Map<u64, FunctionFacts>,
    d_loop: Seq<LeakDiagnostic>,
    d2: Seq<LeakDiagnostic>,
)
    requires
        forall|b: usize| #[trigger] recs.contains(b) ==> order.contains(b)
            && (term_callee(blocks[b as int].terminator) matches Some(c) && reaches(p, c, me)),
        forall|i: int| 0 <= i < order.len() && term_callee(blocks[#[trigger] order[i] as int].terminator) == Some(me)
            ==> recs.contains(order[i]),
        forall|b: usize, k: u64| #[trigger] recs.contains(b) && #[trigger] label_at(lv, b as int).contains_key(k)
            && label_at(lv, b as int)[k].leaked_muts > 0 ==> d_loop.contains(LeakDiagnostic::RecursesHoldingMut {
                span: blocks[b as int].span,
                component: k,
                leaked_muts: label_at(lv, b as int)[k].leaked_muts,
            }),
        forall|b: usize, k: u64| #[trigger] recs.contains(b) && #[trigger] label_at(lv, b as int).contains_key(k)
            && label_at(lv, b as int)[k].leaked_refs > 0 ==> forb@.contains_key(k),
        forb.wf(),
        distinct_keys(ret),
        seq_map(ret) == label_at(lv, blocks.len() as int),
        d2 == d_loop + recursive_leak_diags(ret, !recs.is_empty(), span) + forbidden_diags(forb.entries@, facts, span),
    ensures
        recursion_reported(p, blocks, span, me, lv, order, recs, facts, d2),
{
    let rl = recursive_leak_diags(ret, !recs.is_empty(), span);
    let fd = forbidden_diags(forb.entries@, facts, span);
    assert forall|d: LeakDiagnostic| d_loop.contains(d) implies d2.contains(d) by {
        let w = choose|w: int| 0 <= w < d_loop.len() && d_loop[w] == d;
        assert(d2[w] == d);
    }
    assert forall|b: usize, k: u64| #[trigger] recs.contains(b) && #[trigger] label_at(lv, b as int).contains_key(k)
        && label_at(lv, b as int)[k].leaked_refs > 0 && facts.contains_key(k) && facts[k].mutably_borrows
        implies d2.contains(LeakDiagnostic::RecursiveMutWhileRef { span, component: k }) by {
        let es = forb.entries@;
        assert(forb@.contains_key(k));
        assert(crate::vec_map::seq_has_key(es, k));
        let i = choose|i: int| 0 <= i < es.len() && #[trigger] es[i].0 == k;
        lemma_forbidden_has(es, facts, span, i);
        let e = LeakDiagnostic::RecursiveMutWhileRef { span, component: k };
        let w = choose|w: int| 0 <= w < fd.len() && fd[w] == e;
        assert(d2[d_loop.len() + rl.len() + w] == e);
    }
    if !recs.is_empty() {
        assert forall|k: u64| #[trigger] label_at(lv, blocks.len() as int).contains_key(k)
            && label_at(lv, blocks.len() as int)[k] != zero_leaks()
            implies d2.contains(LeakDiagnostic::RecursiveLeak { span, component: k }) by {
            assert(crate::vec_map::seq_has_key(ret, k));
            let i = choose|i: int| 0 <= i < ret.len() && #[trigger] ret[i].0 == k;
            lemma_seq_map_at(ret, i);
            lemma_recursive_leak_has(ret, span, i);
            let e = LeakDiagnostic::RecursiveLeak { span, component: k };
            let w = choose|w: int| 0 <= w < rl.len() && rl[w] == e;
            assert(d2[d_loop.len() + w] == e);
        }
    }
}

/// What the analysis has recorded for one function instance.
pub enum FnState {
    /// Its analysis is under way at stack depth `my_depth`.
    Pending { my_depth: u32 },
    /// Its facts, per component.
    Done(FactsMap),
}

/// The leak analysis of a whole program, from its entry point.
pub struct Analyzer {
    pub program: LeakProgram,
    fn_facts: Vec<Option<FnState>>,
    /// Everything reported so far, in order.
    pub diagnostics: Vec<LeakDiagnostic>,
    visited: Vec<bool>,
    collected_fn_impls: Vec<(u64, usize)>,
    collected_trait_impls: Vec<(u64, usize)>,
    stack: Ghost<Seq<usize>>,
    reached: Ghost<Map<usize, Seq<bool>>>,
    /// For each analyzed body: its block labels, the blocks applied in order, and the
    /// callee facts applied at each of them.
    labels_of: Ghost<Map<usize, Seq<Option<Map<u64, LeakFacts>>>>>,
    order_of: Ghost<Map<usize, Seq<usize>>>,
    used_of: Ghost<Map<usize, Map<usize, Map<u64, FunctionFacts>>>>,
    /// For each analyzed body, the blocks whose calls recursed into a function still
    /// under analysis.
    recs_of: Ghost<Map<usize, Set<usize>>>,
    /// When each function's facts were completed, on a counter that only grows.
    finished: Ghost<Map<usize, nat>>,
    clock: Ghost<nat>,
}

pub open spec fn seen_states(fs: Seq<Option<FnState>>) -> Seq<bool> {
    Seq::new(fs.len(), |i: int| fs[i] is Some)
}

pub open spec fn state_view(s: Option<FnState>) -> Option<Option<Map<u64, FunctionFacts>>> {
    match s {
        Some(FnState::Done(m)) => Some(Some(m@)),
        Some(FnState::Pending { .. }) => Some(None),
        None => None,
    }
}

impl Analyzer {
    pub closed spec fn n(&self) -> int {
        self.program.fns@.len() as int
    }

    pub closed spec fn measure(&self) -> nat {
        (self.fn_facts@.len() - count_seen(seen_states(self.fn_facts@))) as nat
    }

    /// Whether function `x` has its facts.
    pub closed spec fn is_done(&self, x: int) -> bool {
        self.fn_facts@[x] matches Some(FnState::Done(_))
    }

    /// The facts of function `x`, once it is done.
    pub closed spec fn facts(&self, x: int) -> Map<u64, FunctionFacts> {
        match self.fn_facts@[x] {
            Some(FnState::Done(m)) => m@,
            _ => Map::empty(),
        }
    }

    /// The facts recorded for `x`, if any, are well formed.
    pub closed spec fn facts_wf(&self, x: int) -> bool {
        match self.fn_facts@[x] {
            Some(FnState::Done(m)) => m.wf(),
            _ => true,
        }
    }

    /// The analysis of `c` was completed before that of `x`.
    pub closed spec fn finished_before(&self, c: int, x: int) -> bool {
        &&& self.finished@.contains_key(c as usize)
        &&& self.finished@.contains_key(x as usize)
        &&& self.finished@[c as usize] < self.finished@[x as usize]
    }

    /// The callee facts the analysis of `x` applies at a block calling `c`: those of a
    /// callee completed before `x`; none for a callee still under analysis then, that
    /// is, one that `x` reaches back into recursively.
    pub open spec fn callee_facts(&self, x: int, c: Option<usize>) -> Map<u64, FunctionFacts> {
        match c {
            Some(c) => if self.finished_before(c as int, x) { self.facts(c as int) } else { Map::empty() },
            None => Map::empty(),
        }
    }

    /// The block labels recorded by the analysis of body `x`.
    pub closed spec fn labels(&self, x: int) -> Seq<Option<Map<u64, LeakFacts>>> {
        self.labels_of@[x as usize]
    }

    /// The blocks of body `x` whose terminators its analysis applied, in order.
    pub closed spec fn order(&self, x: int) -> Seq<usize> {
        self.order_of@[x as usize]
    }

    /// The callee facts the analysis of body `x` applied at each block.
    pub closed spec fn used(&self, x: int) -> Map<usize, Map<u64, FunctionFacts>> {
        self.used_of@[x as usize]
    }

    /// The blocks of body `x` whose calls recursed into a function still under analysis.
    pub closed spec fn recursing_blocks(&self, x: int) -> Set<usize> {
        self.recs_of@[x as usize]
    }

    /// The facts of `x` are those its analysis derives: for a primitive, its hardcoded
    /// facts; for a body, a run of its blocks (`body_run`) whose call sites apply the
    /// facts `callee_facts` gives for their callees, and which reports what recursing
    /// obliges it to (`recursion_reported`).
    pub open spec fn facts_follow(&self, x: int) -> bool {
        match self.program_view().fns@[x] {
            LeakFn::Primitive { kind, component } => self.facts(x) == primitive_map(kind, component),
            LeakFn::Body { blocks, span } => {
                &&& body_run(blocks@, self.labels(x), self.order(x), self.used(x), self.facts(x), self.diagnostics_view())
                &&& recursion_reported(self.program_view(), blocks@, span, x as usize, self.labels(x), self.order(x), self.recursing_blocks(x),
                    self.facts(x), self.diagnostics_view())
                &&& forall|i: int| 0 <= i < self.order(x).len() ==> self.used(x)[#[trigger] self.order(x)[i]]
                    == self.callee_facts(x, term_callee(blocks@[self.order(x)[i] as int].terminator))
                &&& forall|i: int| 0 <= i < self.order(x).len() ==>
                    (term_callee(blocks@[#[trigger] self.order(x)[i] as int].terminator) matches Some(c)
                        ==> (self.finished_before(c as int, x) || reaches(self.program_view(), c, x as usize)))
            },
        }
    }

    /// Once no analysis is under way, every analysis begun is complete and every
    /// diagnostic reported is explained by one of them.
    pub proof fn lemma_idle_explained(&self)
        requires
            self.idle(),
        ensures
            self.diags_explained(),
            forall|x: int| 0 <= x < self.program_view().fns@.len() && #[trigger] self.started(x) ==> self.is_done(x),
    {
        reveal(Analyzer::djust);
        assert forall|x: int| 0 <= x < self.program_view().fns@.len() && #[trigger] self.started(x) implies self.is_done(x) by {
            if self.fn_facts@[x] matches Some(FnState::Pending { my_depth }) {
                assert(self.stack@.len() > 0);
            }
        }
    }

    /// Every callee that the analysis of body `x` applied is itself completed.
    pub open spec fn callees_done(&self, x: int) -> bool {
        self.program_view().fns@[x] is Body ==> forall|i: int| 0 <= i < self.order(x).len() ==>
            (term_callee(body_blocks(self.program_view(), x)[#[trigger] self.order(x)[i] as int].terminator) matches Some(c)
                ==> self.is_done(c as int))
    }

    /// Once no analysis is under way, every completed function has the facts its
    /// analysis derives, from completed callees.
    pub proof fn lemma_idle_follows(&self, x: int)
        requires
            self.idle(),
            0 <= x < self.program_view().fns@.len(),
            self.is_done(x),
        ensures
            self.facts_follow(x),
            self.callees_done(x),
    {
        assert(self.done_ok(x));
        if let LeakFn::Body { blocks, .. } = self.program.fns@[x] {
            let o = self.order_of@[x as usize];
            let lv = self.labels_of@[x as usize];
            let r = self.reached@[x as usize];
            assert forall|i: int| 0 <= i < o.len() implies
                (term_callee(body_blocks(self.program, x)[#[trigger] o[i] as int].terminator) matches Some(c)
                    ==> self.is_done(c as int)) by {
                let b = o[i] as int;
                assert(lv[b] is Some);
                assert(r[b]);
                if let Some(c) = term_callee(blocks@[b].terminator) {
                    assert(self.fn_facts@[c as int] is Some);
                    assert(leak_program_ok(self.program));
                    assert(block_ok(blocks@[b], blocks@.len() as int, self.n()));
                    if self.fn_facts@[c as int] matches Some(FnState::Pending { my_depth }) {
                        assert(self.stack@.len() == 0);
                    }
                }
            }
        }
    }

    /// Each call site of body `x` applied the facts its callee has.
    pub open spec fn applies_callee_facts(&self, x: int) -> bool {
        self.program_view().fns@[x] is Body ==> forall|i: int| 0 <= i < self.order(x).len() ==>
            self.used(x)[#[trigger] self.order(x)[i]] == match term_callee(body_blocks(self.program_view(), x)[self.order(x)[i] as int].terminator) {
                Some(c) => self.facts(c as int),
                None => Map::<u64, FunctionFacts>::empty(),
            }
    }

    /// In a program without call cycles, once no analysis is under way, every
    /// completed body applied at each call site the facts its callee has.
    pub proof fn lemma_acyclic_callee_facts(&self, x: int)
        requires
            self.idle(),
            call_acyclic(self.program_view()),
            0 <= x < self.program_view().fns@.len(),
            self.is_done(x),
        ensures
            self.applies_callee_facts(x),
    {
        self.lemma_idle_follows(x);
        let p = self.program;
        if let LeakFn::Body { blocks, .. } = p.fns@[x] {
            let o = self.order(x);
            assert forall|i: int| 0 <= i < o.len() implies
                self.used(x)[#[trigger] o[i]] == match term_callee(body_blocks(p, x)[o[i] as int].terminator) {
                    Some(c) => self.facts(c as int),
                    None => Map::<u64, FunctionFacts>::empty(),
                } by {
                let b = o[i] as int;
                if let Some(c) = term_callee(blocks@[b].terminator) {
                    assert(o[i] < blocks@.len());
                    assert(calls(p, x, c));
                    assert(!reaches(p, c, x as usize));
                    assert(self.finished_before(c as int, x));
                }
            }
        }
    }

    /// The analysis of `x` has begun.
    pub closed spec fn started(&self, x: int) -> bool {
        self.fn_facts@[x] is Some
    }

    /// Diagnostic `d` is explained by the recorded analysis of body `x`.
    pub open spec fn explains_at(&self, x: int, d: LeakDiagnostic) -> bool {
        &&& 0 <= x < self.program_view().fns@.len()
        &&& self.started(x)
        &&& self.program_view().fns@[x] matches LeakFn::Body { blocks, span }
            && run_explains(blocks@, span, self.labels(x), self.order(x), self.used(x),
                if self.is_done(x) { Some(self.facts(x)) } else { None }, d)
    }

    /// Diagnostic `d` is explained by the recorded analysis of some body.
    pub open spec fn explained(&self, d: LeakDiagnostic) -> bool {
        exists|x: int| #[trigger] self.explains_at(x, d)
    }

    /// Every reported diagnostic is explained by the recorded analysis of some body.
    pub open spec fn diags_explained(&self) -> bool {
        forall|i: int| 0 <= i < self.diagnostics_view().len() ==> self.explained(#[trigger] self.diagnostics_view()[i])
    }

    /// The records of a body whose analysis has begun have their shape.
    pub closed spec fn records_ok(&self, x: int) -> bool {
        let nb = body_blocks(self.program, x).len();
        &&& self.labels_of@[x as usize].len() == nb + 1
        &&& forall|j: int| 0 <= j < self.order_of@[x as usize].len() ==> #[trigger] self.order_of@[x as usize][j] < nb
    }

    /// The records of every analysis suspended in `a` are unchanged in `b`.
    #[verifier::opaque]
    pub closed spec fn keeps_pending(a: &Analyzer, b: &Analyzer) -> bool {
        forall|y: int| 0 <= y < a.n() && (#[trigger] a.fn_facts@[y] matches Some(FnState::Pending { .. })) ==>
            b.labels(y) == a.labels(y) && b.order(y) == a.order(y) && b.used(y) == a.used(y)
    }

    #[verifier::opaque]
    pub closed spec fn djust(&self) -> bool {
        &&& self.diags_explained()
        &&& forall|x: int| 0 <= x < self.n() && self.started(x) && self.program.fns@[x] is Body ==> #[trigger] self.records_ok(x)
    }

    proof fn lemma_targets_in_range(p: LeakProgram, x: int)
        requires
            leak_program_ok(p),
            0 <= x < p.fns@.len(),
        ensures
            targets_in_range(body_blocks(p, x)),
    {
        let blocks = body_blocks(p, x);
        if p.fns@[x] is Body {
            assert forall|b: int, k: int| 0 <= b < blocks.len() && 0 <= k < term_targets(blocks[b].terminator, blocks.len() as usize).len()
                implies #[trigger] term_targets(blocks[b].terminator, blocks.len() as usize)[k] <= blocks.len() by {
                assert(block_ok(blocks[b], blocks.len() as int, p.fns@.len() as int));
            }
        }
    }

    /// The explanation of diagnostic `i` stays as the analysis goes on.
    proof fn lemma_explained_grows(a: &Analyzer, b: &Analyzer, i: int)
        requires
            a.djust(),
            leak_program_ok(a.program),
            b.program == a.program,
            a.diagnostics@.is_prefix_of(b.diagnostics@),
            0 <= i < a.diagnostics@.len(),
            forall|x: int| 0 <= x < a.n() && #[trigger] a.started(x) ==> {
                &&& b.started(x)
                &&& run_extends(a.labels(x), a.order(x), a.used(x), b.labels(x), b.order(x), b.used(x))
                &&& (a.is_done(x) ==> b.is_done(x) && b.facts(x) == a.facts(x) && b.labels(x) == a.labels(x)
                    && b.order(x) == a.order(x))
            },
        ensures
            b.explained(b.diagnostics@[i]),
    {
        reveal(Analyzer::djust);
        let d = a.diagnostics@[i];
        assert(b.diagnostics@[i] == d);
        assert(a.diagnostics_view()[i] == d);
        assert(a.explained(a.diagnostics_view()[i]));
        let x = choose|x: int| #[trigger] a.explains_at(x, d);
        assert(a.records_ok(x));
        Analyzer::lemma_targets_in_range(a.program, x);
        let blocks = body_blocks(a.program, x);
        let span = a.program.fns@[x]->Body_span;
        let f1 = if a.is_done(x) { Some(a.facts(x)) } else { None };
        let f2 = if b.is_done(x) { Some(b.facts(x)) } else { None };
        lemma_run_explains_extends(blocks, span, a.labels(x), a.order(x), a.used(x), f1,
            b.labels(x), b.order(x), b.used(x), f2, d);
        assert(b.explains_at(x, b.diagnostics@[i]));
    }

    /// Updating the records of a function still under analysis keeps the invariant.
    proof fn lemma_inv_records(a: &Analyzer, b: &Analyzer, me: usize)
        requires
            a.inv(),
            me < a.n(),
            a.fn_facts@[me as int] matches Some(FnState::Pending { .. }),
            b.program == a.program,
            b.fn_facts@ == a.fn_facts@,
            b.visited@.len() == a.visited@.len(),
            b.stack@ == a.stack@,
            b.reached@ == a.reached@,
            b.recs_of@ == a.recs_of@,
            b.finished@ == a.finished@,
            b.clock@ == a.clock@,
            b.diagnostics@ == a.diagnostics@,
            b.labels_of@ == a.labels_of@.insert(me, b.labels_of@[me]),
            b.order_of@ == a.order_of@.insert(me, b.order_of@[me]),
            b.used_of@ == a.used_of@.insert(me, b.used_of@[me]),
        ensures
            b.inv(),
            b.measure() == a.measure(),
            Analyzer::grows(a, b),
    {
        assert forall|y: int| 0 <= y < a.n() && #[trigger] a.is_done(y) implies b.facts_wf(y) && y != me as int by {
            assert(a.done_ok(y));
        }
        assert(Analyzer::grows(a, b));
        assert forall|x: int| 0 <= x < b.n() implies #[trigger] b.done_ok(x) by {
            assert(a.done_ok(x));
            if a.is_done(x) {
                assert(a.finished@.contains_key(x as usize) ==> a.finished@[x as usize] < a.clock@);
                Analyzer::lemma_done_ok_grows(a, b, x);
            }
        }
        assert forall|y: int| 0 <= y < b.n() implies (b.finished@.contains_key(y as usize) <==> #[trigger] b.is_done(y)) by {
            assert(a.finished@.contains_key(y as usize) <==> a.is_done(y));
        }
    }

    /// Applying block `curr` of the body `me` under analysis keeps every diagnostic explained.
    proof fn lemma_step_djust(
        c: &Analyzer,
        e: &Analyzer,
        me: usize,
        curr: usize,
        call: Map<u64, FunctionFacts>,
        call_entries: Seq<(u64, FunctionFacts)>,
        curr_entries: Seq<(u64, LeakFacts)>,
        rec: bool,
    )
        requires
            c.djust(),
            leak_program_ok(c.program),
            e.program == c.program,
            e.fn_facts@ == c.fn_facts@,
            me < c.n(),
            c.program.fns@[me as int] is Body,
            c.fn_facts@[me as int] matches Some(FnState::Pending { .. }),
            c.labels(me as int).len() == body_blocks(c.program, me as int).len() + 1,
            curr < body_blocks(c.program, me as int).len(),
            c.labels(me as int)[curr as int] is Some,
            !c.order(me as int).contains(curr),
            forall|j: int| 0 <= j < c.order(me as int).len() ==> #[trigger] c.order(me as int)[j] < body_blocks(c.program, me as int).len(),
            e.labels(me as int) == step_labels(body_blocks(c.program, me as int), c.labels(me as int), curr, call),
            e.order(me as int) == c.order(me as int).push(curr),
            e.used(me as int) == c.used(me as int).insert(curr, call),
            forall|x: int| 0 <= x < c.n() && x != me as int ==> e.labels(x) == c.labels(x) && e.order(x) == c.order(x)
                && e.used(x) == c.used(x),
            distinct_keys(curr_entries),
            seq_map(curr_entries) == label_at(c.labels(me as int), curr as int),
            distinct_keys(call_entries),
            seq_map(call_entries) == call,
            rec ==> term_callee(body_blocks(c.program, me as int)[curr as int].terminator) is Some,
            e.diagnostics@ == c.diagnostics@
                + (if rec { recursion_diags(curr_entries, body_blocks(c.program, me as int)[curr as int].span) } else { Seq::empty() })
                + limit_diags(label_at(c.labels(me as int), curr as int), call_entries, body_blocks(c.program, me as int)[curr as int].span)
                + inconsistency_diags(c.labels(me as int),
                    term_targets(body_blocks(c.program, me as int)[curr as int].terminator, body_blocks(c.program, me as int).len() as usize),
                    leaks_after(label_at(c.labels(me as int), curr as int), call), body_blocks(c.program, me as int)[curr as int].span),
        ensures
            e.djust(),
    {
        reveal(Analyzer::djust);
        let p = c.program;
        let blocks = body_blocks(p, me as int);
        let l0 = c.labels(me as int);
        let o0 = c.order(me as int);
        let u0 = c.used(me as int);
        Analyzer::lemma_targets_in_range(p, me as int);
        let dc = c.diagnostics@;
        let de = e.diagnostics@;
        assert(dc.is_prefix_of(de));
        assert(run_extends(l0, o0, u0, e.labels(me as int), e.order(me as int), e.used(me as int))) by {
            assert forall|j: int| 0 <= j < o0.len() implies e.used(me as int)[#[trigger] o0[j]] == u0[o0[j]] by {
                if o0[j] == curr {
                    assert(o0.contains(curr));
                }
            }
        }
        assert forall|x: int| 0 <= x < c.n() && #[trigger] c.started(x) implies {
            &&& e.started(x)
            &&& run_extends(c.labels(x), c.order(x), c.used(x), e.labels(x), e.order(x), e.used(x))
            &&& (c.is_done(x) ==> e.is_done(x) && e.facts(x) == c.facts(x) && e.labels(x) == c.labels(x)
                && e.order(x) == c.order(x))
        } by {
            if x != me as int {
                assert(c.order(x).is_prefix_of(e.order(x)));
            }
        }
        assert forall|i: int| 0 <= i < e.diagnostics_view().len() implies e.explained(#[trigger] e.diagnostics_view()[i]) by {
            if i < dc.len() {
                Analyzer::lemma_explained_grows(c, e, i);
            } else {
                let span = blocks[curr as int].span;
                let seg = (if rec { recursion_diags(curr_entries, span) } else { Seq::empty() })
                    + limit_diags(label_at(l0, curr as int), call_entries, span)
                    + inconsistency_diags(l0, term_targets(blocks[curr as int].terminator, blocks.len() as usize),
                        leaks_after(label_at(l0, curr as int), call), span);
                assert(de == dc + seg);
                let d = de[i];
                assert(seg[i - dc.len()] == d);
                lemma_step_segment_explained(blocks, p.fns@[me as int]->Body_span, o0, u0, l0, curr, call, call_entries, curr_entries, rec, d);
                assert(e.explains_at(me as int, d));
            }
        }
        assert forall|x: int| 0 <= x < e.n() && e.started(x) && e.program.fns@[x] is Body implies #[trigger] e.records_ok(x) by {
            assert(c.started(x));
            if x == me as int {
                assert(e.labels(x).len() == l0.len());
                assert forall|j: int| 0 <= j < e.order(x).len() implies #[trigger] e.order(x)[j] < blocks.len() by {
                    if j < o0.len() {
                        assert(e.order(x)[j] == o0[j]);
                    }
                }
                assert(e.records_ok(x));
            } else {
                assert(c.records_ok(x));
                assert(e.labels(x) == c.labels(x) && e.order(x) == c.order(x));
                assert(e.records_ok(x));
            }
        }
    }

    /// Completing the body `me` keeps every diagnostic explained.
    proof fn lemma_finish_djust(
        s: &Analyzer,
        e: &Analyzer,
        me: usize,
        ret_entries: Seq<(u64, LeakFacts)>,
        forb: Seq<(u64, ())>,
        recursive: bool,
    )
        requires
            s.djust(),
            leak_program_ok(s.program),
            e.program == s.program,
            me < s.n(),
            s.program.fns@[me as int] is Body,
            s.fn_facts@[me as int] matches Some(FnState::Pending { .. }),
            e.is_done(me as int),
            e.fn_facts@.len() == s.fn_facts@.len(),
            forall|x: int| 0 <= x < s.n() && x != me as int ==> e.fn_facts@[x] == s.fn_facts@[x],
            forall|x: int| 0 <= x < s.n() ==> e.labels(x) == s.labels(x) && e.order(x) == s.order(x) && e.used(x) == s.used(x),
            distinct_keys(ret_entries),
            seq_map(ret_entries) == label_at(s.labels(me as int), body_blocks(s.program, me as int).len() as int),
            forall|i: int| 0 <= i < forb.len() ==> shared_at_call(body_blocks(s.program, me as int), s.labels(me as int),
                s.order(me as int), (#[trigger] forb[i]).0),
            e.diagnostics@ == s.diagnostics@
                + recursive_leak_diags(ret_entries, recursive, s.program.fns@[me as int]->Body_span)
                + forbidden_diags(forb, e.facts(me as int), s.program.fns@[me as int]->Body_span),
        ensures
            e.djust(),
    {
        reveal(Analyzer::djust);
        let p = s.program;
        let blocks = body_blocks(p, me as int);
        let span = p.fns@[me as int]->Body_span;
        let ds = s.diagnostics@;
        let de = e.diagnostics@;
        let f = e.facts(me as int);
        assert(ds.is_prefix_of(de));
        assert forall|x: int| 0 <= x < s.n() && #[trigger] s.started(x) implies {
            &&& e.started(x)
            &&& run_extends(s.labels(x), s.order(x), s.used(x), e.labels(x), e.order(x), e.used(x))
            &&& (s.is_done(x) ==> e.is_done(x) && e.facts(x) == s.facts(x) && e.labels(x) == s.labels(x)
                && e.order(x) == s.order(x))
        } by {
            assert(s.order(x).is_prefix_of(e.order(x)));
        }
        assert forall|i: int| 0 <= i < e.diagnostics_view().len() implies e.explained(#[trigger] e.diagnostics_view()[i]) by {
            if i < ds.len() {
                Analyzer::lemma_explained_grows(s, e, i);
            } else {
                let ra = recursive_leak_diags(ret_entries, recursive, span);
                let fb = forbidden_diags(forb, f, span);
                assert(de == ds + ra + fb);
                let d = de[i];
                if i < ds.len() + ra.len() {
                    assert(ra[i - ds.len()] == d);
                    lemma_recursive_leak_member(ret_entries, recursive, span, d);
                    let j = choose|j: int| 0 <= j < ret_entries.len() && (#[trigger] ret_entries[j]).1 != zero_leaks()
                        && d == (LeakDiagnostic::RecursiveLeak { span, component: ret_entries[j].0 });
                    lemma_seq_map_at(ret_entries, j);
                } else {
                    assert(fb[i - ds.len() - ra.len()] == d);
                    lemma_forbidden_member(forb, f, span, d);
                    let j = choose|j: int| 0 <= j < forb.len() && f.contains_key((#[trigger] forb[j]).0) && f[forb[j].0].mutably_borrows
                        && d == (LeakDiagnostic::RecursiveMutWhileRef { span, component: forb[j].0 });
                    assert(shared_at_call(blocks, s.labels(me as int), s.order(me as int), forb[j].0));
                }
                assert(e.explains_at(me as int, d));
            }
        }
        assert forall|x: int| 0 <= x < e.n() && e.started(x) && e.program.fns@[x] is Body implies #[trigger] e.records_ok(x) by {
            assert(s.started(x));
            assert(s.records_ok(x));
            assert(e.labels(x) == s.labels(x) && e.order(x) == s.order(x));
            assert(e.records_ok(x));
        }
    }

    /// Explanations and record shapes stay when nothing is reported and no record of a
    /// begun analysis changes.
    proof fn lemma_djust_frame(a: &Analyzer, b: &Analyzer)
        requires
            a.djust(),
            leak_program_ok(a.program),
            b.program == a.program,
            b.fn_facts@.len() == a.fn_facts@.len(),
            a.diagnostics@ == b.diagnostics@,
            forall|x: int| 0 <= x < a.n() && #[trigger] a.started(x) ==> {
                &&& b.started(x)
                &&& b.labels(x) == a.labels(x)
                &&& b.order(x) == a.order(x)
                &&& b.used(x) == a.used(x)
                &&& (a.is_done(x) ==> b.is_done(x) && b.facts(x) == a.facts(x))
            },
            forall|x: int| 0 <= x < b.n() && #[trigger] b.started(x) && b.program.fns@[x] is Body ==>
                a.started(x) || b.records_ok(x),
        ensures
            b.djust(),
    {
        reveal(Analyzer::djust);
        assert forall|x: int| 0 <= x < a.n() && #[trigger] a.started(x) implies {
            &&& b.started(x)
            &&& run_extends(a.labels(x), a.order(x), a.used(x), b.labels(x), b.order(x), b.used(x))
            &&& (a.is_done(x) ==> b.is_done(x) && b.facts(x) == a.facts(x) && b.labels(x) == a.labels(x)
                && b.order(x) == a.order(x))
        } by {
            assert(a.order(x).is_prefix_of(b.order(x)));
        }
        assert forall|i: int| 0 <= i < b.diagnostics_view().len() implies b.explained(#[trigger] b.diagnostics_view()[i]) by {
            Analyzer::lemma_explained_grows(a, b, i);
        }
        assert forall|x: int| 0 <= x < b.n() && b.started(x) && b.program.fns@[x] is Body implies #[trigger] b.records_ok(x) by {
            if a.started(x) {
                assert(a.records_ok(x));
                assert(b.labels(x) == a.labels(x) && b.order(x) == a.order(x));
            }
        }
    }

    pub closed spec fn done_ok(&self, x: int) -> bool {
        let p = self.program;
        match self.fn_facts@[x] {
            Some(FnState::Done(m)) => {
                &&& m.wf()
                &&& self.finished@.contains_key(x as usize)
                &&& match p.fns@[x] {
                    LeakFn::Primitive { kind, component } => m@ == primitive_map(kind, component),
                    LeakFn::Body { blocks, span } => {
                        let r = self.reached@[x as usize];
                        let o = self.order_of@[x as usize];
                        let u = self.used_of@[x as usize];
                        &&& recursion_reported(p, blocks@, span, x as usize, self.labels_of@[x as usize], o,
                            self.recs_of@[x as usize], m@, self.diagnostics@)
                        &&& self.labels_of@.contains_key(x as usize)
                        &&& self.order_of@.contains_key(x as usize)
                        &&& self.used_of@.contains_key(x as usize)
                        &&& body_run(blocks@, self.labels_of@[x as usize], o, u, m@, self.diagnostics@)
                        &&& forall|b: int| 0 <= b < r.len() ==> r[b] == (#[trigger] self.labels_of@[x as usize][b] is Some)
                        &&& forall|i: int| 0 <= i < o.len() ==>
                            u[#[trigger] o[i]] == self.callee_facts(x, term_callee(blocks@[o[i] as int].terminator))
                        &&& forall|i: int| 0 <= i < o.len() ==>
                            (term_callee(blocks@[#[trigger] o[i] as int].terminator) matches Some(c)
                                ==> (self.finished_before(c as int, x) || reaches(p, c, x as usize)))
                        &&& self.reached@.contains_key(x as usize)
                        &&& r.len() == blocks@.len()
                        &&& r[0]
                        &&& forall|b: int| 0 <= b < r.len() && #[trigger] r[b] ==> {
                            &&& (term_callee(blocks@[b].terminator) matches Some(c) ==> self.fn_facts@[c as int] is Some)
                            &&& forall|i: int| 0 <= i < term_targets(blocks@[b].terminator, r.len() as usize).len()
                                && #[trigger] term_targets(blocks@[b].terminator, r.len() as usize)[i] < r.len()
                                ==> r[term_targets(blocks@[b].terminator, r.len() as usize)[i] as int]
                        }
                    },
                }
            },
            _ => true,
        }
    }

    pub closed spec fn inv(&self) -> bool {
        let n = self.n();
        let stack = self.stack@;
        &&& leak_program_ok(self.program)
        &&& self.fn_facts@.len() == n
        &&& self.visited@.len() == n
        &&& stack.len() <= count_seen(seen_states(self.fn_facts@))
        &&& forall|d: int| 0 <= d < stack.len() - 1 ==> #[trigger] calls(self.program, stack[d] as int, stack[d + 1])
        &&& forall|d: int| 0 <= d < stack.len() ==> 0 <= #[trigger] stack[d] < n
            && self.fn_facts@[stack[d] as int] == Some(FnState::Pending { my_depth: d as u32 })
        &&& forall|x: int| 0 <= x < n && (#[trigger] self.fn_facts@[x] matches Some(FnState::Pending { my_depth })) ==> {
            let d = self.fn_facts@[x]->Some_0->my_depth as int;
            &&& 0 <= d < stack.len()
            &&& stack[d] == x
            &&& self.program.fns@[x] is Body
        }
        &&& forall|x: int| 0 <= x < n ==> #[trigger] self.done_ok(x)
        &&& forall|y: int| 0 <= y < n ==> (self.finished@.contains_key(y as usize) <==> #[trigger] self.is_done(y))
        &&& forall|y: usize| #[trigger] self.finished@.contains_key(y) ==> y < n && self.finished@[y] < self.clock@
    }

    /// From `a` to `b` the analysis only went on: what was recorded stays, and what was
    /// completed later was completed at a later time.
    pub closed spec fn grows(a: &Analyzer, b: &Analyzer) -> bool {
        &&& b.program == a.program
        &&& b.fn_facts@.len() == a.fn_facts@.len()
        &&& forall|y: int| 0 <= y < a.n() && #[trigger] a.fn_facts@[y] is Some ==> b.fn_facts@[y] is Some
        &&& forall|y: int| 0 <= y < a.n() && #[trigger] a.is_done(y) ==> {
            &&& b.is_done(y)
            &&& (a.reached@.contains_key(y as usize) ==> b.reached@.contains_key(y as usize))
            &&& (a.labels_of@.contains_key(y as usize) ==> b.labels_of@.contains_key(y as usize))
            &&& (a.order_of@.contains_key(y as usize) ==> b.order_of@.contains_key(y as usize))
            &&& (a.used_of@.contains_key(y as usize) ==> b.used_of@.contains_key(y as usize))
            &&& b.facts(y) == a.facts(y)
            &&& b.facts_wf(y)
            &&& b.reached@[y as usize] == a.reached@[y as usize]
            &&& b.labels_of@[y as usize] == a.labels_of@[y as usize]
            &&& b.order_of@[y as usize] == a.order_of@[y as usize]
            &&& b.used_of@[y as usize] == a.used_of@[y as usize]
            &&& b.recs_of@[y as usize] == a.recs_of@[y as usize]
        }
        &&& forall|y: usize| #[trigger] a.finished@.contains_key(y) ==>
            b.finished@.contains_key(y) && b.finished@[y] == a.finished@[y]
        &&& forall|y: usize| #[trigger] b.finished@.contains_key(y) && !a.finished@.contains_key(y)
            ==> b.finished@[y] >= a.clock@
        &&& a.clock@ <= b.clock@
        &&& a.diagnostics@.is_prefix_of(b.diagnostics@)
    }

    proof fn lemma_grows_trans(a: &Analyzer, b: &Analyzer, c: &Analyzer)
        requires
            Analyzer::grows(a, b),
            Analyzer::grows(b, c),
        ensures
            Analyzer::grows(a, c),
    {
        assert forall|y: usize| #[trigger] c.finished@.contains_key(y) && !a.finished@.contains_key(y)
            implies c.finished@[y] >= a.clock@ by {
            if b.finished@.contains_key(y) {
                assert(b.finished@[y] >= a.clock@);
            }
        }
        assert forall|y: int| 0 <= y < a.n() && #[trigger] a.fn_facts@[y] is Some implies c.fn_facts@[y] is Some by {
            assert(b.fn_facts@[y] is Some);
        }
        assert forall|y: int| 0 <= y < a.n() && #[trigger] a.is_done(y) implies c.is_done(y) by {
            assert(b.is_done(y));
        }
        assert(a.diagnostics@.is_prefix_of(c.diagnostics@)) by {
            assert forall|i: int| 0 <= i < a.diagnostics@.len() implies a.diagnostics@[i] == c.diagnostics@[i] by {
                assert(a.diagnostics@[i] == b.diagnostics@[i]);
            }
        }
    }

    /// A body run stays one as more diagnostics are reported.
    proof fn lemma_body_run_diags(
        blocks: Seq<Block>,
        labels: Seq<Option<Map<u64, LeakFacts>>>,
        order: Seq<usize>,
        used: Map<usize, Map<u64, FunctionFacts>>,
        facts: Map<u64, FunctionFacts>,
        d1: Seq<LeakDiagnostic>,
        d2: Seq<LeakDiagnostic>,
    )
        requires
            body_run(blocks, labels, order, used, facts, d1),
            d1.is_prefix_of(d2),
        ensures
            body_run(blocks, labels, order, used, facts, d2),
    {
        assert forall|i: int| 0 <= i < order.len() implies
            limits_reported(blocks, labels, used, d2, #[trigger] order[i]) by {
            lemma_limits_diags(blocks, labels, labels, used, used, d1, d2, order[i]);
        }
        assert forall|i: int| 0 <= i < order.len() implies edge_ok(blocks, labels, used, d2, #[trigger] order[i]) by {
            assert(edge_ok(blocks, labels, used, d1, order[i]));
            let b = order[i];
            assert forall|k: int| 0 <= k < term_targets(blocks[b as int].terminator, blocks.len() as usize).len() implies {
                let t = #[trigger] term_targets(blocks[b as int].terminator, blocks.len() as usize)[k] as int;
                &&& labels[t] is Some
                &&& (labels[t] == Some(leaks_after(label_at(labels, b as int), used[b]))
                    || d2.contains(LeakDiagnostic::InconsistentPaths { span: blocks[b as int].span }))
            } by {
                let e = LeakDiagnostic::InconsistentPaths { span: blocks[b as int].span };
                if d1.contains(e) {
                    let w = choose|w: int| 0 <= w < d1.len() && d1[w] == e;
                    assert(d2[w] == e);
                }
            }
        }
    }

    /// What `a` recorded of a completed function still holds in `b`.
    #[verifier::spinoff_prover]
    proof fn lemma_done_ok_grows(a: &Analyzer, b: &Analyzer, x: int)
        requires
            a.done_ok(x),
            leak_program_ok(a.program),
            a.fn_facts@.len() == a.n(),
            forall|y: usize| #[trigger] a.finished@.contains_key(y) ==> y < a.n() && a.is_done(y as int),
            a.finished@.contains_key(x as usize) ==> a.finished@[x as usize] < a.clock@,
            Analyzer::grows(a, b),
            0 <= x < a.n(),
            a.is_done(x),
        ensures
            b.done_ok(x),
    {
        let p = a.program;
        let m = a.facts(x);
        if let LeakFn::Body { blocks, span } = p.fns@[x] {
            let o = a.order_of@[x as usize];
            let u = a.used_of@[x as usize];
            let r = a.reached@[x as usize];
            Analyzer::lemma_body_run_diags(blocks@, a.labels_of@[x as usize], o, u, m, a.diagnostics@, b.diagnostics@);
            lemma_recursion_reported_diags(p, blocks@, span, x as usize, a.labels_of@[x as usize], o,
                a.recs_of@[x as usize], m, a.diagnostics@, b.diagnostics@);
            assert forall|i: int| 0 <= i < o.len() implies
                u[#[trigger] o[i]] == b.callee_facts(x, term_callee(blocks@[o[i] as int].terminator)) by {
                assert(u[o[i]] == a.callee_facts(x, term_callee(blocks@[o[i] as int].terminator)));
                if let Some(c) = term_callee(blocks@[o[i] as int].terminator) {
                    assert(a.finished@.contains_key(x as usize));
                    if a.finished@.contains_key(c) {
                        assert(a.is_done(c as int));
                    } else if b.finished@.contains_key(c) {
                        assert(b.finished@[c] >= a.clock@);
                        assert(a.finished@[x as usize] < a.clock@);
                    }
                }
            }
            assert forall|i: int| 0 <= i < o.len() implies
                (term_callee(blocks@[#[trigger] o[i] as int].terminator) matches Some(c)
                    ==> (b.finished_before(c as int, x) || reaches(p, c, x as usize))) by {
                if let Some(c) = term_callee(blocks@[o[i] as int].terminator) {
                    if a.finished_before(c as int, x) {
                        assert(b.finished_before(c as int, x));
                    }
                }
            }
            assert forall|bb: int| 0 <= bb < r.len() && #[trigger] r[bb] implies
                (term_callee(blocks@[bb].terminator) matches Some(c) ==> b.fn_facts@[c as int] is Some) by {
                if let Some(c) = term_callee(blocks@[bb].terminator) {
                    assert(a.fn_facts@[c as int] is Some);
                    assert(leak_program_ok(p));
                    assert(block_ok(blocks@[bb], blocks@.len() as int, a.n()));
                }
            }
        }
    }

    /// Function `x` has its facts and `x` with them is what one
    /// analysis of it records.
    proof fn lemma_seen_bound(&self)
        ensures
            count_seen(seen_states(self.fn_facts@)) <= self.fn_facts@.len(),
    {
        crate::trace::lemma_count_seen_bound(seen_states(self.fn_facts@));
    }

    /// The invariant depends on the program, the states, the stack and the reached
    /// blocks only.
    proof fn lemma_inv_frame(a: &Analyzer, b: &Analyzer)
        requires
            a.inv(),
            a.program == b.program,
            a.fn_facts@ == b.fn_facts@,
            a.visited@.len() == b.visited@.len(),
            a.stack@ == b.stack@,
            a.reached@ == b.reached@,
            a.recs_of@ == b.recs_of@,
            a.labels_of@ == b.labels_of@,
            a.order_of@ == b.order_of@,
            a.used_of@ == b.used_of@,
            a.finished@ == b.finished@,
            a.clock@ == b.clock@,
            a.diagnostics@.is_prefix_of(b.diagnostics@),
        ensures
            b.inv(),
            b.measure() == a.measure(),
            Analyzer::grows(a, b),
    {
        assert forall|y: int| 0 <= y < a.n() && #[trigger] a.is_done(y) implies b.facts_wf(y) by {
            assert(a.done_ok(y));
        }
        assert(Analyzer::grows(a, b));
        assert forall|x: int| 0 <= x < b.n() implies #[trigger] b.done_ok(x) by {
            assert(a.done_ok(x));
            if a.is_done(x) {
                assert(a.finished@.contains_key(x as usize) ==> a.finished@[x as usize] < a.clock@);
                Analyzer::lemma_done_ok_grows(a, b, x);
            }
        }
        assert forall|y: int| 0 <= y < b.n() implies (b.finished@.contains_key(y as usize) <==> #[trigger] b.is_done(y)) by {
            assert(a.finished@.contains_key(y as usize) <==> a.is_done(y));
        }
    }

    fn prim_of(&self, f: usize) -> (r: Option<(Primitive, u64)>)
        requires
            f < self.program.fns@.len(),
        ensures
            match self.program.fns@[f as int] {
                LeakFn::Primitive { kind, component } => r == Some((kind, component)),
                _ => r is None,
            },
    {
        match &self.program.fns[f] {
            LeakFn::Primitive { kind, component } => Some((*kind, *component)),
            _ => None,
        }
    }

    fn body_info(&self, f: usize) -> (r: (usize, u64))
        requires
            f < self.program.fns@.len(),
            self.program.fns@[f as int] is Body,
        ensures
            r.0 == body_blocks(self.program, f as int).len(),
            r.1 == self.program.fns@[f as int]->Body_span,
    {
        match &self.program.fns[f] {
            LeakFn::Body { blocks, span } => (blocks.len(), *span),
            _ => (0, 0),
        }
    }

    /// The callee, successors and span of block `b` of `f`, or `None` for a block
    /// that ends the path.
    fn block_step(&self, f: usize, b: usize) -> (r: Option<(Option<usize>, Vec<usize>, u64)>)
        requires
            f < self.program.fns@.len(),
            self.program.fns@[f as int] is Body,
            b < body_blocks(self.program, f as int).len(),
        ensures
            ({
                let blk = body_blocks(self.program, f as int)[b as int];
                let nb = body_blocks(self.program, f as int).len();
                match r {
                    None => blk.terminator is Stop,
                    Some((c, ts, span)) => !(blk.terminator is Stop) && c == term_callee(blk.terminator)
                        && ts@ == term_targets(blk.terminator, nb as usize) && span == blk.span,
                }
            }),
    {
        match &self.program.fns[f] {
            LeakFn::Body { blocks, .. } => {
                let blk = &blocks[b];
                let nb = blocks.len();
                match &blk.terminator {
                    Terminator::Goto { target } => Some((None, vec![*target], blk.span)),
                    Terminator::SwitchInt { targets } => {
                        let mut ts: Vec<usize> = Vec::new();
                        for i in 0..targets.len()
                            invariant
                                ts@ == targets@.take(i as int),
                        {
                            ts.push(targets[i]);
                            assert(ts@ =~= targets@.take(i + 1));
                        }
                        assert(ts@ =~= targets@);
                        Some((None, ts, blk.span))
                    },
                    Terminator::InlineAsm { destination } => match destination {
                        Some(t) => Some((None, vec![*t], blk.span)),
                        None => Some((None, Vec::new(), blk.span)),
                    },
                    Terminator::Stop => None,
                    Terminator::Return => Some((None, vec![nb], blk.span)),
                    Terminator::Call { callee, target } => match target {
                        Some(t) => Some((Some(*callee), vec![*t], blk.span)),
                        None => Some((Some(*callee), Vec::new(), blk.span)),
                    },
                    Terminator::Drop { dtor, target } => Some((*dtor, vec![*target], blk.span)),
                }
            },
            _ => None,
        }
    }

    /// The facts a caller sees of `c`: none while `c` is still being analyzed.
    fn effective_facts(&self, c: usize) -> (r: FactsMap)
        requires
            c < self.fn_facts@.len(),
            self.fn_facts@[c as int] is Some,
            self.fn_facts@[c as int] matches Some(FnState::Done(m)) ==> m.wf(),
        ensures
            r.wf(),
            r@ == self.facts(c as int),
    {
        match &self.fn_facts[c] {
            Some(FnState::Done(m)) => m.copy(),
            _ => FactsMap::new(),
        }
    }
}


impl Analyzer {
    /// The callee facts applied at a block calling `c` are those of a completed callee,
    /// or none for a callee still under analysis.
    spec fn used_ok(&self, x: usize, c: Option<usize>, u: Map<u64, FunctionFacts>) -> bool {
        match c {
            Some(c) => (self.is_done(c as int) && u == self.facts(c as int))
                || ((self.fn_facts@[c as int] matches Some(FnState::Pending { .. })) && u == Map::<u64, FunctionFacts>::empty()
                    && reaches(self.program, c, x)),
            None => u == Map::<u64, FunctionFacts>::empty(),
        }
    }

    /// A function still under analysis reaches the one on top of the stack.
    proof fn lemma_pending_reaches(&self, c: usize)
        requires
            self.inv(),
            c < self.n(),
            self.fn_facts@[c as int] matches Some(FnState::Pending { .. }),
        ensures
            self.stack@.len() > 0,
            reaches(self.program, c, self.stack@.last()),
    {
        let st = self.stack@;
        let d = self.fn_facts@[c as int]->Some_0->my_depth as int;
        assert(0 <= d < st.len() && st[d] == c);
        let path = st.subrange(d, st.len() as int);
        assert forall|i: int| 0 <= i < path.len() - 1 implies #[trigger] calls(self.program, path[i] as int, path[i + 1]) by {
            assert(path[i] == st[d + i]);
            assert(path[i + 1] == st[d + i + 1]);
            assert(calls(self.program, st[d + i] as int, st[d + i + 1]));
        }
        assert(path[0] == c);
        assert(path.last() == st.last());
        assert(is_call_path(self.program, path));
    }

    proof fn lemma_inv_done_ok(a: &Analyzer, b: &Analyzer, x: int)
        requires
            a.inv(),
            Analyzer::grows(a, b),
            0 <= x < a.n(),
            a.is_done(x),
        ensures
            b.done_ok(x),
    {
        assert(a.done_ok(x));
        assert forall|y: usize| #[trigger] a.finished@.contains_key(y) implies y < a.n() && a.is_done(y as int) by {
            assert(y < a.n());
            assert(a.finished@.contains_key((y as int) as usize) <==> a.is_done(y as int));
        }
        assert(a.finished@.contains_key(x as usize) ==> a.finished@[x as usize] < a.clock@);
        Analyzer::lemma_done_ok_grows(a, b, x);
    }

    /// Records the hardcoded facts of the primitive `me`.
    fn record_primitive(&mut self, me: usize, kind: Primitive, component: u64) -> (r: u32)
        requires
            old(self).inv(),
            me < old(self).n(),
            old(self).program.fns@[me as int] == (LeakFn::Primitive { kind, component }),
            old(self).djust(),
        ensures
            r == u32::MAX,
            final(self).inv(),
            final(self).djust(),
            Analyzer::keeps_pending(old(self), final(self)),
            final(self).program == old(self).program,
            final(self).stack@ == old(self).stack@,
            final(self).visited@ == old(self).visited@,
            final(self).collected_fn_impls@ == old(self).collected_fn_impls@,
            final(self).collected_trait_impls@ == old(self).collected_trait_impls@,
            old(self).diagnostics@.is_prefix_of(final(self).diagnostics@),
            forall|x: int| 0 <= x < old(self).n() && #[trigger] old(self).fn_facts@[x] is Some ==> {
                &&& final(self).fn_facts@[x] is Some
                &&& state_view(final(self).fn_facts@[x]) == state_view(old(self).fn_facts@[x])
            },
            final(self).fn_facts@[me as int] is Some,
            final(self).is_done(me as int),
            final(self).facts(me as int) == primitive_map(kind, component),
            Analyzer::grows(old(self), final(self)),
    {
        let ghost n = self.n();
        let ghost fm0 = self.fn_facts@;
        let ghost s_old = *self;
        proof {
            self.lemma_seen_bound();
        }
        let mut m = FactsMap::new();
        m.insert(component, hardcoded_facts(kind));
        self.fn_facts.set(me, Some(FnState::Done(m)));
        proof {
            if !self.finished@.contains_key(me) {
                self.finished@ = self.finished@.insert(me, self.clock@);
                self.clock@ = self.clock@ + 1;
            }
            assert(m@ =~= primitive_map(kind, component));
            assert(s_old.done_ok(me as int));
            let s1 = seen_states(self.fn_facts@);
            let s0 = seen_states(fm0);
            crate::trace::lemma_count_seen_mono(s0, s1);
            assert forall|y: int| 0 <= y < n && #[trigger] s_old.is_done(y) implies {
                &&& self.is_done(y)
                &&& self.facts(y) == s_old.facts(y)
                &&& self.facts_wf(y)
            } by {
                assert(s_old.done_ok(y));
            }
            assert(Analyzer::grows(&s_old, self));
            assert forall|x: int| 0 <= x < n implies #[trigger] self.done_ok(x) by {
                if x != me as int {
                    assert(self.fn_facts@[x] == fm0[x]);
                    if s_old.is_done(x) {
                        Analyzer::lemma_inv_done_ok(&s_old, self, x);
                    }
                }
            }
            assert forall|y: int| 0 <= y < n implies
                (self.finished@.contains_key(y as usize) <==> #[trigger] self.is_done(y)) by {
                assert(s_old.finished@.contains_key(y as usize) <==> s_old.is_done(y));
            }
            assert(self.inv());
            assert forall|x: int| 0 <= x < s_old.n() && #[trigger] s_old.started(x) implies
                (s_old.is_done(x) ==> self.is_done(x) && self.facts(x) == s_old.facts(x)) by {
                if x == me as int && s_old.is_done(x) {
                    assert(s_old.done_ok(x));
                }
            }
            Analyzer::lemma_djust_frame(&s_old, self);
            reveal(Analyzer::keeps_pending);
            assert forall|y: int| 0 <= y < s_old.n() && (#[trigger] s_old.fn_facts@[y] matches Some(FnState::Pending { .. })) implies
                self.labels(y) == s_old.labels(y) && self.order(y) == s_old.order(y) && self.used(y) == s_old.used(y) by {}
        }
        u32::MAX
    }

    /// Analyzes `me` at stack depth `my_depth`, and everything its reachable blocks call.
    /// Returns the smallest stack depth it recursed back into, or `u32::MAX`.
    #[verifier::spinoff_prover]
    #[verifier::rlimit(100)]
    fn analyze_inner(&mut self, my_depth: u32, me: usize) -> (r: u32)
        requires
            old(self).inv(),
            me < old(self).n(),
            my_depth as int == old(self).stack@.len(),
            old(self).stack@.len() > 0 ==> calls(old(self).program, old(self).stack@.last() as int, me),
            old(self).djust(),
        ensures
            final(self).inv(),
            final(self).djust(),
            Analyzer::keeps_pending(old(self), final(self)),
            final(self).program == old(self).program,
            final(self).stack@ == old(self).stack@,
            final(self).visited@ == old(self).visited@,
            final(self).collected_fn_impls@ == old(self).collected_fn_impls@,
            final(self).collected_trait_impls@ == old(self).collected_trait_impls@,
            old(self).diagnostics@.is_prefix_of(final(self).diagnostics@),
            forall|x: int| 0 <= x < old(self).n() && #[trigger] old(self).fn_facts@[x] is Some ==> {
                &&& final(self).fn_facts@[x] is Some
                &&& state_view(final(self).fn_facts@[x]) == state_view(old(self).fn_facts@[x])
            },
            final(self).fn_facts@[me as int] is Some,
            final(self).is_done(me as int) || old(self).fn_facts@[me as int] is Some,
            Analyzer::grows(old(self), final(self)),
            old(self).fn_facts@[me as int] matches Some(FnState::Pending { my_depth: d }) ==> r == d,
            r < u32::MAX && r <= my_depth ==> reaches(old(self).program, me, old(self).stack@.push(me)[r as int]),
            old(self).program.fns@[me as int] matches LeakFn::Primitive { kind, component } ==> r == u32::MAX
                && final(self).is_done(me as int) && final(self).facts(me as int) == primitive_map(kind, component),
        decreases old(self).measure(), 1nat,
    {
        let ghost n = self.n();
        let ghost s_old = *self;
        // The primitives have hardcoded facts.
        match self.prim_of(me) {
            Some((kind, component)) => {
                return self.record_primitive(me, kind, component);
            },
            None => {},
        }
        proof {
            Analyzer::lemma_inv_frame(&s_old, self);
            reveal(Analyzer::keeps_pending);
        }
        match &self.fn_facts[me] {
            Some(FnState::Pending { my_depth: d }) => {
                proof {
                    assert(self.stack@[*d as int] == me);
                    assert(self.stack@.push(me)[*d as int] == me);
                    lemma_reaches_refl(self.program, me);
                }
                return *d;
            },
            Some(FnState::Done(_)) => {
                return u32::MAX;
            },
            None => {},
        }
        self.analyze_body(my_depth, me)
    }

    /// Marks the body `me` as under analysis at depth `my_depth`, with empty records.
    fn start_body(&mut self, my_depth: u32, me: usize)
        requires
            old(self).inv(),
            me < old(self).n(),
            my_depth as int == old(self).stack@.len(),
            old(self).stack@.len() > 0 ==> calls(old(self).program, old(self).stack@.last() as int, me),
            old(self).djust(),
            old(self).fn_facts@[me as int] is None,
            old(self).program.fns@[me as int] is Body,
        ensures
            final(self).inv(),
            final(self).djust(),
            final(self).program == old(self).program,
            final(self).stack@ == old(self).stack@.push(me),
            final(self).fn_facts@ == old(self).fn_facts@.update(me as int, Some(FnState::Pending { my_depth })),
            final(self).visited@ == old(self).visited@,
            final(self).collected_fn_impls@ == old(self).collected_fn_impls@,
            final(self).collected_trait_impls@ == old(self).collected_trait_impls@,
            final(self).diagnostics@ == old(self).diagnostics@,
            final(self).recs_of@ == old(self).recs_of@,
            Analyzer::grows(old(self), final(self)),
            final(self).measure() < old(self).measure(),
            final(self).labels_of@[me as usize] == Seq::new((body_blocks(old(self).program, me as int).len() + 1) as nat,
                |i: int| if i == 0 { Some(Map::<u64, LeakFacts>::empty()) } else { None }),
            final(self).order_of@[me as usize] == Seq::<usize>::empty(),
            final(self).used_of@[me as usize] == Map::<usize, Map<u64, FunctionFacts>>::empty(),
            forall|y: int| 0 <= y < old(self).n() && y != me as int ==> final(self).labels(y) == old(self).labels(y)
                && final(self).order(y) == old(self).order(y) && final(self).used(y) == old(self).used(y),
    {
        let ghost n = self.n();
        let ghost fm0 = self.fn_facts@;
        let ghost s_old = *self;
        proof {
            self.lemma_seen_bound();
        }
        self.fn_facts.set(me, Some(FnState::Pending { my_depth }));
        proof {
            self.stack@ = self.stack@.push(me);
            let s1 = seen_states(self.fn_facts@);
            let s0 = seen_states(fm0);
            assert(!s0[me as int] && s1[me as int]);
            crate::trace::lemma_count_seen_mono(s0, s1);
            assert forall|y: int| 0 <= y < n && #[trigger] s_old.is_done(y) implies {
                &&& self.is_done(y)
                &&& self.facts(y) == s_old.facts(y)
                &&& self.facts_wf(y)
            } by {
                assert(s_old.done_ok(y));
                assert(y != me as int);
            }
            assert(Analyzer::grows(&s_old, self));
            assert forall|x: int| 0 <= x < n implies #[trigger] self.done_ok(x) by {
                if x != me as int {
                    assert(self.fn_facts@[x] == fm0[x]);
                    if s_old.is_done(x) {
                        Analyzer::lemma_inv_done_ok(&s_old, self, x);
                    }
                }
            }
            assert forall|y: int| 0 <= y < n implies
                (self.finished@.contains_key(y as usize) <==> #[trigger] self.is_done(y)) by {
                assert(s_old.finished@.contains_key(y as usize) <==> s_old.is_done(y));
            }
            self.lemma_seen_bound();
            assert(self.inv());
        }
        let ghost s_pend = *self;
        proof {
            let nbs = body_blocks(self.program, me as int).len();
            self.labels_of@ = self.labels_of@.insert(me, Seq::new((nbs + 1) as nat, |i: int|
                if i == 0 { Some(Map::<u64, LeakFacts>::empty()) } else { None }));
            self.order_of@ = self.order_of@.insert(me, Seq::<usize>::empty());
            self.used_of@ = self.used_of@.insert(me, Map::<usize, Map<u64, FunctionFacts>>::empty());
            Analyzer::lemma_inv_records(&s_pend, self, me);
            Analyzer::lemma_grows_trans(&s_old, &s_pend, self);
            assert(self.records_ok(me as int));
            assert forall|x: int| 0 <= x < s_old.n() && #[trigger] s_old.started(x) implies {
                &&& self.started(x)
                &&& self.labels(x) == s_old.labels(x)
                &&& self.order(x) == s_old.order(x)
                &&& self.used(x) == s_old.used(x)
                &&& (s_old.is_done(x) ==> self.is_done(x) && self.facts(x) == s_old.facts(x))
            } by {
                assert(x != me as int);
            }
            Analyzer::lemma_djust_frame(&s_old, self);
        }
        proof {
            let s0 = seen_states(fm0);
            let s1 = seen_states(self.fn_facts@);
            assert(!s0[me as int] && s1[me as int]);
            crate::trace::lemma_count_seen_mono(s0, s1);
            crate::trace::lemma_count_seen_bound(s1);
            assert(self.fn_facts@ =~= fm0.update(me as int, Some(FnState::Pending { my_depth })));
        }
    }

    /// Analyzes the body `me`, not yet started, at stack depth `my_depth`.
    #[verifier::spinoff_prover]
    #[verifier::rlimit(100)]
    fn analyze_body(&mut self, my_depth: u32, me: usize) -> (r: u32)
        requires
            old(self).fn_facts@[me as int] is None,
            old(self).program.fns@[me as int] is Body,
            old(self).inv(),
            me < old(self).n(),
            my_depth as int == old(self).stack@.len(),
            old(self).stack@.len() > 0 ==> calls(old(self).program, old(self).stack@.last() as int, me),
            old(self).djust(),
        ensures
            final(self).inv(),
            final(self).djust(),
            Analyzer::keeps_pending(old(self), final(self)),
            final(self).program == old(self).program,
            final(self).stack@ == old(self).stack@,
            final(self).visited@ == old(self).visited@,
            final(self).collected_fn_impls@ == old(self).collected_fn_impls@,
            final(self).collected_trait_impls@ == old(self).collected_trait_impls@,
            old(self).diagnostics@.is_prefix_of(final(self).diagnostics@),
            forall|x: int| 0 <= x < old(self).n() && #[trigger] old(self).fn_facts@[x] is Some ==> {
                &&& final(self).fn_facts@[x] is Some
                &&& state_view(final(self).fn_facts@[x]) == state_view(old(self).fn_facts@[x])
            },
            final(self).fn_facts@[me as int] is Some,
            final(self).is_done(me as int) || old(self).fn_facts@[me as int] is Some,
            Analyzer::grows(old(self), final(self)),
            old(self).fn_facts@[me as int] matches Some(FnState::Pending { my_depth: d }) ==> r == d,
            r < u32::MAX && r <= my_depth ==> reaches(old(self).program, me, old(self).stack@.push(me)[r as int]),
        decreases old(self).measure(), 0nat,
    {
        let ghost n = self.n();
        let ghost fm0 = self.fn_facts@;
        let ghost s_old = *self;
        proof {
            self.lemma_seen_bound();
        }
        let ghost stack0 = self.stack@;
        let ghost d0 = self.diagnostics@;
        self.start_body(my_depth, me);
        let ghost fm1 = self.fn_facts@;
        let (nb, body_span) = self.body_info(me);
        let ghost blocks = body_blocks(self.program, me as int);
        let ghost p = self.program;
        proof {
            assert(leak_program_ok(p));
            assert forall|b: int, k: int| 0 <= b < blocks.len() && 0 <= k < term_targets(blocks[b].terminator, blocks.len() as usize).len()
                implies #[trigger] term_targets(blocks[b].terminator, blocks.len() as usize)[k] <= blocks.len() by {
                assert(block_ok(blocks[b], nb as int, n));
            }
            assert(targets_in_range(blocks));
        }
        let mut min_recurse_into: u32 = u32::MAX;
        let mut forbidden: VecMap<()> = VecMap::new();
        let mut my_facts = FactsMap::new();
        let mut bb: Vec<Option<LeakMap>> = Vec::new();
        for i in 0..nb + 1
            invariant
                bb@.len() == i,
                forall|j: int| 0 <= j < i ==> bb@[j] is None,
        {
            bb.push(None);
        }
        bb.set(0, Some(LeakMap::new()));
        let mut process: Vec<usize> = vec![0];
        let ghost mut processed: Seq<bool> = Seq::new(nb as nat, |i: int| false);
        let ghost mut order: Seq<usize> = Seq::empty();
        let ghost mut used: Map<usize, Map<u64, FunctionFacts>> = Map::empty();
        let ghost mut recs: Set<usize> = Set::empty();
        proof {
            assert(process@ =~= seq![0usize]);
            assert(labels_view(bb@)[0] == Some(Map::<u64, LeakFacts>::empty()));
            assert forall|t: int| 0 < t < labels_view(bb@).len() implies (#[trigger] labels_view(bb@)[t]) is None by {}
            lemma_run_state_init(blocks, labels_view(bb@));
            assert(my_facts@ =~= Map::<u64, FunctionFacts>::empty());
            assert(forbidden@ =~= Map::<u64, ()>::empty());
            lemma_run_state_diags(blocks, labels_view(bb@), process@, processed, order, used,
                Seq::empty(), self.diagnostics@, my_facts@, forbidden@);
            assert(labels_view(bb@) =~= self.labels_of@[me as usize]);
            reveal(Analyzer::keeps_pending);
            assert forall|y: int| 0 <= y < n && (#[trigger] old(self).fn_facts@[y] matches Some(FnState::Pending { .. })) implies
                self.labels(y) == old(self).labels(y) && self.order(y) == old(self).order(y) && self.used(y) == old(self).used(y) by {
                assert(y != me as int);
            }
        }
        loop
            invariant
                self.inv(),
                self.program == p,
                p == old(self).program,
                n == self.n(),
                me < n,
                p.fns@[me as int] is Body,
                blocks == body_blocks(p, me as int),
                nb == blocks.len(),
                1 <= nb < usize::MAX,
                targets_in_range(blocks),
                self.stack@ == stack0.push(me),
                stack0 == old(self).stack@,
                my_depth as int == stack0.len(),
                self.fn_facts@[me as int] == Some(FnState::Pending { my_depth }),
                self.visited@ == old(self).visited@,
                self.collected_fn_impls@ == old(self).collected_fn_impls@,
                self.collected_trait_impls@ == old(self).collected_trait_impls@,
                d0 == old(self).diagnostics@,
                d0.is_prefix_of(self.diagnostics@),
                Analyzer::grows(old(self), self),
                forall|x: int| 0 <= x < n && #[trigger] fm0[x] is Some ==> {
                    &&& self.fn_facts@[x] is Some
                    &&& state_view(self.fn_facts@[x]) == state_view(fm0[x])
                },
                forall|x: int| 0 <= x < n && #[trigger] fm1[x] is Some ==> self.fn_facts@[x] is Some,
                fm0 == old(self).fn_facts@,
                fm0[me as int] is None,
                fm1[me as int] is Some,
                self.measure() < old(self).measure(),
                my_facts.wf(),
                forbidden.wf(),
                bb@.len() == nb + 1,
                forall|i: int| 0 <= i < bb@.len() && #[trigger] bb@[i] is Some ==> bb@[i]->Some_0.wf(),
                run_state(blocks, labels_view(bb@), process@, processed, order, used, self.diagnostics@, my_facts@, forbidden@),
                processed.len() == nb,
                forall|b: int| 0 <= b < nb && #[trigger] processed[b]
                    ==> (term_callee(blocks[b].terminator) matches Some(c) ==> self.fn_facts@[c as int] is Some),
                forall|i: int| 0 <= i < order.len() ==>
                    self.used_ok(me, term_callee(blocks[#[trigger] order[i] as int].terminator), used[order[i]]),
                self.djust(),
                self.labels_of@[me as usize] == labels_view(bb@),
                self.order_of@[me as usize] == order,
                self.used_of@[me as usize] == used,
                Analyzer::keeps_pending(old(self), self),
                forall|i: int| 0 <= i < order.len() ==> 0 <= #[trigger] order[i] < labels_view(bb@).len()
                    && labels_view(bb@)[order[i] as int] is Some,
                forall|b: usize| #[trigger] recs.contains(b) ==> order.contains(b)
                    && (term_callee(blocks[b as int].terminator) matches Some(c) && reaches(p, c, me)),
                forall|i: int| 0 <= i < order.len() && term_callee(blocks[#[trigger] order[i] as int].terminator) == Some(me)
                    ==> recs.contains(order[i]),
                forall|b: usize, k: u64| #[trigger] recs.contains(b) && #[trigger] label_at(labels_view(bb@), b as int).contains_key(k)
                    && label_at(labels_view(bb@), b as int)[k].leaked_muts > 0 ==> self.diagnostics@.contains(LeakDiagnostic::RecursesHoldingMut {
                        span: blocks[b as int].span,
                        component: k,
                        leaked_muts: label_at(labels_view(bb@), b as int)[k].leaked_muts,
                    }),
                forall|b: usize, k: u64| #[trigger] recs.contains(b) && #[trigger] label_at(labels_view(bb@), b as int).contains_key(k)
                    && label_at(labels_view(bb@), b as int)[k].leaked_refs > 0 ==> forbidden@.contains_key(k),
                (min_recurse_into <= my_depth) == !recs.is_empty(),
                min_recurse_into <= my_depth ==> reaches(p, me, stack0.push(me)[min_recurse_into as int]),
            ensures
                process@.len() == 0,
            decreases 2 * (nb + 1 - count_seen(labeled(bb@))) + process@.len(),
        {
            proof {
                crate::trace::lemma_count_seen_bound(labeled(bb@));
            }
            let ghost proc0 = process@;
            let curr = match process.pop() {
                Some(c) => c,
                None => {
                    break;
                },
            };
            let ghost bb_pre = bb@;
            let ghost self_a = *self;
            let ghost processed_pre = processed;
            let ghost mut s_c = *self;
            let ghost mut rec = false;
            let ghost order_pre = order;
            let ghost used_pre = used;
            let ghost forb_pre = forbidden@;
            let ghost my_pre = my_facts@;
            let ghost recs_pre = recs;
            let ghost min_pre = min_recurse_into;
            let ghost diags_pre = self.diagnostics@;
            proof {
                assert(proc0.last() == curr);
                assert(process@ =~= proc0.drop_last());
                lemma_run_state_pop(blocks, labels_view(bb@), proc0, processed, order, used, self.diagnostics@, my_facts@, forbidden@);
                assert(labels_view(bb@)[curr as int] is Some);
                assert(leak_program_ok(p));
                assert(block_ok(blocks[curr as int], nb as int, n));
            }
            match self.block_step(me, curr) {
                None => {
                    proof {
                        lemma_run_state_stop(blocks, labels_view(bb@), proc0, processed, order, used, self.diagnostics@, my_facts@, forbidden@);
                        processed = processed.update(curr as int, true);
                        assert(labeled(bb@) == labeled(bb_pre));
                    }
                },
                Some((callee, targets, span)) => {
                    let curr_facts = match &bb[curr] {
                        Some(m) => m.copy(),
                        None => LeakMap::new(),
                    };
                    let call_facts = match callee {
                        Some(c) => {
                            proof {
                                self.lemma_seen_bound();
                                assert(c < n);
                                assert(self.stack@.last() == me);
                                assert(term_callee(body_blocks(p, me as int)[curr as int].terminator) == Some(c));
                                assert(calls(p, me as int, c));
                            }
                            let this_min = self.analyze_inner(my_depth + 1, c);
                            proof {
                                let sa = seen_states(self_a.fn_facts@);
                                let sb = seen_states(self.fn_facts@);
                                assert forall|i: int| 0 <= i < sa.len() && #[trigger] sa[i] implies sb[i] by {
                                    assert(self_a.fn_facts@[i] is Some);
                                }
                                crate::trace::lemma_count_seen_mono(sa, sb);
                                self.lemma_seen_bound();
                                self_a.lemma_seen_bound();
                                assert(self.measure() <= self_a.measure());
                                assert(self.fn_facts@[me as int] == Some(FnState::Pending { my_depth })) by {
                                    assert(self.stack@[my_depth as int] == me);
                                }
                                assert(self.done_ok(c as int));
                                s_c = *self;
                            }
                            let ghost self_c = *self;
                            if this_min < min_recurse_into {
                                min_recurse_into = this_min;
                            }
                            if this_min <= my_depth {
                                check_recursive_call(&curr_facts, span, &mut self.diagnostics, &mut forbidden);
                                proof {
                                    rec = true;
                                }
                            }
                            proof {
                                if c == me {
                                    assert(self_a.fn_facts@[me as int] == Some(FnState::Pending { my_depth }));
                                    assert(this_min == my_depth);
                                }
                                if this_min <= my_depth {
                                    let st = stack0.push(me);
                                    assert(self_a.stack@ == st);
                                    assert(st.push(c)[this_min as int] == st[this_min as int]);
                                    let x = st[this_min as int];
                                    assert(self_a.fn_facts@[x as int] == Some(FnState::Pending { my_depth: this_min }));
                                    self_a.lemma_pending_reaches(x);
                                    assert(self_a.stack@.last() == me);
                                    lemma_reaches_trans(p, c, x, me);
                                    lemma_reaches_call(p, me, c);
                                    lemma_reaches_trans(p, me, c, x);
                                }
                            }
                            proof {
                                Analyzer::lemma_inv_frame(&self_c, self);
                                Analyzer::lemma_grows_trans(&self_a, &self_c, self);
                                assert(self.done_ok(c as int));
                            }
                            self.effective_facts(c)
                        },
                        None => FactsMap::new(),
                    };
                    let ghost self_b = *self;
                    proof {
                        if callee is None {
                            Analyzer::lemma_inv_frame(&self_a, self);
                        }
                        assert(Analyzer::grows(&self_a, &self_b));
                        assert(self_b.measure() <= self_a.measure());
                        assert forall|x: int| 0 <= x < n && #[trigger] self_a.fn_facts@[x] is Some implies {
                            &&& self.fn_facts@[x] is Some
                            &&& state_view(self.fn_facts@[x]) == state_view(self_a.fn_facts@[x])
                        } by {}
                        if let Some(c) = callee {
                            if !self_b.is_done(c as int) {
                                self_b.lemma_pending_reaches(c);
                                assert(self_b.stack@.last() == me);
                            }
                        }
                        assert(self_b.used_ok(me, callee, call_facts@));
                        assert forall|i: int| 0 <= i < order.len() implies
                            self_b.used_ok(me, term_callee(blocks[#[trigger] order[i] as int].terminator), used[order[i]]) by {
                            assert(self_a.used_ok(me, term_callee(blocks[order[i] as int].terminator), used[order[i]]));
                            if let Some(c) = term_callee(blocks[order[i] as int].terminator) {
                                if !self_a.is_done(c as int) {
                                    assert(self_a.fn_facts@[c as int] is Some);
                                    assert(state_view(self_b.fn_facts@[c as int]) == state_view(self_a.fn_facts@[c as int]));
                                }
                            }
                        }
                        Analyzer::lemma_grows_trans(old(self), &self_a, &self_b);
                    }
                    let ghost dpre = self.diagnostics@;
                    let exp = apply_call(&mut my_facts, &curr_facts, &call_facts, span, &mut self.diagnostics);
                    propagate(&mut bb, &targets, &exp, span, &mut self.diagnostics, &mut process);
                    proof {
                        let l0 = labels_view(bb_pre);
                        assert(curr_facts@ == label_at(l0, curr as int));
                        assert(self_a.diagnostics@.is_prefix_of(dpre)) by {
                            assert forall|w: int| 0 <= w < self_a.diagnostics@.len() implies self_a.diagnostics@[w] == dpre[w] by {
                                assert(self_a.diagnostics@[w] == self_b.diagnostics@[w]);
                            }
                        }
                        assert forall|k: u64| #[trigger] forbidden@.contains_key(k) implies forb_pre.contains_key(k) || (rec
                            && label_at(l0, curr as int).contains_key(k) && label_at(l0, curr as int)[k].leaked_refs > 0) by {
                            if !forb_pre.contains_key(k) {
                                assert(shared_components(curr_facts@).contains(k));
                            }
                        }
                        lemma_run_state_step(blocks, l0, proc0, process@, processed_pre, order_pre, used_pre,
                            self_a.diagnostics@, dpre, self.diagnostics@, my_pre, forb_pre, forbidden@,
                            call_facts@, call_facts.entries@, rec);
                        assert(labels_view(bb@) =~= step_labels(blocks, l0, curr, call_facts@));
                        assert(labeled(bb@) =~= some_mask(labels_view(bb@)));
                        assert(labeled(bb_pre) =~= some_mask(l0));
                        processed = processed.update(curr as int, true);
                        order = order.push(curr);
                        used = used.insert(curr, call_facts@);
                        assert(self.fn_facts@ == self_b.fn_facts@);
                        assert forall|i: int| 0 <= i < order.len() implies
                            self.used_ok(me, term_callee(blocks[#[trigger] order[i] as int].terminator), used[order[i]]) by {
                            if i < order.len() - 1 {
                                assert(order[i] == order_pre[i]);
                                assert(order_pre[i] != curr) by {
                                    if order_pre[i] == curr {
                                        assert(order_pre.contains(curr));
                                    }
                                }
                                assert(self_b.used_ok(me, term_callee(blocks[order_pre[i] as int].terminator), used_pre[order_pre[i]]));
                            } else {
                                assert(order[i] == curr);
                            }
                        }
                        assert forall|b: int| 0 <= b < nb && #[trigger] processed[b]
                            implies (term_callee(blocks[b].terminator) matches Some(c) ==> self.fn_facts@[c as int] is Some) by {
                            if b != curr as int {
                                assert(processed_pre[b]);
                                if let Some(c) = term_callee(blocks[b].terminator) {
                                    assert(self_a.fn_facts@[c as int] is Some);
                                }
                            }
                        }
                        crate::trace::lemma_count_seen_bound(labeled(bb@));
                        crate::trace::lemma_count_seen_mono(labeled(bb_pre), labeled(bb@));
                        Analyzer::lemma_inv_frame(&self_b, self);
                        Analyzer::lemma_grows_trans(old(self), &self_b, self);
                    }
                    proof {
                        let s_e0 = *self;
                        self.labels_of@ = self.labels_of@.insert(me, labels_view(bb@));
                        self.order_of@ = self.order_of@.insert(me, order);
                        self.used_of@ = self.used_of@.insert(me, used);
                        Analyzer::lemma_inv_records(&s_e0, self, me);
                        Analyzer::lemma_grows_trans(old(self), &s_e0, self);
                    }
                    proof {
                        let l0 = labels_view(bb_pre);
                        let dc = s_c.diagnostics@;
                        let ra = if rec { recursion_diags(curr_facts.entries@, span) } else { Seq::empty() };
                        assert(self.diagnostics@ == dc + ra
                            + limit_diags(curr_facts@, call_facts.entries@, span)
                            + inconsistency_diags(l0, targets@, exp@, span));
                        reveal(Analyzer::keeps_pending);
                        Analyzer::lemma_step_djust(&s_c, self, me, curr, call_facts@, call_facts.entries@, curr_facts.entries@, rec);
                        assert forall|y: int| 0 <= y < old(self).n() && (#[trigger] old(self).fn_facts@[y] matches Some(FnState::Pending { .. })) implies
                            self.labels(y) == old(self).labels(y) && self.order(y) == old(self).order(y) && self.used(y) == old(self).used(y) by {
                            assert(y != me as int);
                            assert(fm0[y] is Some);
                            assert(state_view(self_a.fn_facts@[y]) == state_view(fm0[y]));
                            assert(self_a.fn_facts@[y] matches Some(FnState::Pending { .. }));
                            assert(s_c.labels(y) == self_a.labels(y) && s_c.order(y) == self_a.order(y) && s_c.used(y) == self_a.used(y));
                        }
                    }
                    proof {
                        let l0 = labels_view(bb_pre);
                        let l1 = labels_view(bb@);
                        let dc = s_c.diagnostics@;
                        let ra = if rec { recursion_diags(curr_facts.entries@, span) } else { Seq::empty() };
                        assert(l1 == step_labels(blocks, l0, curr, call_facts@));
                        assert(diags_pre.is_prefix_of(dc));
                        assert(diags_pre.is_prefix_of(self.diagnostics@)) by {
                            assert forall|w: int| 0 <= w < diags_pre.len() implies diags_pre[w] == self.diagnostics@[w] by {
                                assert(dc[w] == diags_pre[w]);
                            }
                        }
                        assert forall|d: LeakDiagnostic| ra.contains(d) implies self.diagnostics@.contains(d) by {
                            let w = choose|w: int| 0 <= w < ra.len() && ra[w] == d;
                            assert(self.diagnostics@[dc.len() + w] == d);
                        }
                        let recs1 = if rec { recs.insert(curr) } else { recs };
                        lemma_rec_step(p, blocks, me, l0, l1, curr, callee, rec, order_pre, order, recs_pre, recs1,
                            diags_pre, self.diagnostics@, forb_pre, forbidden@, curr_facts.entries@, span);
                        recs = recs1;
                    }
                },
            }
        }
        let ghost s_loop = *self;
        let ret = match &bb[nb] {
            Some(m) => m.copy(),
            None => LeakMap::new(),
        };
        let ghost lv = labels_view(bb@);
        proof {
            assert(ret@ == label_at(lv, nb as int));
            assert(process@ =~= Seq::<usize>::empty());
            lemma_run_state_done(blocks, lv, processed, order, used, s_loop.diagnostics@, my_facts@, forbidden@);
        }
        finish_facts(&mut my_facts, &ret, min_recurse_into <= my_depth, body_span, &forbidden, &mut self.diagnostics);
        let ghost fm2 = self.fn_facts@;
        let ghost s2 = *self;
        proof {
            Analyzer::lemma_inv_frame(&s_loop, self);
            assert(s2.inv());
            Analyzer::lemma_grows_trans(old(self), &s_loop, &s2);
            Analyzer::lemma_body_run_diags(blocks, lv, order, used, my_facts@, s_loop.diagnostics@, s2.diagnostics@);
            lemma_finish_recursion(p, blocks, body_span, me, lv, order, recs, forbidden, ret.entries@, my_facts@,
                s_loop.diagnostics@, s2.diagnostics@);
        }
        self.fn_facts.set(me, Some(FnState::Done(my_facts)));
        proof {
            let r = labeled(bb@).take(nb as int);
            self.reached@ = self.reached@.insert(me, r);
            self.labels_of@ = self.labels_of@.insert(me, lv);
            self.order_of@ = self.order_of@.insert(me, order);
            self.used_of@ = self.used_of@.insert(me, used);
            self.recs_of@ = self.recs_of@.insert(me, recs);
            self.finished@ = self.finished@.insert(me, self.clock@);
            self.clock@ = self.clock@ + 1;
            self.stack@ = stack0;
            assert(!s2.finished@.contains_key(me)) by {
                assert(s2.finished@.contains_key(me) <==> s2.is_done(me as int));
            }
            assert forall|b: int| 0 <= b < nb && #[trigger] labeled(bb@)[b] implies processed[b] by {
                assert(lv[b] is Some);
            }
            assert(self.done_ok(me as int)) by {
                assert forall|b: int| 0 <= b < r.len() implies r[b] == (#[trigger] lv[b] is Some) by {}
                assert forall|b: int| 0 <= b < r.len() && #[trigger] r[b] implies {
                    &&& (term_callee(blocks[b].terminator) matches Some(c) ==> self.fn_facts@[c as int] is Some)
                    &&& forall|i: int| 0 <= i < term_targets(blocks[b].terminator, r.len() as usize).len()
                        && #[trigger] term_targets(blocks[b].terminator, r.len() as usize)[i] < r.len()
                        ==> r[term_targets(blocks[b].terminator, r.len() as usize)[i] as int]
                } by {
                    assert(labeled(bb@)[b]);
                    assert(processed[b]);
                    match term_callee(blocks[b].terminator) {
                        Some(c) => {
                            if c as int != me as int {
                                assert(fm2[c as int] is Some);
                            }
                        },
                        None => {},
                    }
                    assert forall|i: int| 0 <= i < term_targets(blocks[b].terminator, r.len() as usize).len()
                        && #[trigger] term_targets(blocks[b].terminator, r.len() as usize)[i] < r.len()
                        implies r[term_targets(blocks[b].terminator, r.len() as usize)[i] as int] by {
                        assert(lv[term_targets(blocks[b].terminator, nb)[i] as int] is Some);
                    }
                }
                assert forall|i: int| 0 <= i < order.len() implies
                    used[#[trigger] order[i]] == self.callee_facts(me as int, term_callee(blocks[order[i] as int].terminator)) by {
                    assert(s_loop.used_ok(me, term_callee(blocks[order[i] as int].terminator), used[order[i]]));
                    if let Some(c) = term_callee(blocks[order[i] as int].terminator) {
                        if s_loop.is_done(c as int) {
                            assert(c != me);
                            assert(s_loop.finished@.contains_key(c));
                            assert(s_loop.finished@[c] < s_loop.clock@);
                            assert(self.finished_before(c as int, me as int));
                        } else {
                            assert(!s2.finished@.contains_key(c)) by {
                                assert(s2.finished@.contains_key(c) ==> c < n);
                                if c < n {
                                    assert(s2.finished@.contains_key(c) <==> s2.is_done(c as int));
                                }
                            }
                            assert(!self.finished_before(c as int, me as int));
                        }
                    }
                }
            }
            assert forall|y: int| 0 <= y < n && #[trigger] s2.is_done(y) implies {
                &&& self.is_done(y)
                &&& self.facts(y) == s2.facts(y)
                &&& self.facts_wf(y)
            } by {
                assert(s2.done_ok(y));
                assert(y != me as int);
            }
            assert(Analyzer::grows(&s2, self));
            assert forall|x: int| 0 <= x < n implies #[trigger] self.done_ok(x) by {
                if x != me as int {
                    assert(fm2[x] == self.fn_facts@[x]);
                    if s2.is_done(x) {
                        Analyzer::lemma_inv_done_ok(&s2, self, x);
                    }
                }
            }
            assert forall|y: int| 0 <= y < n implies
                (self.finished@.contains_key(y as usize) <==> #[trigger] self.is_done(y)) by {
                assert(s2.finished@.contains_key(y as usize) <==> s2.is_done(y));
            }
            let s0 = seen_states(fm2);
            let s1 = seen_states(self.fn_facts@);
            assert(s0 =~= s1);
            assert forall|x: int| 0 <= x < n && (#[trigger] self.fn_facts@[x] matches Some(FnState::Pending { my_depth })) implies {
                let d = self.fn_facts@[x]->Some_0->my_depth as int;
                &&& 0 <= d < stack0.len()
                &&& stack0[d] == x
                &&& p.fns@[x] is Body
            } by {
                assert(x != me as int);
                assert(fm2[x] == self.fn_facts@[x]);
                let d = self.fn_facts@[x]->Some_0->my_depth as int;
                assert(s2.stack@[d] == x);
                if d == stack0.len() {
                    assert(s2.stack@[d] == me);
                }
            }
            assert(self.inv());
            Analyzer::lemma_grows_trans(old(self), &s2, self);
            assert forall|x: int| 0 <= x < n && #[trigger] fm0[x] is Some implies {
                &&& self.fn_facts@[x] is Some
                &&& state_view(self.fn_facts@[x]) == state_view(fm0[x])
            } by {
                assert(x != me as int);
                assert(fm2[x] == self.fn_facts@[x]);
            }
        }
        proof {
            reveal(forbidden_shared);
            assert forall|i: int| 0 <= i < forbidden.entries@.len() implies shared_at_call(blocks, s_loop.labels(me as int),
                s_loop.order(me as int), (#[trigger] forbidden.entries@[i]).0) by {
                lemma_seq_map_at(forbidden.entries@, i);
                assert(forbidden@.contains_key(forbidden.entries@[i].0));
            }
            assert forall|x: int| 0 <= x < s_loop.n() implies self.labels(x) == s_loop.labels(x)
                && self.order(x) == s_loop.order(x) && self.used(x) == s_loop.used(x) by {}
            Analyzer::lemma_finish_djust(&s_loop, self, me, ret.entries@, forbidden.entries@, min_recurse_into <= my_depth);
        }
        min_recurse_into
    }
}


/// `c` makes function `g` callable through a pointer or a vtable.
pub open spec fn coerces_to(c: Coercion, g: usize) -> bool {
    match c {
        Coercion::FnPointer { instance, .. } => instance == g,
        Coercion::Vtable { methods } => exists|m: int| 0 <= m < methods@.len() && #[trigger] methods@[m].1 == g,
    }
}

/// Function `f` calls or drops into `g`, or makes `g` callable dynamically.
pub open spec fn dyn_edge(p: LeakProgram, f: int, g: usize) -> bool {
    ||| calls(p, f, g)
    ||| exists|b: int, j: int| 0 <= b < body_blocks(p, f).len() && 0 <= j < body_blocks(p, f)[b].coercions@.len()
        && #[trigger] coerces_to(body_blocks(p, f)[b].coercions@[j], g)
}

/// A chain of such edges, possibly empty, leads from `f` to `x`.
pub open spec fn dyn_reaches(p: LeakProgram, f: usize, x: usize) -> bool {
    exists|path: Seq<usize>| path.len() >= 1 && path[0] == f && path.last() == x
        && forall|i: int| 0 <= i < path.len() - 1 ==> #[trigger] dyn_edge(p, path[i] as int, path[i + 1])
}

proof fn lemma_dyn_refl(p: LeakProgram, f: usize)
    ensures
        dyn_reaches(p, f, f),
{
    let path = seq![f];
    assert(path.last() == f);
    assert(forall|i: int| 0 <= i < path.len() - 1 ==> #[trigger] dyn_edge(p, path[i] as int, path[i + 1]));
}

proof fn lemma_dyn_prepend(p: LeakProgram, f: usize, g: usize, x: usize)
    requires
        dyn_edge(p, f as int, g),
        dyn_reaches(p, g, x),
    ensures
        dyn_reaches(p, f, x),
{
    let path = choose|path: Seq<usize>| path.len() >= 1 && path[0] == g && path.last() == x
        && forall|i: int| 0 <= i < path.len() - 1 ==> #[trigger] dyn_edge(p, path[i] as int, path[i + 1]);
    let np = seq![f] + path;
    assert forall|i: int| 0 <= i < np.len() - 1 implies #[trigger] dyn_edge(p, np[i] as int, np[i + 1]) by {
        if i == 0 {
            assert(np[0] == f);
            assert(np[1] == path[0]);
        } else {
            assert(np[i] == path[i - 1]);
            assert(np[i + 1] == path[i]);
            assert(dyn_edge(p, path[i - 1] as int, path[(i - 1) + 1]));
        }
    }
    assert(np.last() == path.last());
    assert(np[0] == f);
}

/// `c` makes `q.1` callable as the method `q.0` of a trait object.
pub open spec fn vtable_has(c: Coercion, q: (u64, usize)) -> bool {
    match c {
        Coercion::Vtable { methods } => methods@.contains(q),
        _ => false,
    }
}

/// Adds `pair` to `set` unless it is there already.
fn insert_pair(set: &mut Vec<(u64, usize)>, pair: (u64, usize))
    ensures
        forall|q: (u64, usize)| #[trigger] final(set)@.contains(q) <==> old(set)@.contains(q) || q == pair,
{
    let mut i: usize = 0;
    while i < set.len()
        invariant
            i <= set@.len(),
            forall|j: int| 0 <= j < i ==> #[trigger] set@[j] != pair,
        decreases set@.len() - i,
    {
        if set[i].0 == pair.0 && set[i].1 == pair.1 {
            proof {
                assert forall|q: (u64, usize)| #[trigger] set@.contains(q) <==> set@.contains(q) || q == pair by {
                    if q == pair {
                        assert(set@[i as int] == pair);
                    }
                }
            }
            return;
        }
        i = i + 1;
    }
    let ghost s0 = set@;
    set.push(pair);
    proof {
        assert forall|q: (u64, usize)| #[trigger] set@.contains(q) <==> s0.contains(q) || q == pair by {
            if s0.contains(q) {
                let j = choose|j: int| 0 <= j < s0.len() && s0[j] == q;
                assert(set@[j] == q);
            }
            if q == pair {
                assert(set@[s0.len() as int] == pair);
            }
            if set@.contains(q) {
                let j = choose|j: int| 0 <= j < set@.len() && set@[j] == q;
                if j < s0.len() {
                    assert(s0[j] == q);
                }
            }
        }
    }
}

impl Analyzer {
    /// The collection has recorded what coercion `c` makes callable.
    pub closed spec fn coercion_collected(&self, c: Coercion) -> bool {
        match c {
            Coercion::FnPointer { fn_ty, instance } => {
                &&& self.visited@[instance as int]
                &&& self.collected_fn_impls@.contains((fn_ty, instance))
            },
            Coercion::Vtable { methods } => self.methods_collected(methods@, methods@.len() as int),
        }
    }

    /// The first `k` methods of a vtable are visited and recorded.
    pub closed spec fn methods_collected(&self, methods: Seq<(u64, usize)>, k: int) -> bool {
        forall|i: int| 0 <= i < k ==> {
            &&& self.visited@[#[trigger] methods[i].1 as int]
            &&& self.collected_trait_impls@.contains(methods[i])
        }
    }

    /// The collection has recorded the first `j` coercions of block `b` of `x`.
    pub closed spec fn block_collected(&self, blk: Block, j: int) -> bool {
        forall|i: int| 0 <= i < j ==> self.coercion_collected(#[trigger] blk.coercions@[i])
    }

    /// The collection has gone through the first `upto` blocks of `x`.
    pub closed spec fn blocks_collected(&self, x: int, upto: int) -> bool {
        let blocks = body_blocks(self.program, x);
        forall|b: int| 0 <= b < upto ==> {
            &&& self.block_collected(#[trigger] blocks[b], blocks[b].coercions@.len() as int)
            &&& (term_callee(blocks[b].terminator) matches Some(c) ==> self.visited@[c as int])
        }
    }

    /// The collection has gone through every block of `x`.
    pub closed spec fn fn_collected(&self, x: int) -> bool {
        self.blocks_collected(x, body_blocks(self.program, x).len() as int)
    }

    /// Every recorded pair comes from a coercion of a visited function.
    pub closed spec fn pairs_sound(&self) -> bool {
        &&& forall|q: (u64, usize)| #[trigger] self.collected_fn_impls@.contains(q) ==> exists|x: int, b: int, j: int|
            0 <= x < self.n() && self.visited@[x] && 0 <= b < body_blocks(self.program, x).len()
            && 0 <= j < body_blocks(self.program, x)[b].coercions@.len()
            && #[trigger] body_blocks(self.program, x)[b].coercions@[j] == (Coercion::FnPointer { fn_ty: q.0, instance: q.1 })
        &&& forall|q: (u64, usize)| #[trigger] self.collected_trait_impls@.contains(q) ==> exists|x: int, b: int, j: int|
            0 <= x < self.n() && self.visited@[x] && 0 <= b < body_blocks(self.program, x).len()
            && 0 <= j < body_blocks(self.program, x)[b].coercions@.len()
            && vtable_has(#[trigger] body_blocks(self.program, x)[b].coercions@[j], q)
    }

    pub closed spec fn cinv(&self, cstack: Seq<usize>) -> bool {
        &&& self.visited@.len() == self.n()
        &&& leak_program_ok(self.program)
        &&& forall|x: int| 0 <= x < self.n() && #[trigger] self.visited@[x] && !cstack.contains(x as usize)
            ==> self.fn_collected(x)
        &&& self.pairs_sound()
    }

    pub closed spec fn collect_measure(&self) -> nat {
        (self.visited@.len() - count_seen(self.visited@)) as nat
    }
}


/// `b` has visited and recorded at least what `a` has.
pub closed spec fn collection_grows(a: &Analyzer, b: &Analyzer) -> bool {
    &&& a.program == b.program
    &&& a.visited@.len() == b.visited@.len()
    &&& forall|x: int| 0 <= x < a.visited@.len() && #[trigger] a.visited@[x] ==> b.visited@[x]
    &&& forall|q: (u64, usize)| #[trigger] a.collected_fn_impls@.contains(q) ==> b.collected_fn_impls@.contains(q)
    &&& forall|q: (u64, usize)| #[trigger] a.collected_trait_impls@.contains(q) ==> b.collected_trait_impls@.contains(q)
}

impl Analyzer {
    proof fn lemma_collected_grows(a: &Analyzer, b: &Analyzer, blk: Block, j: int)
        requires
            collection_grows(a, b),
            a.block_collected(blk, j),
            0 <= j <= blk.coercions@.len(),
            forall|i: int| 0 <= i < blk.coercions@.len() ==> coercion_ok(#[trigger] blk.coercions@[i], a.visited@.len() as int),
        ensures
            b.block_collected(blk, j),
    {
        assert forall|i: int| 0 <= i < j implies b.coercion_collected(#[trigger] blk.coercions@[i]) by {
            assert(a.coercion_collected(blk.coercions@[i]));
            assert(coercion_ok(blk.coercions@[i], a.visited@.len() as int));
            match blk.coercions@[i] {
                Coercion::FnPointer { fn_ty, instance } => {
                    assert(a.visited@[instance as int]);
                    assert(a.collected_fn_impls@.contains((fn_ty, instance)));
                    assert(b.collected_fn_impls@.contains((fn_ty, instance)));
                    assert(b.coercion_collected(blk.coercions@[i]));
                },
                Coercion::Vtable { methods } => {
                    assert(a.methods_collected(methods@, methods@.len() as int));
                    assert forall|m: int| 0 <= m < methods@.len() implies {
                        &&& b.visited@[#[trigger] methods@[m].1 as int]
                        &&& b.collected_trait_impls@.contains(methods@[m])
                    } by {
                        assert(methods@[m].1 < a.visited@.len());
                        assert(a.visited@[methods@[m].1 as int]);
                        assert(a.collected_trait_impls@.contains(methods@[m]));
                    }
                    assert(b.methods_collected(methods@, methods@.len() as int));
                    assert(b.coercion_collected(blk.coercions@[i]));
                },
            }
        }
    }

    proof fn lemma_blocks_grows(a: &Analyzer, b: &Analyzer, x: int, upto: int)
        requires
            collection_grows(a, b),
            leak_program_ok(a.program),
            a.visited@.len() == a.n(),
            0 <= x < a.n(),
            0 <= upto <= body_blocks(a.program, x).len(),
            a.blocks_collected(x, upto),
        ensures
            b.blocks_collected(x, upto),
    {
        let blocks = body_blocks(b.program, x);
        assert forall|bi: int| 0 <= bi < upto implies {
            &&& b.block_collected(#[trigger] blocks[bi], blocks[bi].coercions@.len() as int)
            &&& (term_callee(blocks[bi].terminator) matches Some(c) ==> b.visited@[c as int])
        } by {
            assert(a.block_collected(blocks[bi], blocks[bi].coercions@.len() as int));
            assert(block_ok(blocks[bi], blocks.len() as int, b.n()));
            Analyzer::lemma_collected_grows(a, b, blocks[bi], blocks[bi].coercions@.len() as int);
        }
    }

    #[verifier::spinoff_prover]
    proof fn lemma_methods_extend(a: &Analyzer, methods: Seq<(u64, usize)>, k: int)
        requires
            a.methods_collected(methods, k),
            0 <= k < methods.len(),
            a.visited@[methods[k].1 as int],
            a.collected_trait_impls@.contains(methods[k]),
        ensures
            a.methods_collected(methods, k + 1),
    {
    }

    proof fn lemma_methods_grows(a: &Analyzer, b: &Analyzer, methods: Seq<(u64, usize)>, k: int)
        requires
            collection_grows(a, b),
            a.methods_collected(methods, k),
            0 <= k <= methods.len(),
            forall|i: int| 0 <= i < methods.len() ==> #[trigger] methods[i].1 < a.visited@.len(),
        ensures
            b.methods_collected(methods, k),
    {
        assert forall|i: int| 0 <= i < k implies {
            &&& b.visited@[#[trigger] methods[i].1 as int]
            &&& b.collected_trait_impls@.contains(methods[i])
        } by {
            assert(methods[i].1 < a.visited@.len());
            assert(a.visited@[methods[i].1 as int]);
            assert(a.collected_trait_impls@.contains(methods[i]));
        }
    }

    proof fn lemma_cinv_grows(a: &Analyzer, b: &Analyzer, cstack: Seq<usize>)
        requires
            a.cinv(cstack),
            collection_grows(a, b),
            a.visited@ == b.visited@,
            b.pairs_sound(),
        ensures
            b.cinv(cstack),
    {
        assert forall|x: int| 0 <= x < b.n() && #[trigger] b.visited@[x] && !cstack.contains(x as usize)
            implies b.fn_collected(x) by {
            assert(a.fn_collected(x));
            Analyzer::lemma_blocks_grows(a, b, x, body_blocks(a.program, x).len() as int);
        }
    }

    fn block_count(&self, f: usize) -> (r: usize)
        requires
            f < self.program.fns@.len(),
        ensures
            r == body_blocks(self.program, f as int).len(),
    {
        match &self.program.fns[f] {
            LeakFn::Body { blocks, .. } => blocks.len(),
            _ => 0,
        }
    }

    fn coercion_count(&self, f: usize, b: usize) -> (r: usize)
        requires
            f < self.program.fns@.len(),
            b < body_blocks(self.program, f as int).len(),
        ensures
            r == body_blocks(self.program, f as int)[b as int].coercions@.len(),
    {
        match &self.program.fns[f] {
            LeakFn::Body { blocks, .. } => blocks[b].coercions.len(),
            _ => 0,
        }
    }

    /// The function-pointer coercion at this position, or `None` for a vtable with
    /// `n` methods.
    fn coercion_at(&self, f: usize, b: usize, j: usize) -> (r: Result<(u64, usize), usize>)
        requires
            f < self.program.fns@.len(),
            b < body_blocks(self.program, f as int).len(),
            j < body_blocks(self.program, f as int)[b as int].coercions@.len(),
        ensures
            match body_blocks(self.program, f as int)[b as int].coercions@[j as int] {
                Coercion::FnPointer { fn_ty, instance } => r == Ok::<(u64, usize), usize>((fn_ty, instance)),
                Coercion::Vtable { methods } => r == Err::<(u64, usize), usize>(methods.len()),
            },
    {
        match &self.program.fns[f] {
            LeakFn::Body { blocks, .. } => match &blocks[b].coercions[j] {
                Coercion::FnPointer { fn_ty, instance } => Ok((*fn_ty, *instance)),
                Coercion::Vtable { methods } => Err(methods.len()),
            },
            _ => Err(0),
        }
    }

    fn vtable_at(&self, f: usize, b: usize, j: usize, i: usize) -> (r: (u64, usize))
        requires
            f < self.program.fns@.len(),
            b < body_blocks(self.program, f as int).len(),
            j < body_blocks(self.program, f as int)[b as int].coercions@.len(),
            body_blocks(self.program, f as int)[b as int].coercions@[j as int] is Vtable,
            i < body_blocks(self.program, f as int)[b as int].coercions@[j as int]->Vtable_methods@.len(),
        ensures
            r == body_blocks(self.program, f as int)[b as int].coercions@[j as int]->Vtable_methods@[i as int],
    {
        match &self.program.fns[f] {
            LeakFn::Body { blocks, .. } => match &blocks[b].coercions[j] {
                Coercion::Vtable { methods } => methods[i],
                _ => (0, 0),
            },
            _ => (0, 0),
        }
    }

    fn callee_at(&self, f: usize, b: usize) -> (r: Option<usize>)
        requires
            f < self.program.fns@.len(),
            b < body_blocks(self.program, f as int).len(),
        ensures
            r == term_callee(body_blocks(self.program, f as int)[b as int].terminator),
    {
        match &self.program.fns[f] {
            LeakFn::Body { blocks, .. } => match &blocks[b].terminator {
                Terminator::Call { callee, .. } => Some(*callee),
                Terminator::Drop { dtor, .. } => *dtor,
                _ => None,
            },
            _ => None,
        }
    }
}


impl Analyzer {
    /// Visits `f` and everything its coercions and terminators reach, recording each
    /// function-pointer and vtable target on the way.
    #[verifier::spinoff_prover]
    #[verifier::rlimit(50)]
    fn collect_inner(&mut self, f: usize, Ghost(cstack): Ghost<Seq<usize>>)
        requires
            old(self).cinv(cstack),
            f < old(self).n(),
            forall|i: int| 0 <= i < cstack.len() ==> #[trigger] cstack[i] < old(self).n()
                && old(self).visited@[cstack[i] as int],
        ensures
            final(self).cinv(cstack),
            collection_grows(old(self), final(self)),
            final(self).visited@[f as int],
            final(self).program == old(self).program,
            final(self).fn_facts@ == old(self).fn_facts@,
            final(self).diagnostics@ == old(self).diagnostics@,
            final(self).stack@ == old(self).stack@,
            final(self).reached@ == old(self).reached@,
            final(self).recs_of@ == old(self).recs_of@,
            final(self).labels_of@ == old(self).labels_of@,
            final(self).order_of@ == old(self).order_of@,
            final(self).used_of@ == old(self).used_of@,
            final(self).finished@ == old(self).finished@,
            final(self).clock@ == old(self).clock@,
            forall|x: int| 0 <= x < old(self).n() && #[trigger] final(self).visited@[x] ==>
                old(self).visited@[x] || dyn_reaches(old(self).program, f, x as usize),
            old(self).visited@[f as int] ==> *final(self) == *old(self),
        decreases old(self).collect_measure(),
    {
        if self.visited[f] {
            return;
        }
        let ghost s0 = *self;
        self.visited.set(f, true);
        let ghost cs = cstack.push(f);
        let ghost p = self.program;
        proof {
            lemma_dyn_refl(p, f);
            crate::trace::lemma_count_seen_mono(s0.visited@, self.visited@);
            crate::trace::lemma_count_seen_bound(self.visited@);
            assert(collection_grows(&s0, self));
            assert forall|x: int| 0 <= x < self.n() && #[trigger] self.visited@[x] && !cs.contains(x as usize)
                implies self.fn_collected(x) by {
                assert(x != f as int) by {
                    assert(cs[cstack.len() as int] == f);
                }
                assert(!cstack.contains(x as usize)) by {
                    if cstack.contains(x as usize) {
                        let i = choose|i: int| 0 <= i < cstack.len() && cstack[i] == x as usize;
                        assert(cs[i] == x as usize);
                    }
                }
                assert(s0.fn_collected(x));
                Analyzer::lemma_blocks_grows(&s0, self, x, body_blocks(p, x).len() as int);
            }
            assert forall|q: (u64, usize)| #[trigger] self.collected_fn_impls@.contains(q) implies exists|x: int, b: int, j: int|
                0 <= x < self.n() && self.visited@[x] && 0 <= b < body_blocks(self.program, x).len()
                && 0 <= j < body_blocks(self.program, x)[b].coercions@.len()
                && #[trigger] body_blocks(self.program, x)[b].coercions@[j] == (Coercion::FnPointer { fn_ty: q.0, instance: q.1 }) by {
                let (x, b, j) = choose|x: int, b: int, j: int|
                    0 <= x < s0.n() && s0.visited@[x] && 0 <= b < body_blocks(s0.program, x).len()
                    && 0 <= j < body_blocks(s0.program, x)[b].coercions@.len()
                    && #[trigger] body_blocks(s0.program, x)[b].coercions@[j] == (Coercion::FnPointer { fn_ty: q.0, instance: q.1 });
                assert(self.visited@[x]);
            }
            assert forall|q: (u64, usize)| #[trigger] self.collected_trait_impls@.contains(q) implies exists|x: int, b: int, j: int|
                0 <= x < self.n() && self.visited@[x] && 0 <= b < body_blocks(self.program, x).len()
                && 0 <= j < body_blocks(self.program, x)[b].coercions@.len()
                && vtable_has(#[trigger] body_blocks(self.program, x)[b].coercions@[j], q) by {
                let (x, b, j) = choose|x: int, b: int, j: int|
                    0 <= x < s0.n() && s0.visited@[x] && 0 <= b < body_blocks(s0.program, x).len()
                    && 0 <= j < body_blocks(s0.program, x)[b].coercions@.len()
                    && vtable_has(#[trigger] body_blocks(s0.program, x)[b].coercions@[j], q);
                assert(self.visited@[x]);
            }
            assert(self.cinv(cs));
        }
        let ghost blocks = body_blocks(p, f as int);
        let nb = self.block_count(f);
        proof {
            assert(leak_program_ok(p));
        }
        for b in 0..nb
            invariant
                self.cinv(cs),
                cs == cstack.push(f),
                p == self.program,
                p == old(self).program,
                leak_program_ok(p),
                blocks == body_blocks(p, f as int),
                nb == blocks.len(),
                f < self.n(),
                collection_grows(old(self), self),
                self.visited@[f as int],
                forall|i: int| 0 <= i < cs.len() ==> #[trigger] cs[i] < self.n() && self.visited@[cs[i] as int],
                self.collect_measure() < old(self).collect_measure(),
                self.blocks_collected(f as int, b as int),
                self.fn_facts@ == old(self).fn_facts@,
                self.diagnostics@ == old(self).diagnostics@,
                self.stack@ == old(self).stack@,
                self.reached@ == old(self).reached@,
                self.recs_of@ == old(self).recs_of@,
                self.labels_of@ == old(self).labels_of@,
                self.order_of@ == old(self).order_of@,
                self.used_of@ == old(self).used_of@,
                self.finished@ == old(self).finished@,
                self.clock@ == old(self).clock@,
                forall|x: int| 0 <= x < self.n() && #[trigger] self.visited@[x] ==>
                    old(self).visited@[x] || dyn_reaches(p, f, x as usize),
        {
            proof {
                assert(block_ok(blocks[b as int], nb as int, self.n()));
            }
            let ghost blk = blocks[b as int];
            let nc = self.coercion_count(f, b);
            for j in 0..nc
                invariant
                    self.cinv(cs),
                    cs == cstack.push(f),
                    p == self.program,
                    p == old(self).program,
                    leak_program_ok(p),
                    blocks == body_blocks(p, f as int),
                    nb == blocks.len(),
                    b < nb,
                    blk == blocks[b as int],
                    nc == blk.coercions@.len(),
                    block_ok(blk, nb as int, self.n()),
                    f < self.n(),
                    collection_grows(old(self), self),
                    self.visited@[f as int],
                    forall|i: int| 0 <= i < cs.len() ==> #[trigger] cs[i] < self.n() && self.visited@[cs[i] as int],
                    self.collect_measure() < old(self).collect_measure(),
                    self.blocks_collected(f as int, b as int),
                    self.block_collected(blk, j as int),
                    self.fn_facts@ == old(self).fn_facts@,
                    self.diagnostics@ == old(self).diagnostics@,
                    self.stack@ == old(self).stack@,
                    self.reached@ == old(self).reached@,
                    self.recs_of@ == old(self).recs_of@,
                    self.labels_of@ == old(self).labels_of@,
                    self.order_of@ == old(self).order_of@,
                    self.used_of@ == old(self).used_of@,
                    self.finished@ == old(self).finished@,
                    self.clock@ == old(self).clock@,
                    forall|x: int| 0 <= x < self.n() && #[trigger] self.visited@[x] ==>
                        old(self).visited@[x] || dyn_reaches(p, f, x as usize),
            {
                proof {
                    assert(coercion_ok(blk.coercions@[j as int], self.n()));
                }
                match self.coercion_at(f, b, j) {
                    Ok((ty, inst)) => {
                        let ghost sa = *self;
                        insert_pair(&mut self.collected_fn_impls, (ty, inst));
                        proof {
                            assert(collection_grows(&sa, self));
                            assert(self.pairs_sound()) by {
                                assert forall|q: (u64, usize)| #[trigger] self.collected_fn_impls@.contains(q) implies exists|x: int, bb: int, jj: int|
                                    0 <= x < self.n() && self.visited@[x] && 0 <= bb < body_blocks(self.program, x).len()
                                    && 0 <= jj < body_blocks(self.program, x)[bb].coercions@.len()
                                    && #[trigger] body_blocks(self.program, x)[bb].coercions@[jj] == (Coercion::FnPointer { fn_ty: q.0, instance: q.1 }) by {
                                    if q == (ty, inst) {
                                        assert(body_blocks(self.program, f as int)[b as int].coercions@[j as int] == (Coercion::FnPointer { fn_ty: q.0, instance: q.1 }));
                                    } else {
                                        assert(sa.collected_fn_impls@.contains(q));
                                    }
                                }
                            }
                            Analyzer::lemma_cinv_grows(&sa, self, cs);
                            Analyzer::lemma_blocks_grows(&sa, self, f as int, b as int);
                            Analyzer::lemma_collected_grows(&sa, self, blk, j as int);
                            crate::trace::lemma_count_seen_bound(self.visited@);
                        }
                        let ghost sb = *self;
                        proof {
                            assert(sb.collected_fn_impls@.contains((ty, inst)));
                        }
                        self.collect_inner(inst, Ghost(cs));
                        proof {
                            assert(coerces_to(body_blocks(p, f as int)[b as int].coercions@[j as int], inst));
                            assert(dyn_edge(p, f as int, inst));
                            assert forall|x: int| 0 <= x < self.n() && #[trigger] self.visited@[x] implies
                                old(self).visited@[x] || dyn_reaches(p, f, x as usize) by {
                                if !sb.visited@[x] {
                                    lemma_dyn_prepend(p, f, inst, x as usize);
                                }
                            }
                            Analyzer::lemma_blocks_grows(&sb, self, f as int, b as int);
                            Analyzer::lemma_collected_grows(&sb, self, blk, j as int);
                            crate::trace::lemma_count_seen_mono(sb.visited@, self.visited@);
                            crate::trace::lemma_count_seen_bound(self.visited@);
                            assert(self.collected_fn_impls@.contains((ty, inst)));
                            assert(self.coercion_collected(blk.coercions@[j as int]));
                            assert(self.block_collected(blk, j + 1));
                            assert forall|i: int| 0 <= i < cs.len() implies #[trigger] cs[i] < self.n() && self.visited@[cs[i] as int] by {
                                assert(sb.visited@[cs[i] as int]);
                            }
                        }
                    },
                    Err(nm) => {
                        let ghost methods = blk.coercions@[j as int]->Vtable_methods@;
                        for i in 0..nm
                            invariant
                                self.cinv(cs),
                                cs == cstack.push(f),
                                p == self.program,
                                p == old(self).program,
                                leak_program_ok(p),
                                blocks == body_blocks(p, f as int),
                                nb == blocks.len(),
                                b < nb,
                                blk == blocks[b as int],
                                j < nc,
                                nc == blk.coercions@.len(),
                                blk.coercions@[j as int] is Vtable,
                                methods == blk.coercions@[j as int]->Vtable_methods@,
                                nm == methods.len(),
                                block_ok(blk, nb as int, self.n()),
                                forall|m: int| 0 <= m < methods.len() ==> #[trigger] methods[m].1 < self.n(),
                                f < self.n(),
                                collection_grows(old(self), self),
                                self.visited@[f as int],
                                forall|i: int| 0 <= i < cs.len() ==> #[trigger] cs[i] < self.n() && self.visited@[cs[i] as int],
                                self.collect_measure() < old(self).collect_measure(),
                                self.blocks_collected(f as int, b as int),
                                self.block_collected(blk, j as int),
                                self.methods_collected(methods, i as int),
                                self.fn_facts@ == old(self).fn_facts@,
                                self.diagnostics@ == old(self).diagnostics@,
                                self.stack@ == old(self).stack@,
                                self.reached@ == old(self).reached@,
                                self.recs_of@ == old(self).recs_of@,
                                self.labels_of@ == old(self).labels_of@,
                                self.order_of@ == old(self).order_of@,
                                self.used_of@ == old(self).used_of@,
                                self.finished@ == old(self).finished@,
                                self.clock@ == old(self).clock@,
                                forall|x: int| 0 <= x < self.n() && #[trigger] self.visited@[x] ==>
                                    old(self).visited@[x] || dyn_reaches(p, f, x as usize),
                        {
                            let (m, inst) = self.vtable_at(f, b, j, i);
                            let ghost sa = *self;
                            insert_pair(&mut self.collected_trait_impls, (m, inst));
                            proof {
                                assert(collection_grows(&sa, self));
                                assert(self.pairs_sound()) by {
                                    assert forall|q: (u64, usize)| #[trigger] self.collected_trait_impls@.contains(q) implies exists|x: int, bb: int, jj: int|
                                        0 <= x < self.n() && self.visited@[x] && 0 <= bb < body_blocks(self.program, x).len()
                                        && 0 <= jj < body_blocks(self.program, x)[bb].coercions@.len()
                                        && vtable_has(#[trigger] body_blocks(self.program, x)[bb].coercions@[jj], q) by {
                                        if q == (m, inst) {
                                            assert(methods[i as int] == q);
                                            assert(methods.contains(q));
                                            assert(vtable_has(body_blocks(self.program, f as int)[b as int].coercions@[j as int], q));
                                        } else {
                                            assert(sa.collected_trait_impls@.contains(q));
                                        }
                                    }
                                }
                                Analyzer::lemma_cinv_grows(&sa, self, cs);
                                Analyzer::lemma_blocks_grows(&sa, self, f as int, b as int);
                                Analyzer::lemma_collected_grows(&sa, self, blk, j as int);
                                Analyzer::lemma_methods_grows(&sa, self, methods, i as int);
                                crate::trace::lemma_count_seen_bound(self.visited@);
                            }
                            let ghost sb = *self;
                            proof {
                                assert(sb.collected_trait_impls@.contains((m, inst)));
                            }
                            self.collect_inner(inst, Ghost(cs));
                            proof {
                                assert(methods[i as int].1 == inst);
                                assert(coerces_to(body_blocks(p, f as int)[b as int].coercions@[j as int], inst));
                                assert(dyn_edge(p, f as int, inst));
                                assert forall|x: int| 0 <= x < self.n() && #[trigger] self.visited@[x] implies
                                    old(self).visited@[x] || dyn_reaches(p, f, x as usize) by {
                                    if !sb.visited@[x] {
                                        lemma_dyn_prepend(p, f, inst, x as usize);
                                    }
                                }
                                Analyzer::lemma_blocks_grows(&sb, self, f as int, b as int);
                                Analyzer::lemma_collected_grows(&sb, self, blk, j as int);
                                Analyzer::lemma_methods_grows(&sb, self, methods, i as int);
                                crate::trace::lemma_count_seen_mono(sb.visited@, self.visited@);
                                crate::trace::lemma_count_seen_bound(self.visited@);
                                assert(self.collected_trait_impls@.contains((m, inst)));
                                assert(self.visited@[inst as int]);
                                assert(methods[i as int] == (m, inst));
                                Analyzer::lemma_methods_extend(self, methods, i as int);
                                assert forall|k: int| 0 <= k < cs.len() implies #[trigger] cs[k] < self.n() && self.visited@[cs[k] as int] by {
                                    assert(sb.visited@[cs[k] as int]);
                                }
                            }
                        }
                        proof {
                            assert(self.coercion_collected(blk.coercions@[j as int]));
                            assert(self.block_collected(blk, j + 1));
                        }
                    },
                }
            }
            match self.callee_at(f, b) {
                Some(c) => {
                    let ghost sb = *self;
                    proof {
                        crate::trace::lemma_count_seen_bound(self.visited@);
                    }
                    self.collect_inner(c, Ghost(cs));
                    proof {
                        assert(calls(p, f as int, c));
                        assert(dyn_edge(p, f as int, c));
                        assert forall|x: int| 0 <= x < self.n() && #[trigger] self.visited@[x] implies
                            old(self).visited@[x] || dyn_reaches(p, f, x as usize) by {
                            if !sb.visited@[x] {
                                lemma_dyn_prepend(p, f, c, x as usize);
                            }
                        }
                        Analyzer::lemma_blocks_grows(&sb, self, f as int, b as int);
                        Analyzer::lemma_collected_grows(&sb, self, blk, nc as int);
                        crate::trace::lemma_count_seen_mono(sb.visited@, self.visited@);
                        crate::trace::lemma_count_seen_bound(self.visited@);
                        assert forall|k: int| 0 <= k < cs.len() implies #[trigger] cs[k] < self.n() && self.visited@[cs[k] as int] by {
                            assert(sb.visited@[cs[k] as int]);
                        }
                    }
                },
                None => {},
            }
            proof {
                assert(self.blocks_collected(f as int, b + 1));
            }
        }
        proof {
            assert(self.fn_collected(f as int));
            assert forall|x: int| 0 <= x < self.n() && #[trigger] self.visited@[x] && !cstack.contains(x as usize)
                implies self.fn_collected(x) by {
                if x != f as int {
                    assert(!cs.contains(x as usize)) by {
                        if cs.contains(x as usize) {
                            let i = choose|i: int| 0 <= i < cs.len() && cs[i] == x as usize;
                            if i < cstack.len() {
                                assert(cstack[i] == x as usize);
                            }
                        }
                    }
                }
            }
        }
    }
}


impl Analyzer {
    /// No analysis is under way.
    pub closed spec fn idle(&self) -> bool {
        self.inv() && self.stack@.len() == 0 && self.cinv(Seq::empty()) && self.djust()
    }

    /// The analyzed program.
    pub closed spec fn program_view(&self) -> LeakProgram {
        self.program
    }

    /// Everything reported so far, in order.
    pub closed spec fn diagnostics_view(&self) -> Seq<LeakDiagnostic> {
        self.diagnostics@
    }

    /// Whether the collection has visited function `x`.
    pub closed spec fn visited_fn(&self, x: int) -> bool {
        self.visited@[x]
    }

    /// The (function-pointer type, instance) pairs collected so far.
    pub closed spec fn fn_impls(&self) -> Set<(u64, usize)> {
        Set::new(|q: (u64, usize)| self.collected_fn_impls@.contains(q))
    }

    /// The (trait method, implementation) pairs collected so far.
    pub closed spec fn trait_impls(&self) -> Set<(u64, usize)> {
        Set::new(|q: (u64, usize)| self.collected_trait_impls@.contains(q))
    }

    /// An analyzer of `program` that has looked at nothing yet.
    pub fn new(program: LeakProgram) -> (r: Analyzer)
        requires
            leak_program_ok(program),
        ensures
            r.idle(),
            r.program_view() == program,
            r.diagnostics_view().len() == 0,
            forall|x: int| 0 <= x < program.fns@.len() ==> !r.is_done(x) && !r.visited_fn(x),
            r.fn_impls() == Set::<(u64, usize)>::empty(),
            r.trait_impls() == Set::<(u64, usize)>::empty(),
    {
        let n = program.fns.len();
        let mut fn_facts: Vec<Option<FnState>> = Vec::new();
        let mut visited: Vec<bool> = Vec::new();
        let mut i: usize = 0;
        while i < n
            invariant
                i <= n,
                fn_facts@.len() == i,
                visited@.len() == i,
                forall|x: int| 0 <= x < i ==> #[trigger] fn_facts@[x] is None,
                forall|x: int| 0 <= x < i ==> !#[trigger] visited@[x],
            decreases n - i,
        {
            fn_facts.push(None);
            visited.push(false);
            i = i + 1;
        }
        let r = Analyzer {
            program,
            fn_facts,
            diagnostics: Vec::new(),
            visited,
            collected_fn_impls: Vec::new(),
            collected_trait_impls: Vec::new(),
            stack: Ghost(Seq::empty()),
            reached: Ghost(Map::empty()),
            recs_of: Ghost(Map::empty()),
            labels_of: Ghost(Map::empty()),
            order_of: Ghost(Map::empty()),
            used_of: Ghost(Map::empty()),
            finished: Ghost(Map::empty()),
            clock: Ghost(0),
        };
        proof {
            assert(r.fn_impls() =~= Set::<(u64, usize)>::empty());
            assert(r.trait_impls() =~= Set::<(u64, usize)>::empty());
            crate::trace::lemma_count_seen_bound(seen_states(r.fn_facts@));
            assert forall|x: int| 0 <= x < r.n() implies #[trigger] r.done_ok(x) by {}
            assert(r.inv());
            reveal(Analyzer::djust);
            assert(r.djust());
        }
        r
    }

    /// Every function that a visited function calls, drops into or makes callable
    /// dynamically is visited too.
    pub open spec fn visits_closed(&self) -> bool {
        &&& forall|x: int, b: int, j: int|
            #![trigger self.visited_fn(x), body_blocks(self.program_view(), x)[b].coercions@[j]]
            0 <= x < self.program_view().fns@.len() && self.visited_fn(x)
            && 0 <= b < body_blocks(self.program_view(), x).len()
            && 0 <= j < body_blocks(self.program_view(), x)[b].coercions@.len() ==> {
                match body_blocks(self.program_view(), x)[b].coercions@[j] {
                    Coercion::FnPointer { instance, .. } => self.visited_fn(instance as int),
                    Coercion::Vtable { methods } => forall|m: int| 0 <= m < methods@.len() ==>
                        self.visited_fn(#[trigger] methods@[m].1 as int),
                }
            }
        &&& forall|x: int, b: int| 0 <= x < self.program_view().fns@.len() && #[trigger] self.visited_fn(x)
            && 0 <= b < body_blocks(self.program_view(), x).len() ==>
            (term_callee(#[trigger] body_blocks(self.program_view(), x)[b].terminator) matches Some(c)
                ==> self.visited_fn(c as int))
    }

    proof fn lemma_path_visited(&self, path: Seq<usize>)
        requires
            self.visits_closed(),
            leak_program_ok(self.program_view()),
            path.len() >= 1,
            path[0] < self.program_view().fns@.len(),
            self.visited_fn(path[0] as int),
            forall|i: int| 0 <= i < path.len() - 1 ==> #[trigger] dyn_edge(self.program_view(), path[i] as int, path[i + 1]),
        ensures
            path.last() < self.program_view().fns@.len(),
            self.visited_fn(path.last() as int),
        decreases path.len(),
    {
        if path.len() > 1 {
            let q = path.drop_last();
            assert forall|i: int| 0 <= i < q.len() - 1 implies #[trigger] dyn_edge(self.program_view(), q[i] as int, q[i + 1]) by {
                assert(dyn_edge(self.program_view(), path[i] as int, path[i + 1]));
            }
            self.lemma_path_visited(q);
            let p = self.program_view();
            let x = q.last();
            let g = path.last();
            assert(x == path[path.len() - 2]);
            assert(dyn_edge(p, path[path.len() - 2] as int, path[path.len() - 2 + 1]));
            assert(dyn_edge(p, x as int, g));
            let nf = p.fns@.len() as int;
            if calls(p, x as int, g) {
                let b = choose|b: int| 0 <= b < body_blocks(p, x as int).len()
                    && #[trigger] term_callee(body_blocks(p, x as int)[b].terminator) == Some(g);
                assert(block_ok(body_blocks(p, x as int)[b], body_blocks(p, x as int).len() as int, nf));
            } else {
                let (b, j) = choose|b: int, j: int| 0 <= b < body_blocks(p, x as int).len()
                    && 0 <= j < body_blocks(p, x as int)[b].coercions@.len()
                    && #[trigger] coerces_to(body_blocks(p, x as int)[b].coercions@[j], g);
                let blk = body_blocks(p, x as int)[b];
                assert(block_ok(blk, body_blocks(p, x as int).len() as int, nf));
                assert(coercion_ok(blk.coercions@[j], nf));
                assert(self.visited_fn(x as int));
                match blk.coercions@[j] {
                    Coercion::FnPointer { instance, .. } => {},
                    Coercion::Vtable { methods } => {
                        let m = choose|m: int| 0 <= m < methods@.len() && #[trigger] methods@[m].1 == g;
                        assert(self.visited_fn(methods@[m].1 as int));
                    },
                }
            }
        }
    }

    /// In an analyzer whose visits are closed, everything a visited function reaches
    /// is visited.
    pub proof fn lemma_reached_visited(&self, e: usize, x: usize)
        requires
            self.visits_closed(),
            leak_program_ok(self.program_view()),
            e < self.program_view().fns@.len(),
            self.visited_fn(e as int),
            dyn_reaches(self.program_view(), e, x),
        ensures
            x < self.program_view().fns@.len(),
            self.visited_fn(x as int),
    {
        let path = choose|path: Seq<usize>| path.len() >= 1 && path[0] == e && path.last() == x
            && forall|i: int| 0 <= i < path.len() - 1 ==> #[trigger] dyn_edge(self.program_view(), path[i] as int, path[i + 1]);
        self.lemma_path_visited(path);
    }

    /// Collects the dynamic dispatch targets reachable from `my_body_id`: every function a
    /// visited function coerces to a function pointer or into a vtable is recorded and
    /// visited, and so is every function it calls or drops; nothing else is visited.
    pub fn collect_dyn(&mut self, my_body_id: usize)
        requires
            old(self).idle(),
            my_body_id < old(self).program_view().fns@.len(),
        ensures
            final(self).idle(),
            final(self).program_view() == old(self).program_view(),
            final(self).diagnostics_view() == old(self).diagnostics_view(),
            forall|x: int| 0 <= x < old(self).program_view().fns@.len() ==>
                (final(self).is_done(x) == old(self).is_done(x) && final(self).facts(x) == old(self).facts(x)),
            final(self).visited_fn(my_body_id as int),
            old(self).visited_fn(my_body_id as int) ==> *final(self) == *old(self),
            forall|x: int| 0 <= x < old(self).program_view().fns@.len() && #[trigger] old(self).visited_fn(x) ==> final(self).visited_fn(x),
            forall|x: int| 0 <= x < old(self).program_view().fns@.len() && #[trigger] final(self).visited_fn(x) ==>
                old(self).visited_fn(x) || dyn_reaches(old(self).program_view(), my_body_id, x as usize),
            final(self).visits_closed(),
            old(self).fn_impls().subset_of(final(self).fn_impls()),
            old(self).trait_impls().subset_of(final(self).trait_impls()),
            forall|x: int, b: int, j: int|
                #![trigger final(self).visited_fn(x), body_blocks(final(self).program_view(), x)[b].coercions@[j]]
                0 <= x < final(self).program_view().fns@.len() && final(self).visited_fn(x)
                && 0 <= b < body_blocks(final(self).program_view(), x).len()
                && 0 <= j < body_blocks(final(self).program_view(), x)[b].coercions@.len() ==> {
                    match body_blocks(final(self).program_view(), x)[b].coercions@[j] {
                        Coercion::FnPointer { fn_ty, instance } => final(self).visited_fn(instance as int)
                            && final(self).fn_impls().contains((fn_ty, instance)),
                        Coercion::Vtable { methods } => forall|m: int| 0 <= m < methods@.len() ==>
                            final(self).visited_fn(#[trigger] methods@[m].1 as int)
                            && final(self).trait_impls().contains(methods@[m]),
                    }
                },
            forall|x: int, b: int| 0 <= x < final(self).program_view().fns@.len() && #[trigger] final(self).visited_fn(x)
                && 0 <= b < body_blocks(final(self).program_view(), x).len() ==>
                (term_callee(#[trigger] body_blocks(final(self).program_view(), x)[b].terminator) matches Some(c)
                    ==> final(self).visited_fn(c as int)),
            forall|q: (u64, usize)| #[trigger] final(self).fn_impls().contains(q) ==> exists|x: int, b: int, j: int|
                0 <= x < final(self).program_view().fns@.len() && final(self).visited_fn(x)
                && 0 <= b < body_blocks(final(self).program_view(), x).len()
                && 0 <= j < body_blocks(final(self).program_view(), x)[b].coercions@.len()
                && #[trigger] body_blocks(final(self).program_view(), x)[b].coercions@[j] == (Coercion::FnPointer { fn_ty: q.0, instance: q.1 }),
            forall|q: (u64, usize)| #[trigger] final(self).trait_impls().contains(q) ==> exists|x: int, b: int, j: int|
                0 <= x < final(self).program_view().fns@.len() && final(self).visited_fn(x)
                && 0 <= b < body_blocks(final(self).program_view(), x).len()
                && 0 <= j < body_blocks(final(self).program_view(), x)[b].coercions@.len()
                && vtable_has(#[trigger] body_blocks(final(self).program_view(), x)[b].coercions@[j], q),
    {
        let ghost s0 = *self;
        self.collect_inner(my_body_id, Ghost(Seq::empty()));
        proof {
            Analyzer::lemma_inv_frame(&s0, self);
            Analyzer::lemma_djust_frame(&s0, self);
            let n = self.n();
            assert forall|x: int, b: int, j: int|
                #![trigger self.visited_fn(x), body_blocks(self.program_view(), x)[b].coercions@[j]]
                0 <= x < n && self.visited_fn(x)
                && 0 <= b < body_blocks(self.program, x).len()
                && 0 <= j < body_blocks(self.program, x)[b].coercions@.len() implies {
                    match body_blocks(self.program, x)[b].coercions@[j] {
                        Coercion::FnPointer { fn_ty, instance } => self.visited_fn(instance as int)
                            && self.fn_impls().contains((fn_ty, instance)),
                        Coercion::Vtable { methods } => forall|m: int| 0 <= m < methods@.len() ==>
                            self.visited_fn(#[trigger] methods@[m].1 as int)
                            && self.trait_impls().contains(methods@[m]),
                    }
                } by {
                assert(!Seq::<usize>::empty().contains(x as usize));
                assert(self.fn_collected(x));
                let blk = body_blocks(self.program, x)[b];
                assert(self.block_collected(blk, blk.coercions@.len() as int));
                assert(self.coercion_collected(blk.coercions@[j]));
                match blk.coercions@[j] {
                    Coercion::FnPointer { fn_ty, instance } => {
                        assert(self.collected_fn_impls@.contains((fn_ty, instance)));
                        assert(self.fn_impls().contains((fn_ty, instance)));
                    },
                    Coercion::Vtable { methods } => {
                        assert(self.methods_collected(methods@, methods@.len() as int));
                        assert forall|m: int| 0 <= m < methods@.len() implies
                            self.visited_fn(#[trigger] methods@[m].1 as int)
                            && self.trait_impls().contains(methods@[m]) by {
                            assert(self.visited@[methods@[m].1 as int]);
                            assert(self.collected_trait_impls@.contains(methods@[m]));
                        }
                    },
                }
            }
            assert forall|x: int, b: int| 0 <= x < n && #[trigger] self.visited_fn(x)
                && 0 <= b < body_blocks(self.program, x).len() implies
                (term_callee(#[trigger] body_blocks(self.program, x)[b].terminator) matches Some(c)
                    ==> self.visited_fn(c as int)) by {
                assert(!Seq::<usize>::empty().contains(x as usize));
                assert(self.fn_collected(x));
                assert(self.blocks_collected(x, body_blocks(self.program, x).len() as int));
            }
            assert forall|q: (u64, usize)| #[trigger] s0.fn_impls().contains(q) implies self.fn_impls().contains(q) by {
                assert(s0.collected_fn_impls@.contains(q));
            }
            assert forall|q: (u64, usize)| #[trigger] s0.trait_impls().contains(q) implies self.trait_impls().contains(q) by {
                assert(s0.collected_trait_impls@.contains(q));
            }
        }
    }

    /// Analyzes every function reachable from `body_id`. Each function completed has
    /// the facts its analysis derives (`facts_follow`); in a program without call
    /// cycles each call site applies its callee's own facts. Every diagnostic is
    /// explained by the analysis of some body (`explains_at`), and every violated
    /// limit and every disagreement between paths is reported (`body_run`).
    pub fn analyze(&mut self, body_id: usize)
        requires
            old(self).idle(),
            body_id < old(self).program_view().fns@.len(),
        ensures
            final(self).idle(),
            final(self).program_view() == old(self).program_view(),
            old(self).diagnostics_view().is_prefix_of(final(self).diagnostics_view()),
            final(self).is_done(body_id as int),
            forall|x: int| 0 <= x < old(self).program_view().fns@.len() && #[trigger] old(self).is_done(x) ==>
                final(self).is_done(x) && final(self).facts(x) == old(self).facts(x),
            forall|x: int| 0 <= x < old(self).program_view().fns@.len() ==> #[trigger] final(self).visited_fn(x) == old(self).visited_fn(x),
            final(self).fn_impls() == old(self).fn_impls(),
            final(self).trait_impls() == old(self).trait_impls(),
            forall|x: int| 0 <= x < final(self).program_view().fns@.len() && #[trigger] final(self).is_done(x) ==>
                final(self).facts_follow(x) && final(self).callees_done(x)
                && (call_acyclic(final(self).program_view()) ==> final(self).applies_callee_facts(x)),
            final(self).diags_explained(),
            forall|x: int| 0 <= x < final(self).program_view().fns@.len() && #[trigger] final(self).started(x) ==> final(self).is_done(x),
    {
        let ghost s0 = *self;
        proof {
            assert(self.fn_facts@[body_id as int] is Some ==> self.is_done(body_id as int)) by {
                if self.fn_facts@[body_id as int] matches Some(FnState::Pending { my_depth }) {
                    assert(self.stack@.len() > 0);
                }
            }
        }
        let _ = self.analyze_inner(0, body_id);
        proof {
            let n = self.n();
            assert(collection_grows(&s0, self));
            assert(self.pairs_sound()) by {
                assert(s0.pairs_sound());
                assert(self.collected_fn_impls@ == s0.collected_fn_impls@);
                assert(self.collected_trait_impls@ == s0.collected_trait_impls@);
            }
            Analyzer::lemma_cinv_grows(&s0, self, Seq::empty());
            assert forall|x: int| 0 <= x < n && #[trigger] s0.is_done(x) implies
                self.is_done(x) && self.facts(x) == s0.facts(x) by {
                assert(s0.fn_facts@[x] is Some);
                assert(state_view(self.fn_facts@[x]) == state_view(s0.fn_facts@[x]));
            }
            assert(self.fn_impls() =~= s0.fn_impls());
            assert(self.trait_impls() =~= s0.trait_impls());
            assert forall|x: int| 0 <= x < n && #[trigger] self.is_done(x) implies
                self.facts_follow(x) && self.callees_done(x)
                && (call_acyclic(self.program_view()) ==> self.applies_callee_facts(x)) by {
                self.lemma_idle_follows(x);
                if call_acyclic(self.program_view()) {
                    self.lemma_acyclic_callee_facts(x);
                }
            }
            self.lemma_idle_explained();
        }
    }

    /// The facts of function `f`, once it is done.
    pub fn facts_of(&self, f: usize) -> (r: Option<&FactsMap>)
        requires
            self.idle(),
        ensures
            match r {
                Some(m) => f < self.program_view().fns@.len() && self.is_done(f as int)
                    && m@ == self.facts(f as int) && m.wf(),
                None => !(f < self.program_view().fns@.len() && self.is_done(f as int)),
            },
    {
        proof {
            if f < self.n() {
                assert(self.done_ok(f as int));
            }
        }
        if f < self.fn_facts.len() {
            match &self.fn_facts[f] {
                Some(FnState::Done(m)) => Some(m),
                _ => None,
            }
        } else {
            None
        }
    }
}


impl Analyzer {
    /// Which blocks of function `x` its analysis reached.
    pub closed spec fn reached_of(&self, x: int) -> Seq<bool> {
        self.reached@[x as usize]
    }

    /// What an idle analyzer knows of a function it has analyzed: a primitive has its
    /// hardcoded facts; for a function with a body, the entry block was reached, every
    /// block that a reached block continues at was reached, and every function that a
    /// reached block calls or drops has been analyzed too.
    pub proof fn lemma_done_closed(&self, x: int)
        requires
            self.idle(),
            0 <= x < self.program_view().fns@.len(),
            self.is_done(x),
        ensures
            self.program_view().fns@[x] matches LeakFn::Primitive { kind, component }
                ==> self.facts(x) == primitive_map(kind, component),
            self.program_view().fns@[x] is Body ==> {
                let blocks = body_blocks(self.program_view(), x);
                let r = self.reached_of(x);
                &&& r.len() == blocks.len()
                &&& r[0]
                &&& forall|b: int| 0 <= b < r.len() && #[trigger] r[b] ==> {
                    &&& (term_callee(blocks[b].terminator) matches Some(c) ==> self.is_done(c as int))
                    &&& forall|i: int| 0 <= i < term_targets(blocks[b].terminator, r.len() as usize).len()
                        && #[trigger] term_targets(blocks[b].terminator, r.len() as usize)[i] < r.len()
                        ==> r[term_targets(blocks[b].terminator, r.len() as usize)[i] as int]
                }
            },
    {
        assert(self.done_ok(x));
        if self.program.fns@[x] is Body {
            let blocks = body_blocks(self.program, x);
            let r = self.reached_of(x);
            assert forall|b: int| 0 <= b < r.len() && #[trigger] r[b] implies
                (term_callee(blocks[b].terminator) matches Some(c) ==> self.is_done(c as int)) by {
                match term_callee(blocks[b].terminator) {
                    Some(c) => {
                        assert(self.fn_facts@[c as int] is Some);
                        if self.fn_facts@[c as int] matches Some(FnState::Pending { my_depth }) {
                            assert(self.stack@.len() > 0);
                        }
                    },
                    None => {},
                }
            }
        }
    }
}

/// `""` for one, `"s"` for any other count.
pub fn s_pluralize(v: i32) -> (r: &'static str)
    ensures
        v == 1 ==> r@ == ""@,
        v != 1 ==> r@ == "s"@,
{
    if v == 1 {
        ""
    } else {
        "s"
    }
}

/// Runs the leak analysis on a program.
pub struct AnalyzerConfig {}

impl AnalyzerConfig {
    /// Analyzes the program from its entry point, if it has one: the dynamic dispatch
    /// targets are collected first, then the facts of everything reachable are
    /// computed. Without an entry point nothing is analyzed.
    pub fn analyze(&mut self, program: LeakProgram, entry: Option<usize>) -> (r: Option<Analyzer>)
        requires
            leak_program_ok(program),
            entry matches Some(e) ==> e < program.fns@.len(),
        ensures
            r is Some <==> entry is Some,
            r matches Some(a) ==> {
                &&& a.idle()
                &&& a.program_view() == program
                &&& a.visited_fn(entry->Some_0 as int)
                &&& forall|x: int| 0 <= x < program.fns@.len() ==>
                    (#[trigger] a.visited_fn(x) <==> dyn_reaches(program, entry->Some_0, x as usize))
                &&& a.is_done(entry->Some_0 as int)
                &&& forall|x: int| 0 <= x < program.fns@.len() && #[trigger] a.is_done(x) ==>
                    a.facts_follow(x) && a.callees_done(x)
                    && (call_acyclic(program) ==> a.applies_callee_facts(x))
                &&& a.diags_explained()
                &&& forall|x: int| 0 <= x < program.fns@.len() && #[trigger] a.started(x) ==> a.is_done(x)
            },
    {
        let main_fn = match entry {
            Some(e) => e,
            None => {
                return None;
            },
        };
        let mut analyzer = Analyzer::new(program);
        analyzer.collect_dyn(main_fn);
        let ghost collected = analyzer;
        analyzer.analyze(main_fn);
        proof {
            assert forall|x: int| 0 <= x < program.fns@.len() implies
                (#[trigger] analyzer.visited_fn(x) <==> dyn_reaches(program, main_fn, x as usize)) by {
                assert(analyzer.visited_fn(x) == collected.visited_fn(x));
                if dyn_reaches(program, main_fn, x as usize) {
                    assert(collected.inv());
                    collected.lemma_reached_visited(main_fn, x as usize);
                }
            }
        }
        Some(analyzer)
    }
}

} // verus!
