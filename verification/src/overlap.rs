use vstd::prelude::*;
use crate::mutability::{Mutability, spec_compatible};
use crate::pair::{Pair, pair_nat, pair_rev};
use crate::regions::{
    LocalDecl, leaked_locals_of, leaked_view, leaked_entries, leaked_upto, leaks_somewhere, hits, in_constraints, graph_fits,
};
use crate::template::{
    BorrowingLocals, LocalView, Reason, conflict_between, conflict_spec, bl_add, add_local_borrow,
};
use crate::vec_map::VecMap;
use crate::tokens::{BorrowMap, BorrowValue, TokenSet, token_set_view, instantiate_set};
use crate::trace::TraceFacts;

verus! {

/// A borrow-checking error found in a body.
#[derive(Debug, Clone, Copy, PartialEq, Eq, Structural)]
pub enum BorrowDiagnostic {
    /// A borrow of `token` made at `new_span` while one made at `old_span` is alive.
    ConflictingBorrows {
        token: u64,
        old_span: u64,
        new_span: u64,
        old_mut: Mutability,
        old_reason: Reason,
        new_mut: Mutability,
        new_reason: Reason,
    },
    /// A local declared at `span` can be leaked through `region` although `token`,
    /// which it borrows, is not tied to that region.
    CannotLeak { span: u64, token: u64, region: u64 },
    /// A callee ties `token` to the lifetime `lifetime`, which its return type lacks.
    MissingTiedLifetime { span: u64, lifetime: u64, token: u64 },
}

/// What borrow checking a body found: each borrow's local and span, the borrows
/// alive where each borrow starts, and the locals that can be leaked through each
/// universal region, with where they are declared.
pub struct BodyOverlapFacts {
    pub borrows: Vec<(usize, u64)>,
    pub overlaps: Vec<(usize, Vec<usize>)>,
    pub leaked_locals: Vec<(u64, Vec<usize>)>,
    pub leaked_local_def_spans: VecMap<u64>,
}

pub open spec fn overlaps_ok(borrows: Seq<(usize, u64)>, overlaps: Seq<(usize, Vec<usize>)>) -> bool {
    forall|i: int| 0 <= i < overlaps.len() ==> {
        &&& (#[trigger] overlaps[i]).0 < borrows.len()
        &&& forall|j: int| 0 <= j < overlaps[i].1@.len() ==> #[trigger] overlaps[i].1@[j] < borrows.len()
    }
}

impl BodyOverlapFacts {
    /// Every borrow index names a borrow and every leaked local has a declaration span.
    pub open spec fn wf(&self) -> bool {
        &&& overlaps_ok(self.borrows@, self.overlaps@)
        &&& self.leaked_local_def_spans.wf()
        &&& forall|i: int, j: int| 0 <= i < self.leaked_locals@.len() && 0 <= j < self.leaked_locals@[i].1@.len()
            ==> self.leaked_local_def_spans@.contains_key(#[trigger] self.leaked_locals@[i].1@[j] as u64)
    }

    /// The overlap facts of a body from its borrows, the borrows alive where each starts,
    /// its outlives constraints, its universal regions `(region, inference variable)`
    /// and its locals.
    pub fn new(
        borrows: Vec<(usize, u64)>,
        overlaps: Vec<(usize, Vec<usize>)>,
        constraints: &Vec<(u64, u64)>,
        universals: &Vec<(u64, u64)>,
        locals: &Vec<LocalDecl>,
    ) -> (r: BodyOverlapFacts)
        requires
            graph_fits(constraints@),
            overlaps_ok(borrows@, overlaps@),
        ensures
            r.wf(),
            r.borrows@ == borrows@,
            r.overlaps@ == overlaps@,
            leaked_view(r.leaked_locals@) == leaked_entries(constraints@, universals@, locals@),
            forall|k: u64| #[trigger] r.leaked_local_def_spans@.contains_key(k) <==> k < locals@.len()
                && leaks_somewhere(constraints@, universals@, locals@[k as int].regions@, universals@.len() as int),
            forall|k: u64| #[trigger] r.leaked_local_def_spans@.contains_key(k)
                ==> r.leaked_local_def_spans@[k] == locals@[k as int].span,
    {
        let leaked = leaked_locals_of(constraints, universals, locals);
        let nl = locals.len();
        proof {
            assert(locals@.len() == nl);
            let entries = leaked_entries(constraints@, universals@, locals@);
            lemma_leaked_entries_members(constraints@, universals@, locals@);
            assert forall|i: int, j: int| 0 <= i < leaked.leaked@.len() && 0 <= j < leaked.leaked@[i].1@.len()
                implies leaked.def_spans@.contains_key(#[trigger] leaked.leaked@[i].1@[j] as u64) by {
                assert(leaked_view(leaked.leaked@)[i] == (leaked.leaked@[i].0, leaked.leaked@[i].1@));
                assert(from_universal(constraints@, universals@, locals@, entries[i]));
                let u = choose|u: int| 0 <= u < universals@.len() && in_constraints(constraints@, #[trigger] universals@[u].1)
                    && entries[i].1 == leaked_upto(constraints@, universals@[u].1, locals@, locals@.len() as int);
                lemma_leaked_upto_members(constraints@, universals@[u].1, locals@, locals@.len() as int);
                let x = leaked.leaked@[i].1@[j];
                assert(entries[i].1[j] == x);
                assert(x < locals@.len() && hits(constraints@, universals@[u].1, locals@[x as int].regions@) > 0);
                assert(leaks_somewhere(constraints@, universals@, locals@[x as int].regions@, universals@.len() as int));
            }
        }
        BodyOverlapFacts {
            borrows,
            overlaps,
            leaked_locals: leaked.leaked,
            leaked_local_def_spans: leaked.def_spans,
        }
    }
}

/// Every local listed in `leaked_upto(.., n)` is one of the first `n` and holds a
/// region reached from `origin`.
pub proof fn lemma_leaked_upto_members(csts: Seq<(u64, u64)>, origin: u64, locals: Seq<LocalDecl>, n: int)
    requires
        0 <= n <= locals.len(),
        locals.len() <= usize::MAX,
    ensures
        forall|j: int| 0 <= j < leaked_upto(csts, origin, locals, n).len() ==> {
            let x = #[trigger] leaked_upto(csts, origin, locals, n)[j];
            &&& x < n
            &&& hits(csts, origin, locals[x as int].regions@) > 0
        },
    decreases n,
{
    if n > 0 {
        lemma_leaked_upto_members(csts, origin, locals, n - 1);
        let prev = leaked_upto(csts, origin, locals, n - 1);
        let cur = leaked_upto(csts, origin, locals, n);
        assert forall|j: int| 0 <= j < cur.len() implies {
            let x = #[trigger] cur[j];
            &&& x < n
            &&& hits(csts, origin, locals[x as int].regions@) > 0
        } by {
            if j < prev.len() {
                assert(cur[j] == prev[j]);
            } else {
                let h = hits(csts, origin, locals[n - 1].regions@);
                assert(cur == prev + Seq::new(h, |k: int| (n - 1) as usize));
                assert(cur[j] == (n - 1) as usize);
                assert(j - prev.len() < h);
            }
        }
    }
}

/// `e` lists the locals leaked through a universal region that occurs in the constraints.
pub open spec fn from_universal(csts: Seq<(u64, u64)>, universals: Seq<(u64, u64)>, locals: Seq<LocalDecl>, e: (u64, Seq<usize>)) -> bool {
    exists|u: int| 0 <= u < universals.len() && in_constraints(csts, #[trigger] universals[u].1)
        && e.1 == leaked_upto(csts, universals[u].1, locals, locals.len() as int)
}

/// Every entry of `leaked_entries` is the leaked list of a universal region that occurs
/// in the constraints.
pub proof fn lemma_leaked_entries_members(csts: Seq<(u64, u64)>, universals: Seq<(u64, u64)>, locals: Seq<LocalDecl>)
    ensures
        forall|i: int| 0 <= i < leaked_entries(csts, universals, locals).len()
            ==> from_universal(csts, universals, locals, #[trigger] leaked_entries(csts, universals, locals)[i]),
    decreases universals.len(),
{
    if universals.len() > 0 {
        let init = universals.drop_last();
        lemma_leaked_entries_members(csts, init, locals);
        let prev = leaked_entries(csts, init, locals);
        let cur = leaked_entries(csts, universals, locals);
        let (region, vid) = universals.last();
        let last_u = universals.len() - 1;
        assert(universals[last_u] == (region, vid));
        assert forall|i: int| 0 <= i < cur.len() implies from_universal(csts, universals, locals, #[trigger] cur[i]) by {
            if i < prev.len() {
                assert(cur[i] == prev[i]);
                assert(from_universal(csts, init, locals, prev[i]));
                let u = choose|u: int| 0 <= u < init.len() && in_constraints(csts, #[trigger] init[u].1)
                    && prev[i].1 == leaked_upto(csts, init[u].1, locals, locals.len() as int);
                assert(universals[u] == init[u]);
            } else {
                assert(in_constraints(csts, vid));
                assert(cur[i].1 == leaked_upto(csts, vid, locals, locals.len() as int));
                assert(in_constraints(csts, universals[last_u].1));
            }
        }
    }
}

/// The diagnostic for borrow `old_bw` being alive where borrow `new_bw` starts, if their
/// locals' borrows conflict.
pub open spec fn overlap_diag(
    borrows: Seq<(usize, u64)>,
    bl: Map<usize, LocalView>,
    yields: Seq<usize>,
    new_bw: usize,
    old_bw: usize,
) -> Seq<BorrowDiagnostic> {
    if old_bw == new_bw {
        Seq::empty()
    } else {
        let (old_local, old_span) = borrows[old_bw as int];
        let (new_local, new_span) = borrows[new_bw as int];
        match conflict_spec(bl, yields, Pair { reversed: false, left: old_local, right: new_local }) {
            Some((token, ps)) => {
                let n = pair_nat(ps);
                seq![BorrowDiagnostic::ConflictingBorrows {
                    token,
                    old_span,
                    new_span,
                    old_mut: n.left.0,
                    old_reason: n.left.1,
                    new_mut: n.right.0,
                    new_reason: n.right.1,
                }]
            },
            None => Seq::empty(),
        }
    }
}

pub open spec fn overlap_diags_at(
    borrows: Seq<(usize, u64)>,
    bl: Map<usize, LocalView>,
    yields: Seq<usize>,
    new_bw: usize,
    live: Seq<usize>,
) -> Seq<BorrowDiagnostic>
    decreases live.len(),
{
    if live.len() == 0 {
        Seq::empty()
    } else {
        overlap_diags_at(borrows, bl, yields, new_bw, live.drop_last()) + overlap_diag(borrows, bl, yields, new_bw, live.last())
    }
}

/// The conflicts between each borrow and every other borrow alive where it starts.
pub open spec fn overlap_diags(
    borrows: Seq<(usize, u64)>,
    overlaps: Seq<(usize, Vec<usize>)>,
    bl: Map<usize, LocalView>,
    yields: Seq<usize>,
) -> Seq<BorrowDiagnostic>
    decreases overlaps.len(),
{
    if overlaps.len() == 0 {
        Seq::empty()
    } else {
        overlap_diags(borrows, overlaps.drop_last(), bl, yields)
            + overlap_diags_at(borrows, bl, yields, overlaps.last().0, overlaps.last().1@)
    }
}

/// `d` reports conflicting borrows of `token` at the spans `old_span` and `new_span`.
pub open spec fn reports_conflict(d: BorrowDiagnostic, token: u64, old_span: u64, new_span: u64) -> bool {
    match d {
        BorrowDiagnostic::ConflictingBorrows { token: t, old_span: o, new_span: n, .. } =>
            t == token && o == old_span && n == new_span,
        _ => false,
    }
}

/// The report of borrow `old_bw` alive where `new_bw` starts is among those of every
/// later point of the same start.
proof fn lemma_overlap_at_has(
    borrows: Seq<(usize, u64)>,
    bl: Map<usize, LocalView>,
    yields: Seq<usize>,
    new_bw: usize,
    live: Seq<usize>,
    j: int,
    d: BorrowDiagnostic,
)
    requires
        0 <= j < live.len(),
        overlap_diag(borrows, bl, yields, new_bw, live[j]).contains(d),
    ensures
        overlap_diags_at(borrows, bl, yields, new_bw, live).contains(d),
    decreases live.len(),
{
    let all = overlap_diags_at(borrows, bl, yields, new_bw, live);
    let pre = overlap_diags_at(borrows, bl, yields, new_bw, live.drop_last());
    let last = overlap_diag(borrows, bl, yields, new_bw, live.last());
    assert(all == pre + last);
    if j == live.len() - 1 {
        let w = choose|w: int| 0 <= w < last.len() && last[w] == d;
        assert(all[pre.len() + w] == d);
    } else {
        assert(live.drop_last()[j] == live[j]);
        lemma_overlap_at_has(borrows, bl, yields, new_bw, live.drop_last(), j, d);
        let w = choose|w: int| 0 <= w < pre.len() && pre[w] == d;
        assert(all[w] == d);
    }
}

/// Every borrow alive where another starts, whose local's borrows conflict with the new
/// one's, is reported as conflicting on the token of that conflict, at the two borrows'
/// spans.
pub proof fn lemma_overlap_reported(
    borrows: Seq<(usize, u64)>,
    overlaps: Seq<(usize, Vec<usize>)>,
    bl: Map<usize, LocalView>,
    yields: Seq<usize>,
    i: int,
    j: int,
)
    requires
        0 <= i < overlaps.len(),
        0 <= j < overlaps[i].1@.len(),
        overlaps[i].1@[j] != overlaps[i].0,
        conflict_spec(bl, yields, Pair {
            reversed: false,
            left: borrows[overlaps[i].1@[j] as int].0,
            right: borrows[overlaps[i].0 as int].0,
        }) is Some,
    ensures
        exists|d: BorrowDiagnostic| #[trigger] overlap_diags(borrows, overlaps, bl, yields).contains(d)
            && reports_conflict(d, conflict_spec(bl, yields, Pair {
                reversed: false,
                left: borrows[overlaps[i].1@[j] as int].0,
                right: borrows[overlaps[i].0 as int].0,
            })->Some_0.0, borrows[overlaps[i].1@[j] as int].1, borrows[overlaps[i].0 as int].1),
    decreases overlaps.len(),
{
    let new_bw = overlaps[i].0;
    let live = overlaps[i].1@;
    let one = overlap_diag(borrows, bl, yields, new_bw, live[j]);
    let d = one[0];
    assert(one.contains(d));
    let all = overlap_diags(borrows, overlaps, bl, yields);
    let pre = overlap_diags(borrows, overlaps.drop_last(), bl, yields);
    let at = overlap_diags_at(borrows, bl, yields, overlaps.last().0, overlaps.last().1@);
    assert(all == pre + at);
    if i == overlaps.len() - 1 {
        lemma_overlap_at_has(borrows, bl, yields, new_bw, live, j, d);
        let w = choose|w: int| 0 <= w < at.len() && at[w] == d;
        assert(all[pre.len() + w] == d);
        assert(all.contains(d));
    } else {
        assert(overlaps.drop_last()[i] == overlaps[i]);
        lemma_overlap_reported(borrows, overlaps.drop_last(), bl, yields, i, j);
        let e = choose|e: BorrowDiagnostic| #[trigger] pre.contains(e)
            && reports_conflict(e, conflict_spec(bl, yields, Pair {
                reversed: false,
                left: borrows[overlaps[i].1@[j] as int].0,
                right: borrows[overlaps[i].0 as int].0,
            })->Some_0.0, borrows[overlaps[i].1@[j] as int].1, borrows[overlaps[i].0 as int].1);
        let w = choose|w: int| 0 <= w < pre.len() && pre[w] == e;
        assert(all[w] == e);
        assert(all.contains(e));
    }
}

/// The first token of `toks` that is not permitted to leak through `region`.
pub open spec fn first_unpermitted(toks: Seq<(u64, Mutability)>, region: u64, permitted: Set<(u64, u64)>) -> Option<u64>
    decreases toks.len(),
{
    if toks.len() == 0 {
        None
    } else if !permitted.contains((region, toks[0].0)) {
        Some(toks[0].0)
    } else {
        first_unpermitted(toks.drop_first(), region, permitted)
    }
}

pub open spec fn leak_diag(
    bl: Map<usize, LocalView>,
    permitted: Set<(u64, u64)>,
    spans: Map<u64, u64>,
    region: u64,
    local: usize,
) -> Seq<BorrowDiagnostic> {
    if bl.contains_key(local) {
        match first_unpermitted(bl[local].1, region, permitted) {
            Some(token) => seq![BorrowDiagnostic::CannotLeak { span: spans[local as u64], token, region }],
            None => Seq::empty(),
        }
    } else {
        Seq::empty()
    }
}

pub open spec fn leak_diags_at(
    bl: Map<usize, LocalView>,
    permitted: Set<(u64, u64)>,
    spans: Map<u64, u64>,
    region: u64,
    locals: Seq<usize>,
) -> Seq<BorrowDiagnostic>
    decreases locals.len(),
{
    if locals.len() == 0 {
        Seq::empty()
    } else {
        leak_diags_at(bl, permitted, spans, region, locals.drop_last()) + leak_diag(bl, permitted, spans, region, locals.last())
    }
}

/// For every local that can be leaked through a region, the first token it borrows
/// that may not leak through that region.
pub open spec fn leak_diags(
    bl: Map<usize, LocalView>,
    permitted: Set<(u64, u64)>,
    spans: Map<u64, u64>,
    leaked: Seq<(u64, Vec<usize>)>,
) -> Seq<BorrowDiagnostic>
    decreases leaked.len(),
{
    if leaked.len() == 0 {
        Seq::empty()
    } else {
        leak_diags(bl, permitted, spans, leaked.drop_last())
            + leak_diags_at(bl, permitted, spans, leaked.last().0, leaked.last().1@)
    }
}

/// Some token of `toks` may not leak through `region` exactly when `first_unpermitted`
/// finds one, and what it finds is such a token of `toks`.
proof fn lemma_first_unpermitted(toks: Seq<(u64, Mutability)>, region: u64, permitted: Set<(u64, u64)>, j: int)
    requires
        0 <= j < toks.len(),
        !permitted.contains((region, toks[j].0)),
    ensures
        first_unpermitted(toks, region, permitted) is Some,
        !permitted.contains((region, first_unpermitted(toks, region, permitted)->Some_0)),
        exists|q: int| 0 <= q < toks.len() && toks[q].0 == first_unpermitted(toks, region, permitted)->Some_0,
    decreases toks.len(),
{
    if permitted.contains((region, toks[0].0)) {
        assert(j > 0);
        assert(toks.drop_first()[j - 1] == toks[j]);
        lemma_first_unpermitted(toks.drop_first(), region, permitted, j - 1);
        let q = choose|q: int| 0 <= q < toks.drop_first().len()
            && toks.drop_first()[q].0 == first_unpermitted(toks.drop_first(), region, permitted)->Some_0;
        assert(toks[q + 1] == toks.drop_first()[q]);
    } else {
        assert(toks[0].0 == first_unpermitted(toks, region, permitted)->Some_0);
    }
}

/// The reports for one region are among those for every later point of its list.
proof fn lemma_leak_at_has(bl: Map<usize, LocalView>, permitted: Set<(u64, u64)>, spans: Map<u64, u64>, region: u64,
    locals: Seq<usize>, j: int, d: BorrowDiagnostic)
    requires
        0 <= j < locals.len(),
        leak_diag(bl, permitted, spans, region, locals[j]).contains(d),
    ensures
        leak_diags_at(bl, permitted, spans, region, locals).contains(d),
    decreases locals.len(),
{
    let all = leak_diags_at(bl, permitted, spans, region, locals);
    let pre = leak_diags_at(bl, permitted, spans, region, locals.drop_last());
    let last = leak_diag(bl, permitted, spans, region, locals.last());
    assert(all == pre + last);
    if j == locals.len() - 1 {
        let w = choose|w: int| 0 <= w < last.len() && last[w] == d;
        assert(all[pre.len() + w] == d);
    } else {
        assert(locals.drop_last()[j] == locals[j]);
        lemma_leak_at_has(bl, permitted, spans, region, locals.drop_last(), j, d);
        let w = choose|w: int| 0 <= w < pre.len() && pre[w] == d;
        assert(all[w] == d);
    }
}

/// Every local that can be leaked through a region and borrows a token that may not
/// leak through it is reported at its definition, with that region and a token it
/// borrows that may not leak there.
pub proof fn lemma_leak_reported(bl: Map<usize, LocalView>, permitted: Set<(u64, u64)>, spans: Map<u64, u64>,
    leaked: Seq<(u64, Vec<usize>)>, i: int, j: int, q: int)
    requires
        0 <= i < leaked.len(),
        0 <= j < leaked[i].1@.len(),
        bl.contains_key(leaked[i].1@[j]),
        0 <= q < bl[leaked[i].1@[j]].1.len(),
        !permitted.contains((leaked[i].0, bl[leaked[i].1@[j]].1[q].0)),
    ensures
        exists|token: u64| #[trigger] leak_diags(bl, permitted, spans, leaked).contains(BorrowDiagnostic::CannotLeak {
                span: spans[leaked[i].1@[j] as u64],
                token,
                region: leaked[i].0,
            })
            && !permitted.contains((leaked[i].0, token))
            && exists|q2: int| 0 <= q2 < bl[leaked[i].1@[j]].1.len() && bl[leaked[i].1@[j]].1[q2].0 == token,
    decreases leaked.len(),
{
    let region = leaked[i].0;
    let local = leaked[i].1@[j];
    let toks = bl[local].1;
    lemma_first_unpermitted(toks, region, permitted, q);
    let token = first_unpermitted(toks, region, permitted)->Some_0;
    let d = BorrowDiagnostic::CannotLeak { span: spans[local as u64], token, region };
    assert(leak_diag(bl, permitted, spans, region, local)[0] == d);
    let all = leak_diags(bl, permitted, spans, leaked);
    let pre = leak_diags(bl, permitted, spans, leaked.drop_last());
    let at = leak_diags_at(bl, permitted, spans, leaked.last().0, leaked.last().1@);
    assert(all == pre + at);
    if i == leaked.len() - 1 {
        lemma_leak_at_has(bl, permitted, spans, region, leaked[i].1@, j, d);
        let w = choose|w: int| 0 <= w < at.len() && at[w] == d;
        assert(all[pre.len() + w] == d);
        assert(all.contains(d));
    } else {
        assert(leaked.drop_last()[i] == leaked[i]);
        lemma_leak_reported(bl, permitted, spans, leaked.drop_last(), i, j, q);
        let tk = choose|token: u64| #[trigger] pre.contains(BorrowDiagnostic::CannotLeak {
                span: spans[local as u64],
                token,
                region,
            })
            && !permitted.contains((region, token))
            && exists|q2: int| 0 <= q2 < toks.len() && toks[q2].0 == token;
        let e = BorrowDiagnostic::CannotLeak { span: spans[local as u64], token: tk, region };
        let w = choose|w: int| 0 <= w < pre.len() && pre[w] == e;
        assert(all[w] == e);
        assert(all.contains(e));
    }
}

/// What `first_unpermitted` finds is a token of `toks` that may not leak through `region`.
proof fn lemma_first_unpermitted_found(toks: Seq<(u64, Mutability)>, region: u64, permitted: Set<(u64, u64)>)
    requires
        first_unpermitted(toks, region, permitted) is Some,
    ensures
        !permitted.contains((region, first_unpermitted(toks, region, permitted)->Some_0)),
        exists|q: int| 0 <= q < toks.len() && toks[q].0 == first_unpermitted(toks, region, permitted)->Some_0,
    decreases toks.len(),
{
    if permitted.contains((region, toks[0].0)) {
        lemma_first_unpermitted_found(toks.drop_first(), region, permitted);
        let q = choose|q: int| 0 <= q < toks.drop_first().len()
            && toks.drop_first()[q].0 == first_unpermitted(toks.drop_first(), region, permitted)->Some_0;
        assert(toks[q + 1] == toks.drop_first()[q]);
    } else {
        assert(toks[0].0 == first_unpermitted(toks, region, permitted)->Some_0);
    }
}

/// A leak report is owed: `local` is listed for `region`, borrows `token`, and
/// `token` may not leak through `region`; the report stands at the local's definition.
pub open spec fn leak_owed(bl: Map<usize, LocalView>, permitted: Set<(u64, u64)>, spans: Map<u64, u64>,
    leaked: Seq<(u64, Vec<usize>)>, d: BorrowDiagnostic) -> bool
{
    exists|i: int, j: int| #![trigger leaked[i].1@[j]] 0 <= i < leaked.len() && 0 <= j < leaked[i].1@.len() && {
        let local = leaked[i].1@[j];
        &&& bl.contains_key(local)
        &&& d matches BorrowDiagnostic::CannotLeak { span, token, region }
        &&& span == spans[local as u64]
        &&& region == leaked[i].0
        &&& !permitted.contains((region, token))
        &&& exists|q: int| 0 <= q < bl[local].1.len() && bl[local].1[q].0 == token
    }
}

proof fn lemma_leak_at_owed(bl: Map<usize, LocalView>, permitted: Set<(u64, u64)>, spans: Map<u64, u64>, region: u64,
    locals: Seq<usize>, d: BorrowDiagnostic)
    requires
        leak_diags_at(bl, permitted, spans, region, locals).contains(d),
    ensures
        exists|j: int| 0 <= j < locals.len() && {
            let local = #[trigger] locals[j];
            &&& bl.contains_key(local)
            &&& d matches BorrowDiagnostic::CannotLeak { span, token, region: r }
            &&& span == spans[local as u64]
            &&& r == region
            &&& !permitted.contains((region, token))
            &&& exists|q: int| 0 <= q < bl[local].1.len() && bl[local].1[q].0 == token
        },
    decreases locals.len(),
{
    let all = leak_diags_at(bl, permitted, spans, region, locals);
    let pre = leak_diags_at(bl, permitted, spans, region, locals.drop_last());
    let last = leak_diag(bl, permitted, spans, region, locals.last());
    assert(all == pre + last);
    let w = choose|w: int| 0 <= w < all.len() && all[w] == d;
    if w < pre.len() {
        assert(pre[w] == d);
        lemma_leak_at_owed(bl, permitted, spans, region, locals.drop_last(), d);
        let j = choose|j: int| 0 <= j < locals.drop_last().len() && {
            let local = #[trigger] locals.drop_last()[j];
            &&& bl.contains_key(local)
            &&& d matches BorrowDiagnostic::CannotLeak { span, token, region: r }
            &&& span == spans[local as u64]
            &&& r == region
            &&& !permitted.contains((region, token))
            &&& exists|q: int| 0 <= q < bl[local].1.len() && bl[local].1[q].0 == token
        };
        assert(locals[j] == locals.drop_last()[j]);
    } else {
        assert(last[w - pre.len()] == d);
        let local = locals.last();
        lemma_first_unpermitted_found(bl[local].1, region, permitted);
        assert(locals[locals.len() - 1] == local);
    }
}

/// Every leak report is owed: it stands at the definition of a local listed for its
/// region, and names a token that the local borrows and that may not leak through
/// that region.
pub proof fn lemma_leak_reports_owed(bl: Map<usize, LocalView>, permitted: Set<(u64, u64)>, spans: Map<u64, u64>,
    leaked: Seq<(u64, Vec<usize>)>, d: BorrowDiagnostic)
    requires
        leak_diags(bl, permitted, spans, leaked).contains(d),
    ensures
        leak_owed(bl, permitted, spans, leaked, d),
    decreases leaked.len(),
{
    let all = leak_diags(bl, permitted, spans, leaked);
    let pre = leak_diags(bl, permitted, spans, leaked.drop_last());
    let at = leak_diags_at(bl, permitted, spans, leaked.last().0, leaked.last().1@);
    assert(all == pre + at);
    let w = choose|w: int| 0 <= w < all.len() && all[w] == d;
    if w < pre.len() {
        assert(pre[w] == d);
        lemma_leak_reports_owed(bl, permitted, spans, leaked.drop_last(), d);
        let (i, j) = choose|i: int, j: int| #![trigger leaked.drop_last()[i].1@[j]] 0 <= i < leaked.drop_last().len() && 0 <= j < leaked.drop_last()[i].1@.len() && {
            let local = leaked.drop_last()[i].1@[j];
            &&& bl.contains_key(local)
            &&& d matches BorrowDiagnostic::CannotLeak { span, token, region }
            &&& span == spans[local as u64]
            &&& region == leaked.drop_last()[i].0
            &&& !permitted.contains((region, token))
            &&& exists|q: int| 0 <= q < bl[local].1.len() && bl[local].1[q].0 == token
        };
        assert(leaked[i] == leaked.drop_last()[i]);
    } else {
        assert(at[w - pre.len()] == d);
        let i = leaked.len() - 1;
        lemma_leak_at_owed(bl, permitted, spans, leaked.last().0, leaked.last().1@, d);
        let j = choose|j: int| 0 <= j < leaked.last().1@.len() && {
            let local = #[trigger] leaked.last().1@[j];
            &&& bl.contains_key(local)
            &&& d matches BorrowDiagnostic::CannotLeak { span, token, region: r }
            &&& span == spans[local as u64]
            &&& r == leaked.last().0
            &&& !permitted.contains((leaked.last().0, token))
            &&& exists|q: int| 0 <= q < bl[local].1.len() && bl[local].1[q].0 == token
        };
        assert(leaked[i] == leaked.last());
    }
}

/// The elements of `s`, as a set.
pub open spec fn seq_set(s: Seq<(u64, u64)>) -> Set<(u64, u64)> {
    Set::new(|q: (u64, u64)| s.contains(q))
}

fn contains_pair(v: &Vec<(u64, u64)>, x: (u64, u64)) -> (r: bool)
    ensures
        r == v@.contains(x),
{
    let mut i: usize = 0;
    while i < v.len()
        invariant
            i <= v@.len(),
            forall|j: int| 0 <= j < i ==> v@[j] != x,
        decreases v@.len() - i,
    {
        if v[i].0 == x.0 && v[i].1 == x.1 {
            assert(v@[i as int] == x);
            return true;
        }
        i = i + 1;
    }
    false
}

/// The first token of a local's borrows that may not leak through `region`.
fn can_leak(bl: &BorrowingLocals, permitted: &Vec<(u64, u64)>, region: u64, local: usize) -> (r: Option<u64>)
    requires
        bl.wf(),
    ensures
        r == if bl.view_map().contains_key(local) {
            first_unpermitted(bl.view_map()[local].1, region, seq_set(permitted@))
        } else {
            None
        },
{
    let idx = match bl.find(local) {
        Some(i) => i,
        None => {
            return None;
        },
    };
    let toks = &bl.entries[idx].tokens;
    let ghost s = toks.entries@;
    let n = toks.entries.len();
    let mut i: usize = 0;
    assert(s.skip(0) =~= s);
    while i < n
        invariant
            n == s.len(),
            s == toks.entries@,
            bl.view_map().contains_key(local),
            bl.view_map()[local].1 == s,
            i <= n,
            first_unpermitted(s, region, seq_set(permitted@)) == first_unpermitted(s.skip(i as int), region, seq_set(permitted@)),
        decreases n - i,
    {
        let token = toks.entries[i].0;
        proof {
            assert(s.skip(i as int)[0] == s[i as int]);
            assert(s.skip(i as int).drop_first() =~= s.skip(i + 1));
        }
        if !contains_pair(permitted, (region, token)) {
            return Some(token);
        }
        i = i + 1;
    }
    proof {
        assert(s.skip(n as int).len() == 0);
    }
    None
}

impl BodyOverlapFacts {
    /// Reports every conflict between a borrow and another borrow alive where it
    /// starts, judged by what each borrow's local borrows.
    pub fn validate_overlaps(&self, bl: &BorrowingLocals, yields: &Vec<usize>, diags: &mut Vec<BorrowDiagnostic>)
        requires
            self.wf(),
            bl.wf(),
        ensures
            final(diags)@ == old(diags)@ + overlap_diags(self.borrows@, self.overlaps@, bl.view_map(), yields@),
    {
        let ghost d0 = diags@;
        let no = self.overlaps.len();
        proof {
            assert(self.overlaps@.take(0) =~= Seq::<(usize, Vec<usize>)>::empty());
        }
        for i in 0..no
            invariant
                no == self.overlaps@.len(),
                self.wf(),
                bl.wf(),
                diags@ == d0 + overlap_diags(self.borrows@, self.overlaps@.take(i as int), bl.view_map(), yields@),
        {
            let new_bw = self.overlaps[i].0;
            let live = &self.overlaps[i].1;
            let ghost d1 = diags@;
            let nl = live.len();
            proof {
                assert(self.overlaps@[i as int].0 < self.borrows@.len());
                assert(live@.take(0) =~= Seq::<usize>::empty());
            }
            for j in 0..nl
                invariant
                    nl == live@.len(),
                    live == self.overlaps@[i as int].1,
                    new_bw == self.overlaps@[i as int].0,
                    new_bw < self.borrows@.len(),
                    i < no,
                    no == self.overlaps@.len(),
                    self.wf(),
                    bl.wf(),
                    diags@ == d1 + overlap_diags_at(self.borrows@, bl.view_map(), yields@, new_bw, live@.take(j as int)),
            {
                let old_bw = live[j];
                proof {
                    assert(live@.take(j + 1).drop_last() =~= live@.take(j as int));
                    assert(old_bw < self.borrows@.len());
                }
                if old_bw != new_bw {
                    let (old_local, old_span) = self.borrows[old_bw];
                    let (new_local, new_span) = self.borrows[new_bw];
                    match conflict_between(bl, yields, Pair::new(old_local, new_local)) {
                        Some((token, ps)) => {
                            let n = ps.natural();
                            diags.push(BorrowDiagnostic::ConflictingBorrows {
                                token,
                                old_span,
                                new_span,
                                old_mut: n.left.0,
                                old_reason: n.left.1,
                                new_mut: n.right.0,
                                new_reason: n.right.1,
                            });
                        },
                        None => {},
                    }
                }
                proof {
                    assert(diags@ =~= d1 + overlap_diags_at(self.borrows@, bl.view_map(), yields@, new_bw, live@.take(j + 1)));
                }
            }
            proof {
                assert(live@.take(nl as int) =~= live@);
                let t1 = self.overlaps@.take(i + 1);
                assert(t1.drop_last() =~= self.overlaps@.take(i as int));
                assert(diags@ =~= d0 + overlap_diags(self.borrows@, t1, bl.view_map(), yields@));
            }
        }
        proof {
            assert(self.overlaps@.take(no as int) =~= self.overlaps@);
        }
    }

    /// Reports every local that can be leaked through a region while borrowing a token
    /// that is not permitted to leak through it.
    pub fn validate_leaks(&self, bl: &BorrowingLocals, permitted: &Vec<(u64, u64)>, diags: &mut Vec<BorrowDiagnostic>)
        requires
            self.wf(),
            bl.wf(),
        ensures
            final(diags)@ == old(diags)@ + leak_diags(bl.view_map(), seq_set(permitted@), self.leaked_local_def_spans@, self.leaked_locals@),
    {
        let ghost d0 = diags@;
        let ghost spans = self.leaked_local_def_spans@;
        let n = self.leaked_locals.len();
        proof {
            assert(self.leaked_locals@.take(0) =~= Seq::<(u64, Vec<usize>)>::empty());
        }
        for i in 0..n
            invariant
                n == self.leaked_locals@.len(),
                self.wf(),
                bl.wf(),
                spans == self.leaked_local_def_spans@,
                diags@ == d0 + leak_diags(bl.view_map(), seq_set(permitted@), spans, self.leaked_locals@.take(i as int)),
        {
            let region = self.leaked_locals[i].0;
            let locals = &self.leaked_locals[i].1;
            let ghost d1 = diags@;
            let m = locals.len();
            proof {
                assert(locals@.take(0) =~= Seq::<usize>::empty());
            }
            for j in 0..m
                invariant
                    m == locals@.len(),
                    locals == self.leaked_locals@[i as int].1,
                    region == self.leaked_locals@[i as int].0,
                    i < n,
                    n == self.leaked_locals@.len(),
                    self.wf(),
                    bl.wf(),
                    spans == self.leaked_local_def_spans@,
                    diags@ == d1 + leak_diags_at(bl.view_map(), seq_set(permitted@), spans, region, locals@.take(j as int)),
            {
                let local = locals[j];
                proof {
                    assert(locals@.take(j + 1).drop_last() =~= locals@.take(j as int));
                    assert(self.leaked_local_def_spans@.contains_key(self.leaked_locals@[i as int].1@[j as int] as u64));
                }
                match can_leak(bl, permitted, region, local) {
                    Some(token) => {
                        let span = match self.leaked_local_def_spans.get(local as u64) {
                            Some(s) => s,
                            None => 0,
                        };
                        diags.push(BorrowDiagnostic::CannotLeak { span, token, region });
                    },
                    None => {},
                }
                proof {
                    assert(diags@ =~= d1 + leak_diags_at(bl.view_map(), seq_set(permitted@), spans, region, locals@.take(j + 1)));
                }
            }
            proof {
                assert(locals@.take(m as int) =~= locals@);
                let t1 = self.leaked_locals@.take(i + 1);
                assert(t1.drop_last() =~= self.leaked_locals@.take(i as int));
                assert(diags@ =~= d0 + leak_diags(bl.view_map(), seq_set(permitted@), spans, t1));
            }
        }
        proof {
            assert(self.leaked_locals@.take(n as int) =~= self.leaked_locals@);
        }
    }
}


/// A borrow a call makes a local hold: the local, the token, the callee, the mutability.
pub type Contribution = (usize, u64, usize, Mutability);

/// A call made by a body, as seen from one instantiation of it.
pub struct TemplateCall {
    pub span: u64,
    /// The function instance the call resolves to, if it resolves.
    pub callee: Option<usize>,
    /// The local borrowed mutably just before the call.
    pub prevent_call_local: usize,
    /// For each free lifetime of the callee's return type, the local tied to it.
    pub tied_locals: Vec<usize>,
    /// For each lifetime name in the callee's return type, its free lifetimes.
    pub links: Vec<(u64, Vec<usize>)>,
}

/// What borrow checking needs of a body, as seen from one instantiation of it: the
/// (region, token set) pairs it may leak, its calls, and the locals held across
/// `.await`s.
pub struct BodyTemplateFacts {
    pub permitted_leaks: Vec<(u64, TokenSet)>,
    pub calls: Vec<TemplateCall>,
    pub yield_locals: Vec<usize>,
}

/// The free lifetimes linked to the lifetime named `name`, from the first entry for it.
pub open spec fn find_link(links: Seq<(u64, Vec<usize>)>, name: u64) -> Option<Seq<usize>>
    decreases links.len(),
{
    if links.len() == 0 {
        None
    } else if links[0].0 == name {
        Some(links[0].1@)
    } else {
        find_link(links.drop_first(), name)
    }
}

/// What one borrow of a callee makes the caller's locals hold, and the diagnostic when
/// its tied lifetime cannot be found in the callee's return type.
pub open spec fn borrow_effects(call: TemplateCall, inst: usize, b: (u64, BorrowValue)) -> (Seq<Contribution>, Seq<BorrowDiagnostic>) {
    let (token, (m, sym)) = b;
    let first = seq![(call.prevent_call_local, token, inst, m)];
    match sym {
        None => (first, Seq::empty()),
        Some(s) => match find_link(call.links@, s) {
            None => (first, seq![BorrowDiagnostic::MissingTiedLifetime { span: call.span, lifetime: s, token }]),
            Some(idxs) => (
                first + Seq::new(idxs.len(), |k: int| (call.tied_locals@[idxs[k] as int], token, inst, m)),
                Seq::empty(),
            ),
        },
    }
}

pub open spec fn call_effects(call: TemplateCall, inst: usize, bs: Seq<(u64, BorrowValue)>) -> (Seq<Contribution>, Seq<BorrowDiagnostic>)
    decreases bs.len(),
{
    if bs.len() == 0 {
        (Seq::empty(), Seq::empty())
    } else {
        let prev = call_effects(call, inst, bs.drop_last());
        let cur = borrow_effects(call, inst, bs.last());
        (prev.0 + cur.0, prev.1 + cur.1)
    }
}

/// The callee facts a call sees.
pub open spec fn callee_facts(call: TemplateCall, facts: Seq<Option<BorrowMap>>) -> Option<(usize, Seq<(u64, BorrowValue)>)> {
    match call.callee {
        Some(ci) => if ci < facts.len() && facts[ci as int] is Some {
            Some((ci, facts[ci as int]->Some_0.entries@))
        } else {
            None
        },
        None => None,
    }
}

/// The borrows the calls of a body make its locals hold, in order, with the
/// diagnostics for tied lifetimes that cannot be found.
pub open spec fn template_effects(calls: Seq<TemplateCall>, facts: Seq<Option<BorrowMap>>) -> (Seq<Contribution>, Seq<BorrowDiagnostic>)
    decreases calls.len(),
{
    if calls.len() == 0 {
        (Seq::empty(), Seq::empty())
    } else {
        let prev = template_effects(calls.drop_last(), facts);
        match callee_facts(calls.last(), facts) {
            Some((ci, bs)) => {
                let cur = call_effects(calls.last(), ci, bs);
                (prev.0 + cur.0, prev.1 + cur.1)
            },
            None => prev,
        }
    }
}

/// What each local borrows after the contributions, in order.
pub open spec fn bl_fold(cs: Seq<Contribution>) -> Map<usize, LocalView>
    decreases cs.len(),
{
    if cs.len() == 0 {
        Map::empty()
    } else {
        let (local, token, inst, m) = cs.last();
        bl_add(bl_fold(cs.drop_last()), local, token, inst, m)
    }
}

/// The (region, token) pairs a body may leak.
pub open spec fn permitted_set(pl: Seq<(u64, TokenSet)>) -> Set<(u64, u64)> {
    Set::new(|q: (u64, u64)| exists|i: int| 0 <= i < pl.len() && (#[trigger] pl[i]).0 == q.0
        && token_set_view(pl[i].1).contains_key(q.1))
}


fn find_link_idx(links: &Vec<(u64, Vec<usize>)>, name: u64) -> (r: Option<usize>)
    ensures
        match r {
            Some(i) => i < links@.len() && find_link(links@, name) == Some(links@[i as int].1@),
            None => find_link(links@, name) is None,
        },
{
    let mut i: usize = 0;
    assert(links@.skip(0) =~= links@);
    while i < links.len()
        invariant
            i <= links@.len(),
            find_link(links@, name) == find_link(links@.skip(i as int), name),
        decreases links@.len() - i,
    {
        proof {
            assert(links@.skip(i as int)[0] == links@[i as int]);
            assert(links@.skip(i as int).drop_first() =~= links@.skip(i + 1));
        }
        if links[i].0 == name {
            return Some(i);
        }
        i = i + 1;
    }
    proof {
        assert(links@.skip(i as int).len() == 0);
    }
    None
}

proof fn lemma_bl_fold_push(cs: Seq<Contribution>, c: Contribution)
    ensures
        bl_fold(cs.push(c)) == bl_add(bl_fold(cs), c.0, c.1, c.2, c.3),
{
    assert(cs.push(c).drop_last() =~= cs);
}

impl BodyTemplateFacts {
    /// Every linked free lifetime names a tied local of its call.
    pub open spec fn calls_ok(&self) -> bool {
        forall|c: int, l: int, k: int| 0 <= c < self.calls@.len() && 0 <= l < self.calls@[c].links@.len()
            && 0 <= k < self.calls@[c].links@[l].1@.len()
            ==> #[trigger] self.calls@[c].links@[l].1@[k] < self.calls@[c].tied_locals@.len()
    }

    /// Checks one instantiation of the body: works out what each local borrows from the
    /// facts of the callees, then reports every conflict between overlapping borrows and
    /// every leak of a token that is not tied to the region it leaks through.
    #[verifier::spinoff_prover]
    #[verifier::rlimit(50)]
    pub fn validate(&self, trace: &TraceFacts, overlaps: &BodyOverlapFacts) -> (r: Vec<BorrowDiagnostic>)
        requires
            self.calls_ok(),
            overlaps.wf(),
            forall|i: int| 0 <= i < trace.facts@.len() && #[trigger] trace.facts@[i] is Some ==> trace.facts@[i]->Some_0.wf(),
        ensures
            r@ == template_effects(self.calls@, trace.facts@).1
                + overlap_diags(
                    overlaps.borrows@,
                    overlaps.overlaps@,
                    bl_fold(template_effects(self.calls@, trace.facts@).0),
                    self.yield_locals@,
                )
                + leak_diags(
                    bl_fold(template_effects(self.calls@, trace.facts@).0),
                    permitted_set(self.permitted_leaks@),
                    overlaps.leaked_local_def_spans@,
                    overlaps.leaked_locals@,
                ),
    {
        let ghost facts = trace.facts@;
        let mut bl = BorrowingLocals::new();
        let mut diags: Vec<BorrowDiagnostic> = Vec::new();
        let ghost mut cs: Seq<Contribution> = Seq::empty();
        let nc = self.calls.len();
        proof {
            assert(self.calls@.take(0) =~= Seq::<TemplateCall>::empty());
            assert(bl_fold(cs) == Map::<usize, LocalView>::empty());
        }
        for c in 0..nc
            invariant
                nc == self.calls@.len(),
                facts == trace.facts@,
                self.calls_ok(),
                forall|i: int| 0 <= i < facts.len() && #[trigger] facts[i] is Some ==> facts[i]->Some_0.wf(),
                bl.wf(),
                bl.view_map() == bl_fold(cs),
                cs == template_effects(self.calls@.take(c as int), facts).0,
                diags@ == template_effects(self.calls@.take(c as int), facts).1,
        {
            let call = &self.calls[c];
            let ghost tc1 = self.calls@.take(c + 1);
            proof {
                assert(tc1.drop_last() =~= self.calls@.take(c as int));
                assert(tc1.last() == *call);
            }
            let ghost cs0 = cs;
            let ghost d0 = diags@;
            match call.callee {
                Some(ci) => {
                    if ci < trace.facts.len() {
                        match &trace.facts[ci] {
                            Some(f) => {
                                let ghost es = f.entries@;
                                let ne = f.entries.len();
                                proof {
                                    assert(f.wf());
                                    assert(es.take(0) =~= Seq::<(u64, BorrowValue)>::empty());
                                    assert(cs =~= cs0 + call_effects(*call, ci, es.take(0)).0);
                                    assert(diags@ =~= d0 + call_effects(*call, ci, es.take(0)).1);
                                }
                                for b in 0..ne
                                    invariant
                                        ne == es.len(),
                                        es == f.entries@,
                                        f.wf(),
                                        c < nc,
                                        nc == self.calls@.len(),
                                        *call == self.calls@[c as int],
                                        self.calls_ok(),
                                        bl.wf(),
                                        bl.view_map() == bl_fold(cs),
                                        cs == cs0 + call_effects(*call, ci, es.take(b as int)).0,
                                        diags@ == d0 + call_effects(*call, ci, es.take(b as int)).1,
                                {
                                    let (token, (m, sym)) = f.entry_at(b);
                                    let ghost eb1 = es.take(b + 1);
                                    proof {
                                        assert(eb1.drop_last() =~= es.take(b as int));
                                        assert(eb1.last() == es[b as int]);
                                    }
                                    let ghost cs_b = cs;
                                    let ghost d_b = diags@;
                                    add_local_borrow(&mut bl, call.prevent_call_local, token, ci, m);
                                    proof {
                                        lemma_bl_fold_push(cs, (call.prevent_call_local, token, ci, m));
                                        cs = cs.push((call.prevent_call_local, token, ci, m));
                                    }
                                    match sym {
                                        Some(s) => {
                                            match find_link_idx(&call.links, s) {
                                                None => {
                                                    diags.push(BorrowDiagnostic::MissingTiedLifetime { span: call.span, lifetime: s, token });
                                                },
                                                Some(li) => {
                                                    let idxs = &call.links[li].1;
                                                    let ni = idxs.len();
                                                    let ghost cs_l = cs;
                                                    proof {
                                                        assert(cs_l =~= cs_l + Seq::new(0, |k: int| (call.tied_locals@[idxs@[k] as int], token, ci, m)));
                                                    }
                                                    for k in 0..ni
                                                        invariant
                                                            ni == idxs@.len(),
                                                            idxs == call.links@[li as int].1,
                                                            li < call.links@.len(),
                                                            c < nc,
                                                            nc == self.calls@.len(),
                                                            *call == self.calls@[c as int],
                                                            self.calls_ok(),
                                                            bl.wf(),
                                                            bl.view_map() == bl_fold(cs),
                                                            cs == cs_l + Seq::new(k as nat, |q: int| (call.tied_locals@[idxs@[q] as int], token, ci, m)),
                                                    {
                                                        proof {
                                                            assert(self.calls@[c as int].links@[li as int].1@[k as int] < self.calls@[c as int].tied_locals@.len());
                                                        }
                                                        let tl = call.tied_locals[idxs[k]];
                                                        add_local_borrow(&mut bl, tl, token, ci, m);
                                                        proof {
                                                            lemma_bl_fold_push(cs, (tl, token, ci, m));
                                                            cs = cs.push((tl, token, ci, m));
                                                            assert(cs =~= cs_l + Seq::new((k + 1) as nat, |q: int| (call.tied_locals@[idxs@[q] as int], token, ci, m)));
                                                        }
                                                    }
                                                },
                                            }
                                        },
                                        None => {},
                                    }
                                    proof {
                                        let be = borrow_effects(*call, ci, es[b as int]);
                                        assert(cs =~= cs_b + be.0);
                                        assert(diags@ =~= d_b + be.1);
                                        assert(cs =~= cs0 + call_effects(*call, ci, eb1).0);
                                        assert(diags@ =~= d0 + call_effects(*call, ci, eb1).1);
                                    }
                                }
                                proof {
                                    assert(es.take(ne as int) =~= es);
                                    assert(callee_facts(*call, facts) == Some((ci, es)));
                                }
                            },
                            None => {},
                        }
                    }
                },
                None => {},
            }
            proof {
                assert(cs =~= template_effects(tc1, facts).0);
                assert(diags@ =~= template_effects(tc1, facts).1);
            }
        }
        proof {
            assert(self.calls@.take(nc as int) =~= self.calls@);
        }
        overlaps.validate_overlaps(&bl, &self.yield_locals, &mut diags);
        let mut permitted: Vec<(u64, u64)> = Vec::new();
        let np = self.permitted_leaks.len();
        for p in 0..np
            invariant
                np == self.permitted_leaks@.len(),
                forall|q: (u64, u64)| #[trigger] permitted@.contains(q) <==> exists|i: int| 0 <= i < p
                    && (#[trigger] self.permitted_leaks@[i]).0 == q.0
                    && token_set_view(self.permitted_leaks@[i].1).contains_key(q.1),
        {
            let re = self.permitted_leaks[p].0;
            let set = instantiate_set(&self.permitted_leaks[p].1);
            let ghost p0 = permitted@;
            let ns = set.entries.len();
            for e in 0..ns
                invariant
                    ns == set.entries@.len(),
                    set.wf(),
                    set@ == token_set_view(self.permitted_leaks@[p as int].1),
                    re == self.permitted_leaks@[p as int].0,
                    forall|q: (u64, u64)| #[trigger] permitted@.contains(q) <==> p0.contains(q)
                        || (q.0 == re && exists|j: int| 0 <= j < e && (#[trigger] set.entries@[j]).0 == q.1),
            {
                let (token, _) = set.entry_at(e);
                let ghost pb = permitted@;
                permitted.push((re, token));
                proof {
                    assert forall|q: (u64, u64)| #[trigger] permitted@.contains(q) <==> p0.contains(q)
                        || (q.0 == re && exists|j: int| 0 <= j < e + 1 && (#[trigger] set.entries@[j]).0 == q.1) by {
                        if permitted@.contains(q) {
                            let w = choose|w: int| 0 <= w < permitted@.len() && permitted@[w] == q;
                            if w < pb.len() {
                                assert(pb.contains(q));
                            }
                        }
                        if pb.contains(q) {
                            let w = choose|w: int| 0 <= w < pb.len() && pb[w] == q;
                            assert(permitted@[w] == q);
                        }
                        if q.0 == re && exists|j: int| 0 <= j < e + 1 && (#[trigger] set.entries@[j]).0 == q.1 {
                            let j = choose|j: int| 0 <= j < e + 1 && (#[trigger] set.entries@[j]).0 == q.1;
                            if j == e {
                                assert(permitted@[pb.len() as int] == q);
                            } else {
                                assert(pb.contains(q));
                            }
                        }
                    }
                }
            }
            proof {
                assert forall|q: (u64, u64)| #[trigger] permitted@.contains(q) <==> exists|i: int| 0 <= i < p + 1
                    && (#[trigger] self.permitted_leaks@[i]).0 == q.0
                    && token_set_view(self.permitted_leaks@[i].1).contains_key(q.1) by {
                    if q.0 == re && exists|j: int| 0 <= j < ns && (#[trigger] set.entries@[j]).0 == q.1 {
                        let j = choose|j: int| 0 <= j < ns && (#[trigger] set.entries@[j]).0 == q.1;
                        crate::vec_map::lemma_seq_map_at(set.entries@, j);
                        assert(self.permitted_leaks@[p as int].0 == q.0);
                    }
                    if exists|i: int| 0 <= i < p + 1 && (#[trigger] self.permitted_leaks@[i]).0 == q.0
                        && token_set_view(self.permitted_leaks@[i].1).contains_key(q.1) {
                        let i = choose|i: int| 0 <= i < p + 1 && (#[trigger] self.permitted_leaks@[i]).0 == q.0
                            && token_set_view(self.permitted_leaks@[i].1).contains_key(q.1);
                        if i == p {
                            assert(set@.contains_key(q.1));
                            let j = choose|j: int| 0 <= j < set.entries@.len() && #[trigger] set.entries@[j].0 == q.1;
                            assert(set.entries@[j].0 == q.1);
                        }
                    }
                }
            }
        }
        proof {
            assert(seq_set(permitted@) =~= permitted_set(self.permitted_leaks@));
        }
        overlaps.validate_leaks(&bl, &permitted, &mut diags);
        diags
    }
}

} // verus!
