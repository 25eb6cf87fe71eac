use vstd::prelude::*;
use crate::mir_builder::{
    BuilderState, FunctionCallAndRegions, LocalTy, MirBody, Statement, tie_statements, TerminatorKind, TokenMirBuilder, block_stmts, block_terms,
    enb_state, flushed, initial_state, returning_call, returning_term, tie_state,
};
use crate::overlap::{BodyTemplateFacts, TemplateCall};
use crate::shapes::{TyShape, find_region_with_name, first_named, region_names, ty_regions};
use crate::tokens::TokenSet;
use crate::vec_map::VecMap;

verus! {

/// What a call to a tie directive declares: the lifetime name of the function's return
/// type it ties (if any), the token set it acquires, and whether it was marked unsafe.
pub struct TieDirective {
    pub tied_to: Option<u64>,
    pub acquired_set: TokenSet,
    pub is_unsafe: bool,
}

/// A call ending a block whose callee resolves statically or generically.
pub struct CallSite {
    pub span: u64,
    /// The function instance the call resolves to, if it resolves.
    pub callee: Option<usize>,
    /// The callee's return type with its free regions made bound ones.
    pub mask: FunctionCallAndRegions,
    /// What the callee declares, if it is a tie directive.
    pub tie: Option<TieDirective>,
    /// For each lifetime name in the callee's return type, its free lifetimes.
    pub links: Vec<(u64, Vec<usize>)>,
}

/// The return type of the body's function, the names of its named regions, which of its
/// regions are early-bound parameters, and which regions occur in the function's
/// where-clauses.
pub struct ReturnRegions {
    pub ty: TyShape,
    pub names: VecMap<u64>,
    pub early_params: Vec<u64>,
    pub bound_regions: Vec<u64>,
}

/// The errors found while preparing a body's template.
pub enum TemplateDiagnostic {
    /// A tie names a lifetime the return type does not have; `found` lists the names
    /// it has.
    MissingRegion { span: u64, name: u64, found: Vec<u64> },
    /// A safe tie names a lifetime that is not an early-bound parameter or that occurs
    /// in a where-clause.
    UnsoundTie { span: u64 },
}

/// A template diagnostic, as values.
pub enum DiagnosticView {
    MissingRegion { span: u64, name: u64, found: Seq<u64> },
    UnsoundTie { span: u64 },
}

pub open spec fn diagnostic_view(d: TemplateDiagnostic) -> DiagnosticView {
    match d {
        TemplateDiagnostic::MissingRegion { span, name, found } => DiagnosticView::MissingRegion { span, name, found: found@ },
        TemplateDiagnostic::UnsoundTie { span } => DiagnosticView::UnsoundTie { span },
    }
}

pub open spec fn diagnostics_view(ds: Seq<TemplateDiagnostic>) -> Seq<DiagnosticView> {
    Seq::new(ds.len(), |i: int| diagnostic_view(ds[i]))
}

/// A template call, as values: span, callee, the local borrowed before the call, the
/// locals tied to the call's result, and the callee's lifetime links.
pub type CallView = (u64, Option<usize>, usize, Seq<usize>, Vec<(u64, Vec<usize>)>);

pub open spec fn call_view(c: TemplateCall) -> CallView {
    (c.span, c.callee, c.prevent_call_local, c.tied_locals@, c.links)
}

pub open spec fn calls_view(cs: Seq<TemplateCall>) -> Seq<CallView> {
    Seq::new(cs.len(), |i: int| call_view(cs[i]))
}

/// What a tie directive called at `span` contributes: the region and token set it
/// permits to leak, and its diagnostics.
pub open spec fn tie_outcome(span: u64, tie: Option<TieDirective>, ret: ReturnRegions) -> (Option<(u64, TokenSet)>, Seq<DiagnosticView>) {
    match tie {
        None => (None, Seq::empty()),
        Some(d) => match d.tied_to {
            None => (None, Seq::empty()),
            Some(name) => match first_named(ty_regions(ret.ty), ret.names@, name) {
                None => (None, seq![DiagnosticView::MissingRegion {
                    span,
                    name,
                    found: region_names(ty_regions(ret.ty), ret.names@),
                }]),
                Some(re) => (
                    Some((re, d.acquired_set)),
                    if !d.is_unsafe && (!ret.early_params@.contains(re) || ret.bound_regions@.contains(re)) {
                        seq![DiagnosticView::UnsoundTie { span }]
                    } else {
                        Seq::empty()
                    },
                ),
            },
        },
    }
}

/// The builder state after tying tokens to the first `k` regions of the result of the
/// call ending block `bb`.
pub open spec fn ties_state(s: BuilderState, bb: int, call: FunctionCallAndRegions, k: nat) -> BuilderState
    decreases k,
{
    if k == 0 {
        s
    } else {
        tie_state(ties_state(s, bb, call, (k - 1) as nat), bb, call, (k - 1) as u32)
    }
}

/// The template gathered from the first blocks of a body.
pub struct TemplateScan {
    pub state: BuilderState,
    pub leaks: Seq<(u64, TokenSet)>,
    pub calls: Seq<CallView>,
    pub yields: Seq<usize>,
    pub diags: Seq<DiagnosticView>,
}

/// Block `bb` added to a template: a yield keeps a fresh token borrowed across it; a
/// call does too, ties a fresh token to each free region of its result, and, when it
/// is a tie directive, permits a leak or reports why not.
pub open spec fn scan_block(prev: TemplateScan, bb: int, site: Option<CallSite>, ret: ReturnRegions) -> TemplateScan {
    let is_yield = prev.state.terms[bb] matches Some(t) && t.kind is Yield;
    let s1 = if is_yield { enb_state(prev.state, bb) } else { prev.state };
    let yields = if is_yield { prev.yields.push(prev.state.locals.len() as usize) } else { prev.yields };
    match site {
        None => TemplateScan { state: s1, yields, ..prev },
        Some(c) => {
            let (leak, diags) = tie_outcome(c.span, c.tie, ret);
            let s2 = enb_state(s1, bb);
            let pc = c.mask.param_count as nat;
            let base = s2.locals.len();
            TemplateScan {
                state: ties_state(s2, bb, c.mask, pc),
                leaks: match leak { Some(l) => prev.leaks.push(l), None => prev.leaks },
                calls: prev.calls.push((
                    c.span,
                    c.callee,
                    s1.locals.len() as usize,
                    Seq::new(pc, |i: int| (base + 4 * i + 2) as usize),
                    c.links,
                )),
                yields,
                diags: prev.diags + diags,
            }
        },
    }
}

/// The template gathered from the first `n` blocks, starting from builder state `s`.
pub open spec fn scan_blocks(s: BuilderState, sites: Seq<Option<CallSite>>, ret: ReturnRegions, n: nat) -> TemplateScan
    decreases n,
{
    if n == 0 {
        TemplateScan { state: s, leaks: Seq::empty(), calls: Seq::empty(), yields: Seq::empty(), diags: Seq::empty() }
    } else {
        scan_block(scan_blocks(s, sites, ret, (n - 1) as nat), (n - 1) as int, sites[n - 1], ret)
    }
}

/// A tie directive naming the lifetime `re` of the return type permits its set to leak
/// through `re`; a safe one is reported as unsound exactly when `re` is not an
/// early-bound parameter or occurs in a where-clause, even if it is also a parameter.
pub proof fn lemma_tie_outcome_law(span: u64, d: TieDirective, ret: ReturnRegions, name: u64, re: u64)
    requires
        d.tied_to == Some(name),
        first_named(ty_regions(ret.ty), ret.names@, name) == Some(re),
    ensures
        tie_outcome(span, Some(d), ret).0 == Some((re, d.acquired_set)),
        !d.is_unsafe && (!ret.early_params@.contains(re) || ret.bound_regions@.contains(re))
            ==> tie_outcome(span, Some(d), ret).1.contains(DiagnosticView::UnsoundTie { span }),
        d.is_unsafe || (ret.early_params@.contains(re) && !ret.bound_regions@.contains(re))
            ==> tie_outcome(span, Some(d), ret).1.len() == 0,
{
    if !d.is_unsafe && (!ret.early_params@.contains(re) || ret.bound_regions@.contains(re)) {
        assert(tie_outcome(span, Some(d), ret).1[0] == DiagnosticView::UnsoundTie { span });
    }
}

/// Every safe tie directive of the first `n` blocks whose lifetime is not an early-bound
/// parameter or occurs in a where-clause is reported as unsound at its call.
pub proof fn lemma_unsound_ties_reported(s: BuilderState, sites: Seq<Option<CallSite>>, ret: ReturnRegions, n: nat,
    bb: int, name: u64, re: u64)
    requires
        0 <= bb < n,
        sites[bb] is Some,
        sites[bb]->Some_0.tie matches Some(d) && d.tied_to == Some(name) && !d.is_unsafe,
        first_named(ty_regions(ret.ty), ret.names@, name) == Some(re),
        !ret.early_params@.contains(re) || ret.bound_regions@.contains(re),
    ensures
        scan_blocks(s, sites, ret, n).diags.contains(DiagnosticView::UnsoundTie { span: sites[bb]->Some_0.span }),
    decreases n,
{
    let e = DiagnosticView::UnsoundTie { span: sites[bb]->Some_0.span };
    let prev = scan_blocks(s, sites, ret, (n - 1) as nat);
    let cur = scan_blocks(s, sites, ret, n);
    if bb == n - 1 {
        let c = sites[bb]->Some_0;
        let d = c.tie->Some_0;
        lemma_tie_outcome_law(c.span, d, ret, name, re);
        let t = tie_outcome(c.span, c.tie, ret).1;
        assert(cur.diags == prev.diags + t);
        let w = choose|w: int| 0 <= w < t.len() && t[w] == e;
        assert(cur.diags[prev.diags.len() + w] == e);
    } else {
        lemma_unsound_ties_reported(s, sites, ret, (n - 1) as nat, bb, name, re);
        let w = choose|w: int| 0 <= w < prev.diags.len() && prev.diags[w] == e;
        match sites[n - 1] {
            Some(c) => {
                assert(cur.diags == prev.diags + tie_outcome(c.span, c.tie, ret).1);
            },
            None => {
                assert(cur.diags == prev.diags);
            },
        }
        assert(cur.diags[w] == e);
    }
}

fn contains_region(v: &Vec<u64>, x: u64) -> (r: bool)
    ensures
        r == v@.contains(x),
{
    let mut i: usize = 0;
    while i < v.len()
        invariant
            i <= v@.len(),
            forall|j: int| 0 <= j < i ==> v@[j] != x,
        decreases v@.len() - i,
    {
        if v[i] == x {
            assert(v@[i as int] == x);
            return true;
        }
        i = i + 1;
    }
    false
}

/// Applies what the tie directive `tie`, called at `span`, declares.
fn apply_tie(
    span: u64,
    tie: Option<TieDirective>,
    ret: &ReturnRegions,
    leaks: &mut Vec<(u64, TokenSet)>,
    diags: &mut Vec<TemplateDiagnostic>,
)
    requires
        ret.names.wf(),
    ensures
        final(leaks)@ == match tie_outcome(span, tie, *ret).0 {
            Some(l) => old(leaks)@.push(l),
            None => old(leaks)@,
        },
        diagnostics_view(final(diags)@) == diagnostics_view(old(diags)@) + tie_outcome(span, tie, *ret).1,
{
    let ghost d0 = diags@;
    match tie {
        None => {
            assert(diagnostics_view(diags@) =~= diagnostics_view(d0) + Seq::<DiagnosticView>::empty());
        },
        Some(d) => {
            let TieDirective { tied_to, acquired_set, is_unsafe } = d;
            match tied_to {
                None => {
                    assert(diagnostics_view(diags@) =~= diagnostics_view(d0) + Seq::<DiagnosticView>::empty());
                },
                Some(name) => {
                    match find_region_with_name(&ret.ty, &ret.names, name) {
                        Ok(region) => {
                            if !is_unsafe {
                                let early = contains_region(&ret.early_params, region);
                                let bound = contains_region(&ret.bound_regions, region);
                                if !early || bound {
                                    diags.push(TemplateDiagnostic::UnsoundTie { span });
                                }
                            }
                            leaks.push((region, acquired_set));
                            assert(diagnostics_view(diags@) =~= diagnostics_view(d0) + tie_outcome(span, tie, *ret).1);
                        },
                        Err(found) => {
                            diags.push(TemplateDiagnostic::MissingRegion { span, name, found });
                            assert(diagnostics_view(diags@) =~= diagnostics_view(d0) + tie_outcome(span, tie, *ret).1);
                        },
                    }
                },
            }
        },
    }
}

impl BodyTemplateFacts {
    /// Prepares the template of a body: walks its blocks in order, keeping a fresh
    /// token borrowed across each yield and each call, tying a fresh token to each
    /// free region of each call's result, and recording the leaks that tie directives
    /// permit. `sites` tells, for each block, the call ending it, where its callee
    /// resolves statically or generically; `ret` describes the function's return type.
    /// Returns the template, the rewritten body and the diagnostics.
    pub fn new(body: MirBody, sites: Vec<Option<CallSite>>, ret: &ReturnRegions) -> (r: (BodyTemplateFacts, MirBody, Vec<TemplateDiagnostic>))
        requires
            body.basic_blocks@.len() > 0,
            sites@.len() == body.basic_blocks@.len(),
            ret.names.wf(),
            forall|bb: int| 0 <= bb < sites@.len() && (#[trigger] sites@[bb]) is Some
                && sites@[bb]->Some_0.mask.param_count > 0 ==> returning_call(body.basic_blocks@, bb),
        ensures
            ({
                let sc = scan_blocks(initial_state(body), sites@, *ret, sites@.len());
                &&& r.0.permitted_leaks@ == sc.leaks
                &&& calls_view(r.0.calls@) == sc.calls
                &&& r.0.yield_locals@ == sc.yields
                &&& diagnostics_view(r.2@) == sc.diags
                &&& block_stmts(r.1.basic_blocks@) == flushed(sc.state.stmts, sc.state.pending, sc.state.pending_block)
                &&& block_terms(r.1.basic_blocks@) == sc.state.terms
                &&& r.1.local_decls@ == sc.state.locals
                &&& r.1.user_type_annotations@ == sc.state.annots
                &&& r.1.span == body.span
                &&& template_locals_are_tokens(sc)
                &&& keeps_original(block_stmts(r.1.basic_blocks@), block_stmts(body.basic_blocks@))
            }),
    {
        let ghost body0 = body;
        let ghost sites0 = sites@;
        let mut sites = sites;
        let mut builder = TokenMirBuilder::new(body);
        let mut permitted_leaks: Vec<(u64, TokenSet)> = Vec::new();
        let mut yield_locals: Vec<usize> = Vec::new();
        let mut calls: Vec<TemplateCall> = Vec::new();
        let mut diags: Vec<TemplateDiagnostic> = Vec::new();
        let bb_count = builder.body.basic_blocks.len();
        let mut bb: usize = 0;
        while bb < bb_count
            invariant
                bb <= bb_count,
                bb_count == sites0.len(),
                body0.basic_blocks@.len() == sites0.len(),
                builder.body.span == body0.span,
                builder.wf(),
                builder.body.basic_blocks@.len() == bb_count,
                ret.names.wf(),
                sites@.len() == sites0.len(),
                forall|j: int| bb <= j < sites0.len() ==> sites@[j] == sites0[j],
                forall|j: int| bb <= j < sites0.len() ==> builder.state().terms[j] == initial_state(body0).terms[j],
                forall|j: int| 0 <= j < sites0.len() && (#[trigger] sites0[j]) is Some
                    && sites0[j]->Some_0.mask.param_count > 0 ==> returning_term(initial_state(body0).terms, j),
                ({
                    let sc = scan_blocks(initial_state(body0), sites0, *ret, bb as nat);
                    &&& builder.state() == sc.state
                    &&& permitted_leaks@ == sc.leaks
                    &&& calls_view(calls@) == sc.calls
                    &&& yield_locals@ == sc.yields
                    &&& diagnostics_view(diags@) == sc.diags
                }),
            decreases bb_count - bb,
        {
            let ghost prev = scan_blocks(initial_state(body0), sites0, *ret, bb as nat);
            let ghost next = scan_block(prev, bb as int, sites0[bb as int], *ret);
            assert(scan_blocks(initial_state(body0), sites0, *ret, (bb + 1) as nat) == next);

            // A yield keeps a fresh token borrowed across it.
            let is_yield = match builder.body.basic_blocks[bb].terminator {
                Some(t) => match t.kind {
                    TerminatorKind::Yield => true,
                    _ => false,
                },
                None => false,
            };
            if is_yield {
                let local = builder.ensure_not_borrowed_at(bb);
                yield_locals.push(local);
            }
            let ghost s1 = builder.state();

            let mut site: Option<CallSite> = None;
            std::mem::swap(&mut site, &mut sites[bb]);
            match site {
                None => {},
                Some(c) => {
                    assert(Some(c) == sites0[bb as int]);
                    assert(builder.state().terms.len() == sites0.len());
                    assert(builder.state().terms[bb as int] == initial_state(body0).terms[bb as int]);
                    assert(c.mask.param_count > 0 ==> returning_term(initial_state(body0).terms, bb as int));
                    let CallSite { span, callee, mask, tie, links } = c;
                    apply_tie(span, tie, ret, &mut permitted_leaks, &mut diags);
                    let enb_local = builder.ensure_not_borrowed_at(bb);
                    let ghost s2 = builder.state();
                    assert(s2.terms == s1.terms);
                    assert(s1.terms.len() == initial_state(body0).terms.len());
                    assert(s1.terms[bb as int] == initial_state(body0).terms[bb as int]);
                    assert(mask.param_count > 0 ==> returning_term(s2.terms, bb as int));
                    let ghost base = s2.locals.len();
                    let mut tied_locals: Vec<usize> = Vec::new();
                    let mut i: u32 = 0;
                    while i < mask.param_count
                        invariant
                            i <= mask.param_count,
                            builder.wf(),
                            builder.body.basic_blocks@.len() == bb_count,
                            builder.body.span == body0.span,
                            bb < bb_count,
                            mask.param_count > 0 ==> returning_term(s2.terms, bb as int),
                            builder.state() == ties_state(s2, bb as int, mask, i as nat),
                            builder.state().locals.len() == base + 4 * i,
                            builder.state().terms.len() == s2.terms.len(),
                            forall|j: int| 0 <= j < s2.terms.len() && j != bb ==> builder.state().terms[j] == s2.terms[j],
                            returning_term(s2.terms, bb as int) ==> returning_term(builder.state().terms, bb as int),
                            tied_locals@ == Seq::new(i as nat, |k: int| (base + 4 * k + 2) as usize),
                        decreases mask.param_count - i,
                    {
                        let ghost before = builder.state();
                        assert(before.locals.len() == base + 4 * i);
                        assert(before.locals == builder.body.local_decls@);
                        let local = builder.tie_token_to_function_return(bb, mask, i);
                        assert(local == before.locals.len() + 2);
                        assert(local == base + 4 * i + 2);
                        tied_locals.push(local);
                        i = i + 1;
                        assert(builder.state() == ties_state(s2, bb as int, mask, i as nat));
                        assert(tied_locals@ =~= Seq::new(i as nat, |k: int| (base + 4 * k + 2) as usize));
                    }
                    calls.push(TemplateCall {
                        span,
                        callee,
                        prevent_call_local: enb_local,
                        tied_locals,
                        links,
                    });
                    assert(calls_view(calls@) =~= next.calls);
                },
            }
            bb = bb + 1;
        }
        let _n_locals = builder.body.local_decls.len();
        proof {
            lemma_template_locals_are_tokens(body0, sites0, *ret);
            lemma_template_keeps_original_statements(body0, sites0, *ret);
        }
        let facts = BodyTemplateFacts { permitted_leaks, calls, yield_locals };
        let body = builder.finish();
        (facts, body, diags)
    }
}

/// Local `l` of `locals` is a token: a `&mut ()` the builder made.
pub open spec fn is_token_local(locals: Seq<LocalTy>, l: usize) -> bool {
    l < locals.len() && locals[l as int] == LocalTy::UnitRefMut
}

/// Every local a template names is a token: the local borrowed before each call, the
/// locals tied to each call's result and the locals held across yields.
pub open spec fn template_locals_are_tokens(sc: TemplateScan) -> bool {
    &&& forall|c: int| 0 <= c < sc.calls.len() ==> is_token_local(sc.state.locals, (#[trigger] sc.calls[c]).2)
    &&& forall|c: int, k: int| 0 <= c < sc.calls.len() && 0 <= k < sc.calls[c].3.len()
        ==> is_token_local(sc.state.locals, #[trigger] sc.calls[c].3[k])
    &&& forall|y: int| 0 <= y < sc.yields.len() ==> is_token_local(sc.state.locals, #[trigger] sc.yields[y])
}

proof fn lemma_ties_locals(s: BuilderState, bb: int, call: FunctionCallAndRegions, k: nat)
    ensures
        ties_state(s, bb, call, k).locals.len() == s.locals.len() + 4 * k,
        ties_state(s, bb, call, k).locals.take(s.locals.len() as int) == s.locals,
        forall|i: int| 0 <= i < k ==> #[trigger] ties_state(s, bb, call, k).locals[s.locals.len() + 4 * i + 2] == LocalTy::UnitRefMut,
    decreases k,
{
    if k > 0 {
        lemma_ties_locals(s, bb, call, (k - 1) as nat);
        let prev = ties_state(s, bb, call, (k - 1) as nat);
        let cur = ties_state(s, bb, call, k);
        assert(cur.locals == prev.locals.push(LocalTy::Erased(call.erased)).push(LocalTy::TokenBinder(call.erased))
            .push(LocalTy::UnitRefMut).push(LocalTy::UnitRef));
        assert(cur.locals.take(s.locals.len() as int) =~= prev.locals.take(s.locals.len() as int));
        assert forall|i: int| 0 <= i < k implies #[trigger] cur.locals[s.locals.len() + 4 * i + 2] == LocalTy::UnitRefMut by {
            if i < k - 1 {
                assert(prev.locals[s.locals.len() + 4 * i + 2] == LocalTy::UnitRefMut);
            }
        }
    }
}

/// One more block keeps the locals so far and adds its own.
proof fn lemma_scan_step_locals(s: BuilderState, sites: Seq<Option<CallSite>>, ret: ReturnRegions, n: nat)
    requires
        0 < n <= sites.len(),
    ensures
        scan_blocks(s, sites, ret, n).state.locals.take(scan_blocks(s, sites, ret, (n - 1) as nat).state.locals.len() as int)
            == scan_blocks(s, sites, ret, (n - 1) as nat).state.locals,
        scan_blocks(s, sites, ret, n).state.locals.len() >= scan_blocks(s, sites, ret, (n - 1) as nat).state.locals.len(),
{
    let prev = scan_blocks(s, sites, ret, (n - 1) as nat);
    let cur = scan_blocks(s, sites, ret, n);
    let bb = (n - 1) as int;
    let pl = prev.state.locals;
    let is_yield = prev.state.terms[bb] matches Some(t) && t.kind is Yield;
    let s1 = if is_yield { enb_state(prev.state, bb) } else { prev.state };
    assert(s1.locals.take(pl.len() as int) =~= pl);
    match sites[bb] {
        None => {
            assert(cur.state == s1);
        },
        Some(c) => {
            let s2 = enb_state(s1, bb);
            lemma_ties_locals(s2, bb, c.mask, c.mask.param_count as nat);
            let fin = ties_state(s2, bb, c.mask, c.mask.param_count as nat);
            assert(cur.state == fin);
            assert(fin.locals.take(pl.len() as int) =~= pl) by {
                assert(fin.locals.take(s2.locals.len() as int) == s2.locals);
                assert(fin.locals.take(pl.len() as int) =~= s2.locals.take(pl.len() as int));
                assert(s2.locals.take(pl.len() as int) =~= s1.locals.take(pl.len() as int));
            }
        },
    }
}

proof fn lemma_scan_tokens(s: BuilderState, sites: Seq<Option<CallSite>>, ret: ReturnRegions, n: nat)
    requires
        n <= sites.len(),
        scan_blocks(s, sites, ret, n).state.locals.len() <= usize::MAX,
    ensures
        template_locals_are_tokens(scan_blocks(s, sites, ret, n)),
    decreases n,
{
    if n > 0 {
        lemma_scan_step_locals(s, sites, ret, n);
        lemma_scan_tokens(s, sites, ret, (n - 1) as nat);
        let prev = scan_blocks(s, sites, ret, (n - 1) as nat);
        let cur = scan_blocks(s, sites, ret, n);
        let bb = (n - 1) as int;
        let pl = prev.state.locals;
        let fl = cur.state.locals;
        let is_yield = prev.state.terms[bb] matches Some(t) && t.kind is Yield;
        let s1 = if is_yield { enb_state(prev.state, bb) } else { prev.state };
        assert(s1.locals.take(pl.len() as int) =~= pl);
        assert(is_yield ==> s1.locals[pl.len() as int] == LocalTy::UnitRefMut);
        assert forall|x: usize| is_token_local(pl, x) implies is_token_local(fl, x) by {
            assert(fl.take(pl.len() as int)[x as int] == pl[x as int]);
        }
        match sites[bb] {
            None => {
                assert(cur.state == s1);
                assert(cur.calls == prev.calls);
                assert forall|c: int| 0 <= c < cur.calls.len() implies is_token_local(cur.state.locals, (#[trigger] cur.calls[c]).2) by {
                    assert(is_token_local(pl, prev.calls[c].2));
                }
                assert forall|c: int, k: int| 0 <= c < cur.calls.len() && 0 <= k < cur.calls[c].3.len()
                    implies is_token_local(cur.state.locals, #[trigger] cur.calls[c].3[k]) by {
                    assert(is_token_local(pl, prev.calls[c].3[k]));
                }
                assert forall|y: int| 0 <= y < cur.yields.len() implies is_token_local(cur.state.locals, #[trigger] cur.yields[y]) by {
                    if y < prev.yields.len() {
                        assert(is_token_local(pl, prev.yields[y]));
                    }
                }
            },
            Some(site) => {
                let s2 = enb_state(s1, bb);
                let pc = site.mask.param_count as nat;
                lemma_ties_locals(s2, bb, site.mask, pc);
                let fin = ties_state(s2, bb, site.mask, pc);
                assert(cur.state == fin);
                let base = s2.locals.len();
                assert(fl.take(s2.locals.len() as int) == s2.locals);
                assert(fl.take(s2.locals.len() as int)[s1.locals.len() as int] == s2.locals[s1.locals.len() as int]);
                assert(cur.calls == prev.calls.push((
                    site.span,
                    site.callee,
                    s1.locals.len() as usize,
                    Seq::new(pc, |i: int| (base + 4 * i + 2) as usize),
                    site.links,
                )));
                assert forall|c: int| 0 <= c < cur.calls.len() implies is_token_local(cur.state.locals, (#[trigger] cur.calls[c]).2) by {
                    if c < prev.calls.len() {
                        assert(is_token_local(pl, prev.calls[c].2));
                    }
                }
                assert forall|c: int, k: int| 0 <= c < cur.calls.len() && 0 <= k < cur.calls[c].3.len()
                    implies is_token_local(cur.state.locals, #[trigger] cur.calls[c].3[k]) by {
                    if c < prev.calls.len() {
                        assert(is_token_local(pl, prev.calls[c].3[k]));
                    } else {
                        assert(fl[base + 4 * k + 2] == LocalTy::UnitRefMut);
                    }
                }
                assert forall|y: int| 0 <= y < cur.yields.len() implies is_token_local(cur.state.locals, #[trigger] cur.yields[y]) by {
                    if y < prev.yields.len() {
                        assert(is_token_local(pl, prev.yields[y]));
                    } else {
                        assert(fl.take(s2.locals.len() as int)[pl.len() as int] == s2.locals[pl.len() as int]);
                    }
                }
            },
        }
    }
}

/// Every local named by the template of a body (the guard before each call, the locals
/// tied to each call's result, those held across yields) is a token local of the
/// rewritten body.
pub proof fn lemma_template_locals_are_tokens(body: MirBody, sites: Seq<Option<CallSite>>, ret: ReturnRegions)
    requires
        sites.len() == body.basic_blocks@.len(),
        scan_blocks(initial_state(body), sites, ret, sites.len()).state.locals.len() <= usize::MAX,
    ensures
        template_locals_are_tokens(scan_blocks(initial_state(body), sites, ret, sites.len())),
{
    lemma_scan_tokens(initial_state(body), sites, ret, sites.len());
}

/// `part` occurs in `whole` as a contiguous run.
pub open spec fn occurs_in(whole: Seq<Statement>, part: Seq<Statement>) -> bool {
    exists|i: int| 0 <= i && i + part.len() <= whole.len() && #[trigger] whole.subrange(i, i + part.len()) == part
}

/// Each block of `stmts` still holds the statements of the same block of `orig`, in
/// order and together.
pub open spec fn keeps_original(stmts: Seq<Seq<Statement>>, orig: Seq<Seq<Statement>>) -> bool {
    &&& stmts.len() == orig.len()
    &&& forall|b: int| 0 <= b < orig.len() ==> occurs_in(#[trigger] stmts[b], orig[b])
}

proof fn lemma_occurs_extend(w: Seq<Statement>, p: Seq<Statement>, x: Seq<Statement>, y: Seq<Statement>)
    requires
        occurs_in(w, p),
    ensures
        occurs_in(x + w + y, p),
{
    let i = choose|i: int| 0 <= i && i + p.len() <= w.len() && #[trigger] w.subrange(i, i + p.len()) == p;
    let j = i + x.len();
    assert((x + w + y).subrange(j, j + p.len()) =~= w.subrange(i, i + p.len()));
}

proof fn lemma_flushed_keeps(stmts: Seq<Seq<Statement>>, orig: Seq<Seq<Statement>>, pending: Seq<Statement>, bb: int)
    requires
        keeps_original(stmts, orig),
        0 <= bb < stmts.len(),
    ensures
        keeps_original(flushed(stmts, pending, bb), orig),
{
    assert forall|b: int| 0 <= b < orig.len() implies occurs_in(#[trigger] flushed(stmts, pending, bb)[b], orig[b]) by {
        if b == bb {
            lemma_occurs_extend(stmts[b], orig[b], pending, Seq::empty());
            assert(pending + stmts[b] + Seq::<Statement>::empty() =~= flushed(stmts, pending, bb)[b]);
        }
    }
}

proof fn lemma_enb_keeps(s: BuilderState, bb: int, orig: Seq<Seq<Statement>>)
    requires
        keeps_original(s.stmts, orig),
        0 <= bb < s.stmts.len(),
    ensures
        keeps_original(enb_state(s, bb).stmts, orig),
{
    let t = enb_state(s, bb).stmts;
    assert forall|b: int| 0 <= b < orig.len() implies occurs_in(#[trigger] t[b], orig[b]) by {
        if b == bb {
            lemma_occurs_extend(s.stmts[b], orig[b], Seq::empty(), t[b].subrange(s.stmts[b].len() as int, t[b].len() as int));
            assert(Seq::<Statement>::empty() + s.stmts[b] + t[b].subrange(s.stmts[b].len() as int, t[b].len() as int) =~= t[b]);
        }
    }
}

proof fn lemma_ties_keep(s: BuilderState, bb: int, call: FunctionCallAndRegions, k: nat, orig: Seq<Seq<Statement>>)
    requires
        keeps_original(s.stmts, orig),
        0 <= s.pending_block < s.stmts.len(),
        k > 0 ==> returning_term(s.terms, bb),
        s.terms.len() == s.stmts.len(),
    ensures
        keeps_original(ties_state(s, bb, call, k).stmts, orig),
        0 <= ties_state(s, bb, call, k).pending_block < s.stmts.len(),
        ties_state(s, bb, call, k).terms.len() == s.terms.len(),
        k > 0 ==> returning_term(ties_state(s, bb, call, k).terms, bb),
    decreases k,
{
    if k > 0 {
        lemma_ties_keep(s, bb, call, (k - 1) as nat, orig);
        let p = ties_state(s, bb, call, (k - 1) as nat);
        assert(returning_term(p.terms, bb));
        let t = p.terms[bb]->Some_0;
        let target = t.kind->Call_target->Some_0;
        assert(0 <= target < p.stmts.len());
        let stmts = tie_statements(t.source_info, p.default_si, p.dangling, p.locals.len() as usize,
            p.annots.len() as usize, t.kind->Call_destination);
        if target == p.pending_block {
            lemma_flushed_keeps(p.stmts, orig, p.pending + stmts, target as int);
        } else {
            lemma_flushed_keeps(p.stmts, orig, p.pending, p.pending_block);
            lemma_flushed_keeps(flushed(p.stmts, p.pending, p.pending_block), orig, stmts, target as int);
        }
    }
}

proof fn lemma_scan_keeps(s: BuilderState, sites: Seq<Option<CallSite>>, ret: ReturnRegions, n: nat, orig: Seq<Seq<Statement>>)
    requires
        n <= sites.len(),
        keeps_original(s.stmts, orig),
        s.terms.len() == s.stmts.len(),
        0 <= s.pending_block < s.stmts.len(),
        forall|j: int| 0 <= j < sites.len() && (#[trigger] sites[j]) is Some
            && sites[j]->Some_0.mask.param_count > 0 ==> returning_term(s.terms, j),
        sites.len() == s.terms.len(),
    ensures
        keeps_original(scan_blocks(s, sites, ret, n).state.stmts, orig),
        scan_blocks(s, sites, ret, n).state.terms.len() == s.terms.len(),
        0 <= scan_blocks(s, sites, ret, n).state.pending_block < s.stmts.len(),
        forall|j: int| n <= j < s.terms.len() ==> scan_blocks(s, sites, ret, n).state.terms[j] == s.terms[j],
    decreases n,
{
    if n > 0 {
        lemma_scan_keeps(s, sites, ret, (n - 1) as nat, orig);
        let prev = scan_blocks(s, sites, ret, (n - 1) as nat);
        let bb = (n - 1) as int;
        let is_yield = prev.state.terms[bb] matches Some(t) && t.kind is Yield;
        let s1 = if is_yield { enb_state(prev.state, bb) } else { prev.state };
        if is_yield {
            lemma_enb_keeps(prev.state, bb, orig);
        }
        match sites[bb] {
            None => {},
            Some(c) => {
                let s2 = enb_state(s1, bb);
                lemma_enb_keeps(s1, bb, orig);
                let pc = c.mask.param_count as nat;
                assert(s2.terms[bb] == s.terms[bb]);
                lemma_ties_keep(s2, bb, c.mask, pc, orig);
                lemma_ties_terms(s2, bb, c.mask, pc);
            },
        }
    }
}

proof fn lemma_ties_terms(s: BuilderState, bb: int, call: FunctionCallAndRegions, k: nat)
    requires
        0 <= bb < s.terms.len(),
    ensures
        ties_state(s, bb, call, k).terms.len() == s.terms.len(),
        forall|j: int| 0 <= j < s.terms.len() && j != bb ==> ties_state(s, bb, call, k).terms[j] == s.terms[j],
    decreases k,
{
    if k > 0 {
        lemma_ties_terms(s, bb, call, (k - 1) as nat);
    }
}

/// Preparing a template never drops or reorders the statements of the original body:
/// each block of the rewritten body holds its original statements, in order and
/// together, with what the builder added around them.
pub proof fn lemma_template_keeps_original_statements(body: MirBody, sites: Seq<Option<CallSite>>, ret: ReturnRegions)
    requires
        body.basic_blocks@.len() > 0,
        sites.len() == body.basic_blocks@.len(),
        forall|bb: int| 0 <= bb < sites.len() && (#[trigger] sites[bb]) is Some
            && sites[bb]->Some_0.mask.param_count > 0 ==> returning_call(body.basic_blocks@, bb),
    ensures
        ({
            let sc = scan_blocks(initial_state(body), sites, ret, sites.len());
            keeps_original(flushed(sc.state.stmts, sc.state.pending, sc.state.pending_block), block_stmts(body.basic_blocks@))
        }),
{
    let s = initial_state(body);
    let orig = block_stmts(body.basic_blocks@);
    assert forall|b: int| 0 <= b < orig.len() implies occurs_in(#[trigger] s.stmts[b], orig[b]) by {
        let i = 0int;
        assert(s.stmts[b].subrange(i, i + orig[b].len()) =~= orig[b]);
    }
    lemma_scan_keeps(s, sites, ret, sites.len(), orig);
    let sc = scan_blocks(s, sites, ret, sites.len());
    lemma_flushed_keeps(sc.state.stmts, orig, sc.state.pending, sc.state.pending_block);
}

} // verus!
