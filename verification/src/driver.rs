use vstd::prelude::*;
use crate::tokens::{BorrowMap, BorrowValue};
use crate::mutability::Mutability;
use crate::trace::{TraceFacts, TraceProgram, INFINITE_DEPTH, complete_facts, analyzable, acyclic, facts_follow_calls, facts_sound, grouped_facts};
use crate::overlap::{
    BodyTemplateFacts, BodyOverlapFacts, BorrowDiagnostic, template_effects, overlap_diags, leak_diags, bl_fold,
    permitted_set,
};

verus! {

/// What a function that must not borrow anything is being used as.
#[derive(Debug, Clone, Copy, PartialEq, Eq, Structural)]
pub enum Action {
    /// The crate's `main` function.
    UseAsMain,
    /// The `drop` method of a `Drop` impl.
    UseAsDestructor,
    /// A function unsized into a function pointer or trait object.
    Unsize,
    /// A function with a foreign ABI, callable from outside Rust.
    UseAsExtern,
}

/// A function that must not borrow tokens does: where, why it must not, the instance
/// and where it is defined, and each token it borrows with how.
pub struct NoBorrowError {
    pub span: u64,
    pub action: Action,
    pub instance: usize,
    pub instance_span: u64,
    pub tokens: Vec<(u64, Mutability)>,
}

pub open spec fn no_borrow_view(e: NoBorrowError) -> (u64, Action, usize, u64, Seq<(u64, Mutability)>) {
    (e.span, e.action, e.instance, e.instance_span, e.tokens@)
}

pub open spec fn errors_view(v: Seq<NoBorrowError>) -> Seq<(u64, Action, usize, u64, Seq<(u64, Mutability)>)> {
    Seq::new(v.len(), |i: int| no_borrow_view(v[i]))
}

/// The tokens of a borrow list with their mutabilities, in its order.
pub open spec fn borrow_keys(s: Seq<(u64, BorrowValue)>) -> Seq<(u64, Mutability)> {
    Seq::new(s.len(), |i: int| (s[i].0, s[i].1.0))
}

/// Where an instance is defined, as the crate records it (0 for an instance it does not list).
pub open spec fn def_span_of(fns: Seq<CrateFn>, instance: usize) -> u64 {
    if instance < fns.len() { fns[instance as int].def_span } else { 0 }
}

/// The error for using `instance` as `action` at `span`, if it borrows anything.
pub open spec fn no_borrow_check(facts: Seq<Option<BorrowMap>>, fns: Seq<CrateFn>, instance: usize, span: u64, action: Action)
    -> Seq<(u64, Action, usize, u64, Seq<(u64, Mutability)>)>
{
    if instance < facts.len() && facts[instance as int] is Some && facts[instance as int]->Some_0.entries@.len() > 0 {
        seq![(span, action, instance, def_span_of(fns, instance), borrow_keys(facts[instance as int]->Some_0.entries@))]
    } else {
        Seq::empty()
    }
}

/// The checks for the functions a function unsizes.
pub open spec fn unsize_checks(facts: Seq<Option<BorrowMap>>, fns: Seq<CrateFn>, unsized_fns: Seq<(u64, usize)>)
    -> Seq<(u64, Action, usize, u64, Seq<(u64, Mutability)>)>
    decreases unsized_fns.len(),
{
    if unsized_fns.len() == 0 {
        Seq::empty()
    } else {
        unsize_checks(facts, fns, unsized_fns.drop_last())
            + no_borrow_check(facts, fns, unsized_fns.last().1, unsized_fns.last().0, Action::Unsize)
    }
}

/// What the crate says of each function instance: where it is defined, whether it is
/// a destructor, whether it has a foreign ABI, and the functions its body unsizes,
/// with where.
pub struct CrateFn {
    pub def_span: u64,
    pub is_drop: bool,
    pub is_extern: bool,
    pub unsized_fns: Vec<(u64, usize)>,
}

/// The checks of one analyzed instance: as the entry point, as a destructor, as an
/// `extern` function, and of each function it unsizes.
pub open spec fn instance_checks(facts: Seq<Option<BorrowMap>>, fns: Seq<CrateFn>, entry: Option<usize>, i: usize, f: CrateFn)
    -> Seq<(u64, Action, usize, u64, Seq<(u64, Mutability)>)>
{
    (if entry == Some(i) { no_borrow_check(facts, fns, i, f.def_span, Action::UseAsMain) } else { Seq::empty() })
        + (if f.is_drop { no_borrow_check(facts, fns, i, f.def_span, Action::UseAsDestructor) } else { Seq::empty() })
        + (if f.is_extern { no_borrow_check(facts, fns, i, f.def_span, Action::UseAsExtern) } else { Seq::empty() })
        + unsize_checks(facts, fns, f.unsized_fns@)
}

/// The checks of the first `n` instances that were analyzed.
pub open spec fn crate_checks(facts: Seq<Option<BorrowMap>>, entry: Option<usize>, fns: Seq<CrateFn>, n: int)
    -> Seq<(u64, Action, usize, u64, Seq<(u64, Mutability)>)>
    decreases n,
{
    if n <= 0 {
        Seq::empty()
    } else {
        crate_checks(facts, entry, fns, n - 1) + if facts[n - 1] is Some {
            instance_checks(facts, fns, entry, (n - 1) as usize, fns[n - 1])
        } else {
            Seq::empty()
        }
    }
}

/// The error for using `instance` as `action` at `span` when it borrows tokens.
pub open spec fn no_borrow_error(facts: Seq<Option<BorrowMap>>, fns: Seq<CrateFn>, instance: usize, span: u64, action: Action)
    -> (u64, Action, usize, u64, Seq<(u64, Mutability)>)
{
    (span, action, instance, def_span_of(fns, instance), borrow_keys(facts[instance as int]->Some_0.entries@))
}

/// An instance that has borrows is refused wherever it may not have any.
proof fn lemma_no_borrow_check_has(facts: Seq<Option<BorrowMap>>, fns: Seq<CrateFn>, instance: usize, span: u64, action: Action)
    requires
        instance < facts.len(),
        facts[instance as int] is Some,
        facts[instance as int]->Some_0.entries@.len() > 0,
    ensures
        no_borrow_check(facts, fns, instance, span, action).contains(no_borrow_error(facts, fns, instance, span, action)),
{
    assert(no_borrow_check(facts, fns, instance, span, action)[0] == no_borrow_error(facts, fns, instance, span, action));
}

/// What the checks of the first `n` instances report stays among those of later ones.
proof fn lemma_crate_checks_grow(facts: Seq<Option<BorrowMap>>, entry: Option<usize>, fns: Seq<CrateFn>, m: int, n: int,
    e: (u64, Action, usize, u64, Seq<(u64, Mutability)>))
    requires
        0 <= m <= n,
        crate_checks(facts, entry, fns, m).contains(e),
    ensures
        crate_checks(facts, entry, fns, n).contains(e),
    decreases n - m,
{
    if m < n {
        lemma_crate_checks_grow(facts, entry, fns, m, n - 1, e);
        let pre = crate_checks(facts, entry, fns, n - 1);
        let w = choose|w: int| 0 <= w < pre.len() && pre[w] == e;
        assert(crate_checks(facts, entry, fns, n)[w] == e);
    }
}

/// The checks of instance `i`'s own uses are among those of the crate.
proof fn lemma_instance_checks_in_crate(facts: Seq<Option<BorrowMap>>, entry: Option<usize>, fns: Seq<CrateFn>, i: int,
    e: (u64, Action, usize, u64, Seq<(u64, Mutability)>))
    requires
        0 <= i < fns.len(),
        i < facts.len(),
        facts[i] is Some,
        instance_checks(facts, fns, entry, i as usize, fns[i]).contains(e),
    ensures
        crate_checks(facts, entry, fns, fns.len() as int).contains(e),
{
    let pre = crate_checks(facts, entry, fns, i);
    let ic = instance_checks(facts, fns, entry, i as usize, fns[i]);
    assert(crate_checks(facts, entry, fns, i + 1) == pre + ic);
    let w = choose|w: int| 0 <= w < ic.len() && ic[w] == e;
    assert(crate_checks(facts, entry, fns, i + 1)[pre.len() + w] == e);
    lemma_crate_checks_grow(facts, entry, fns, i + 1, fns.len() as int, e);
}

/// Every analyzed instance that borrows tokens is refused as the entry point, as a
/// destructor and as an `extern` function, where it is one, at its definition, with
/// every token it borrows and how.
pub proof fn lemma_refused_uses_reported(facts: Seq<Option<BorrowMap>>, entry: Option<usize>, fns: Seq<CrateFn>, i: usize)
    requires
        0 <= i < fns.len(),
        i < facts.len(),
        facts[i as int] is Some,
        facts[i as int]->Some_0.entries@.len() > 0,
    ensures
        entry == Some(i) ==> crate_checks(facts, entry, fns, fns.len() as int).contains(
            no_borrow_error(facts, fns, i, fns[i as int].def_span, Action::UseAsMain)),
        fns[i as int].is_drop ==> crate_checks(facts, entry, fns, fns.len() as int).contains(
            no_borrow_error(facts, fns, i, fns[i as int].def_span, Action::UseAsDestructor)),
        fns[i as int].is_extern ==> crate_checks(facts, entry, fns, fns.len() as int).contains(
            no_borrow_error(facts, fns, i, fns[i as int].def_span, Action::UseAsExtern)),
{
    let f = fns[i as int];
    let iu = i;
    let a = if entry == Some(iu) { no_borrow_check(facts, fns, iu, f.def_span, Action::UseAsMain) } else { Seq::empty() };
    let b = if f.is_drop { no_borrow_check(facts, fns, iu, f.def_span, Action::UseAsDestructor) } else { Seq::empty() };
    let c = if f.is_extern { no_borrow_check(facts, fns, iu, f.def_span, Action::UseAsExtern) } else { Seq::empty() };
    let u = unsize_checks(facts, fns, f.unsized_fns@);
    let ic = instance_checks(facts, fns, entry, iu, f);
    assert(ic == a + b + c + u);
    if entry == Some(iu) {
        lemma_no_borrow_check_has(facts, fns, iu, f.def_span, Action::UseAsMain);
        let e = no_borrow_error(facts, fns, iu, f.def_span, Action::UseAsMain);
        let w = choose|w: int| 0 <= w < a.len() && a[w] == e;
        assert(ic[w] == e);
        lemma_instance_checks_in_crate(facts, entry, fns, i as int, e);
    }
    if f.is_drop {
        lemma_no_borrow_check_has(facts, fns, iu, f.def_span, Action::UseAsDestructor);
        let e = no_borrow_error(facts, fns, iu, f.def_span, Action::UseAsDestructor);
        let w = choose|w: int| 0 <= w < b.len() && b[w] == e;
        assert(ic[a.len() + w] == e);
        lemma_instance_checks_in_crate(facts, entry, fns, i as int, e);
    }
    if f.is_extern {
        lemma_no_borrow_check_has(facts, fns, iu, f.def_span, Action::UseAsExtern);
        let e = no_borrow_error(facts, fns, iu, f.def_span, Action::UseAsExtern);
        let w = choose|w: int| 0 <= w < c.len() && c[w] == e;
        assert(ic[a.len() + b.len() + w] == e);
        lemma_instance_checks_in_crate(facts, entry, fns, i as int, e);
    }
}

/// The unsize checks of a list refuse each listed function that borrows tokens.
proof fn lemma_unsize_checks_has(facts: Seq<Option<BorrowMap>>, fns: Seq<CrateFn>, us: Seq<(u64, usize)>, k: int)
    requires
        0 <= k < us.len(),
        us[k].1 < facts.len(),
        facts[us[k].1 as int] is Some,
        facts[us[k].1 as int]->Some_0.entries@.len() > 0,
    ensures
        unsize_checks(facts, fns, us).contains(no_borrow_error(facts, fns, us[k].1, us[k].0, Action::Unsize)),
    decreases us.len(),
{
    let e = no_borrow_error(facts, fns, us[k].1, us[k].0, Action::Unsize);
    let all = unsize_checks(facts, fns, us);
    let pre = unsize_checks(facts, fns, us.drop_last());
    let last = no_borrow_check(facts, fns, us.last().1, us.last().0, Action::Unsize);
    assert(all == pre + last);
    if k == us.len() - 1 {
        lemma_no_borrow_check_has(facts, fns, us.last().1, us.last().0, Action::Unsize);
        let w = choose|w: int| 0 <= w < last.len() && last[w] == e;
        assert(all[pre.len() + w] == e);
    } else {
        assert(us.drop_last()[k] == us[k]);
        lemma_unsize_checks_has(facts, fns, us.drop_last(), k);
        let w = choose|w: int| 0 <= w < pre.len() && pre[w] == e;
        assert(all[w] == e);
    }
}

/// Every function an analyzed instance unsizes that borrows tokens is refused at the
/// place it is unsized, with every token it borrows and how.
pub proof fn lemma_unsized_reported(facts: Seq<Option<BorrowMap>>, entry: Option<usize>, fns: Seq<CrateFn>, i: usize, k: int)
    requires
        0 <= i < fns.len(),
        i < facts.len(),
        facts[i as int] is Some,
        0 <= k < fns[i as int].unsized_fns@.len(),
        fns[i as int].unsized_fns@[k].1 < facts.len(),
        facts[fns[i as int].unsized_fns@[k].1 as int] is Some,
        facts[fns[i as int].unsized_fns@[k].1 as int]->Some_0.entries@.len() > 0,
    ensures
        crate_checks(facts, entry, fns, fns.len() as int).contains(
            no_borrow_error(facts, fns, fns[i as int].unsized_fns@[k].1, fns[i as int].unsized_fns@[k].0, Action::Unsize)),
{
    let f = fns[i as int];
    let iu = i;
    let us = f.unsized_fns@;
    let e = no_borrow_error(facts, fns, us[k].1, us[k].0, Action::Unsize);
    lemma_unsize_checks_has(facts, fns, us, k);
    let a = if entry == Some(iu) { no_borrow_check(facts, fns, iu, f.def_span, Action::UseAsMain) } else { Seq::empty() };
    let b = if f.is_drop { no_borrow_check(facts, fns, iu, f.def_span, Action::UseAsDestructor) } else { Seq::empty() };
    let c = if f.is_extern { no_borrow_check(facts, fns, iu, f.def_span, Action::UseAsExtern) } else { Seq::empty() };
    let u = unsize_checks(facts, fns, us);
    let ic = instance_checks(facts, fns, entry, iu, f);
    assert(ic == a + b + c + u);
    let w = choose|w: int| 0 <= w < u.len() && u[w] == e;
    assert(ic[a.len() + b.len() + c.len() + w] == e);
    lemma_instance_checks_in_crate(facts, entry, fns, i as int, e);
}

/// What justifies a reported error: the instance was analyzed and borrows tokens,
/// the error lists exactly those tokens, and the instance is used in the way the
/// error names, at the place it names.
pub open spec fn error_justified(facts: Seq<Option<BorrowMap>>, entry: Option<usize>, fns: Seq<CrateFn>,
    e: (u64, Action, usize, u64, Seq<(u64, Mutability)>)) -> bool
{
    &&& e.2 < facts.len()
    &&& facts[e.2 as int] is Some
    &&& facts[e.2 as int]->Some_0.entries@.len() > 0
    &&& e.4 == borrow_keys(facts[e.2 as int]->Some_0.entries@)
    &&& e.3 == def_span_of(fns, e.2)
    &&& e.1 == Action::UseAsMain ==> entry == Some(e.2) && e.2 < fns.len() && e.0 == fns[e.2 as int].def_span
    &&& e.1 == Action::UseAsDestructor ==> e.2 < fns.len() && fns[e.2 as int].is_drop && e.0 == fns[e.2 as int].def_span
    &&& e.1 == Action::UseAsExtern ==> e.2 < fns.len() && fns[e.2 as int].is_extern && e.0 == fns[e.2 as int].def_span
    &&& e.1 == Action::Unsize ==> exists|j: int, k: int| 0 <= j < fns.len() && j < facts.len() && #[trigger] facts[j] is Some
        && 0 <= k < fns[j].unsized_fns@.len() && #[trigger] fns[j].unsized_fns@[k] == (e.0, e.2)
}

proof fn lemma_no_borrow_check_only(facts: Seq<Option<BorrowMap>>, fns: Seq<CrateFn>, instance: usize, span: u64, action: Action,
    e: (u64, Action, usize, u64, Seq<(u64, Mutability)>))
    requires
        no_borrow_check(facts, fns, instance, span, action).contains(e),
    ensures
        e == no_borrow_error(facts, fns, instance, span, action),
        instance < facts.len(),
        facts[instance as int] is Some,
        facts[instance as int]->Some_0.entries@.len() > 0,
{
}

proof fn lemma_unsize_checks_only(facts: Seq<Option<BorrowMap>>, fns: Seq<CrateFn>, us: Seq<(u64, usize)>,
    e: (u64, Action, usize, u64, Seq<(u64, Mutability)>))
    requires
        unsize_checks(facts, fns, us).contains(e),
    ensures
        exists|k: int| 0 <= k < us.len() && #[trigger] us[k] == (e.0, e.2)
            && e == no_borrow_error(facts, fns, us[k].1, us[k].0, Action::Unsize)
            && us[k].1 < facts.len() && facts[us[k].1 as int] is Some
            && facts[us[k].1 as int]->Some_0.entries@.len() > 0,
    decreases us.len(),
{
    let pre = unsize_checks(facts, fns, us.drop_last());
    let last = no_borrow_check(facts, fns, us.last().1, us.last().0, Action::Unsize);
    assert(unsize_checks(facts, fns, us) == pre + last);
    let w = choose|w: int| 0 <= w < (pre + last).len() && (pre + last)[w] == e;
    if w < pre.len() {
        assert(pre[w] == e);
        lemma_unsize_checks_only(facts, fns, us.drop_last(), e);
        let k = choose|k: int| 0 <= k < us.drop_last().len() && #[trigger] us.drop_last()[k] == (e.0, e.2)
            && e == no_borrow_error(facts, fns, us.drop_last()[k].1, us.drop_last()[k].0, Action::Unsize)
            && us.drop_last()[k].1 < facts.len() && facts[us.drop_last()[k].1 as int] is Some
            && facts[us.drop_last()[k].1 as int]->Some_0.entries@.len() > 0;
        assert(us[k] == us.drop_last()[k]);
    } else {
        assert(last[w - pre.len()] == e);
        lemma_no_borrow_check_only(facts, fns, us.last().1, us.last().0, Action::Unsize, e);
        assert(us[us.len() - 1] == (e.0, e.2));
    }
}

proof fn lemma_instance_checks_only(facts: Seq<Option<BorrowMap>>, entry: Option<usize>, fns: Seq<CrateFn>, i: int,
    e: (u64, Action, usize, u64, Seq<(u64, Mutability)>))
    requires
        0 <= i < fns.len(),
        i <= usize::MAX,
        i < facts.len(),
        facts[i] is Some,
        instance_checks(facts, fns, entry, i as usize, fns[i]).contains(e),
    ensures
        error_justified(facts, entry, fns, e),
{
    let f = fns[i];
    let iu = i as usize;
    let a = if entry == Some(iu) { no_borrow_check(facts, fns, iu, f.def_span, Action::UseAsMain) } else { Seq::empty() };
    let b = if f.is_drop { no_borrow_check(facts, fns, iu, f.def_span, Action::UseAsDestructor) } else { Seq::empty() };
    let c = if f.is_extern { no_borrow_check(facts, fns, iu, f.def_span, Action::UseAsExtern) } else { Seq::empty() };
    let u = unsize_checks(facts, fns, f.unsized_fns@);
    let ic = instance_checks(facts, fns, entry, iu, f);
    assert(ic == a + b + c + u);
    let w = choose|w: int| 0 <= w < ic.len() && ic[w] == e;
    if w < a.len() {
        assert(a[w] == e);
        lemma_no_borrow_check_only(facts, fns, iu, f.def_span, Action::UseAsMain, e);
    } else if w < a.len() + b.len() {
        assert(b[w - a.len()] == e);
        lemma_no_borrow_check_only(facts, fns, iu, f.def_span, Action::UseAsDestructor, e);
    } else if w < a.len() + b.len() + c.len() {
        assert(c[w - a.len() - b.len()] == e);
        lemma_no_borrow_check_only(facts, fns, iu, f.def_span, Action::UseAsExtern, e);
    } else {
        assert(u[w - a.len() - b.len() - c.len()] == e);
        lemma_unsize_checks_only(facts, fns, f.unsized_fns@, e);
        let k = choose|k: int| 0 <= k < f.unsized_fns@.len() && #[trigger] f.unsized_fns@[k] == (e.0, e.2)
            && e == no_borrow_error(facts, fns, f.unsized_fns@[k].1, f.unsized_fns@[k].0, Action::Unsize)
            && f.unsized_fns@[k].1 < facts.len() && facts[f.unsized_fns@[k].1 as int] is Some
            && facts[f.unsized_fns@[k].1 as int]->Some_0.entries@.len() > 0;
        assert(fns[i].unsized_fns@[k] == (e.0, e.2));
        assert(facts[i] is Some);
        assert(exists|j: int, k: int| 0 <= j < fns.len() && j < facts.len() && #[trigger] facts[j] is Some
            && 0 <= k < fns[j].unsized_fns@.len() && #[trigger] fns[j].unsized_fns@[k] == (e.0, e.2));
    }
}

/// Every error the crate check reports is owed: it names an analyzed instance that
/// borrows tokens, lists exactly those tokens, and the instance is the entry point,
/// a destructor or an `extern` function at its definition, or is unsized by an
/// analyzed instance at the place the error names.
pub proof fn lemma_reported_uses_refused(facts: Seq<Option<BorrowMap>>, entry: Option<usize>, fns: Seq<CrateFn>, n: int,
    e: (u64, Action, usize, u64, Seq<(u64, Mutability)>))
    requires
        0 <= n <= fns.len(),
        n <= facts.len(),
        fns.len() <= usize::MAX,
        crate_checks(facts, entry, fns, n).contains(e),
    ensures
        error_justified(facts, entry, fns, e),
    decreases n,
{
    if n > 0 {
        let pre = crate_checks(facts, entry, fns, n - 1);
        let ic = if facts[n - 1] is Some { instance_checks(facts, fns, entry, (n - 1) as usize, fns[n - 1]) } else { Seq::empty() };
        assert(crate_checks(facts, entry, fns, n) == pre + ic);
        let w = choose|w: int| 0 <= w < (pre + ic).len() && (pre + ic)[w] == e;
        if w < pre.len() {
            assert(pre[w] == e);
            lemma_reported_uses_refused(facts, entry, fns, n - 1, e);
        } else {
            assert(ic[w - pre.len()] == e);
            lemma_instance_checks_only(facts, entry, fns, n - 1, e);
        }
    }
}

/// The diagnostics of validating one instance against its template.
pub open spec fn template_diags(facts: Seq<Option<BorrowMap>>, t: BodyTemplateFacts, o: BodyOverlapFacts) -> Seq<BorrowDiagnostic> {
    let eff = template_effects(t.calls@, facts);
    eff.1 + overlap_diags(o.borrows@, o.overlaps@, bl_fold(eff.0), t.yield_locals@)
        + leak_diags(bl_fold(eff.0), permitted_set(t.permitted_leaks@), o.leaked_local_def_spans@, o.leaked_locals@)
}

/// The validation diagnostics of the first `n` instances that were analyzed.
pub open spec fn crate_validation(facts: Seq<Option<BorrowMap>>, templates: Seq<Option<(BodyTemplateFacts, BodyOverlapFacts)>>, n: int) -> Seq<BorrowDiagnostic>
    decreases n,
{
    if n <= 0 {
        Seq::empty()
    } else {
        crate_validation(facts, templates, n - 1) + if facts[n - 1] is Some && templates[n - 1] is Some {
            template_diags(facts, templates[n - 1]->Some_0.0, templates[n - 1]->Some_0.1)
        } else {
            Seq::empty()
        }
    }
}

/// Every template can be validated.
pub open spec fn templates_ok(templates: Seq<Option<(BodyTemplateFacts, BodyOverlapFacts)>>) -> bool {
    forall|i: int| 0 <= i < templates.len() && #[trigger] templates[i] is Some ==> {
        &&& templates[i]->Some_0.0.calls_ok()
        &&& templates[i]->Some_0.1.wf()
    }
}

/// The result of checking a crate.
pub struct CrateReport {
    pub facts: TraceFacts,
    pub no_borrow_errors: Vec<NoBorrowError>,
    pub borrow_errors: Vec<BorrowDiagnostic>,
}

/// The borrowed tokens of a fact list with their mutabilities, in its order.
fn keys_of(m: &BorrowMap) -> (r: Vec<(u64, Mutability)>)
    ensures
        r@ == borrow_keys(m.entries@),
{
    let mut r: Vec<(u64, Mutability)> = Vec::new();
    for i in 0..m.entries.len()
        invariant
            r@ == borrow_keys(m.entries@.take(i as int)),
    {
        r.push((m.entries[i].0, m.entries[i].1.0));
        assert(r@ =~= borrow_keys(m.entries@.take(i + 1)));
    }
    assert(m.entries@.take(m.entries@.len() as int) =~= m.entries@);
    r
}

/// Reports using `instance` as `action` at `span` when it borrows anything.
pub fn ensure_no_borrow(trace: &TraceFacts, fns: &Vec<CrateFn>, instance: usize, span: u64, action: Action, errors: &mut Vec<NoBorrowError>)
    ensures
        errors_view(final(errors)@) == errors_view(old(errors)@) + no_borrow_check(trace.facts@, fns@, instance, span, action),
{
    if instance < trace.facts.len() {
        match &trace.facts[instance] {
            Some(m) => {
                if m.entries.len() > 0 {
                    let tokens = keys_of(m);
                    let instance_span = if instance < fns.len() { fns[instance].def_span } else { 0 };
                    errors.push(NoBorrowError { span, action, instance, instance_span, tokens });
                    assert(errors_view(errors@) =~= errors_view(old(errors)@) + no_borrow_check(trace.facts@, fns@, instance, span, action));
                    return;
                }
            },
            None => {},
        }
    }
    assert(errors_view(errors@) =~= errors_view(old(errors)@) + no_borrow_check(trace.facts@, fns@, instance, span, action));
}

/// Reports the refused uses of the analyzed instance `i`: as the entry point, as a
/// destructor, as an `extern` function, and of each function it unsizes.
fn check_instance(trace: &TraceFacts, fns: &Vec<CrateFn>, entry: Option<usize>, i: usize, errors: &mut Vec<NoBorrowError>)
    requires
        i < fns@.len(),
    ensures
        errors_view(final(errors)@) == errors_view(old(errors)@) + instance_checks(trace.facts@, fns@, entry, i, fns@[i as int]),
{
    let ghost facts = trace.facts@;
    let ghost e0 = errors_view(errors@);
    let f = &fns[i];
    match entry {
        Some(e) => {
            if e == i {
                ensure_no_borrow(trace, fns, i, f.def_span, Action::UseAsMain, errors);
            }
        },
        None => {},
    }
    if f.is_drop {
        ensure_no_borrow(trace, fns, i, f.def_span, Action::UseAsDestructor, errors);
    }
    if f.is_extern {
        ensure_no_borrow(trace, fns, i, f.def_span, Action::UseAsExtern, errors);
    }
    let ghost e1 = errors_view(errors@);
    let nu = f.unsized_fns.len();
    for u in 0..nu
        invariant
            nu == f.unsized_fns@.len(),
            facts == trace.facts@,
            errors_view(errors@) == e1 + unsize_checks(facts, fns@, f.unsized_fns@.take(u as int)),
    {
        let (span, callee) = f.unsized_fns[u];
        proof {
            assert(f.unsized_fns@.take(u + 1).drop_last() =~= f.unsized_fns@.take(u as int));
        }
        ensure_no_borrow(trace, fns, callee, span, Action::Unsize, errors);
    }
    proof {
        assert(f.unsized_fns@.take(nu as int) =~= f.unsized_fns@);
        assert(errors_view(errors@) =~= e0 + instance_checks(facts, fns@, entry, i, fns@[i as int]));
    }
}

/// Checks a crate: computes the borrow facts of every function reachable from `roots`,
/// reports every function that borrows although it is the entry point, a destructor,
/// an `extern` function or unsized, and validates every analyzed instance that has a template.
pub fn analyze_crate(
    program: TraceProgram,
    roots: &Vec<usize>,
    entry: Option<usize>,
    fns: &Vec<CrateFn>,
    templates: &Vec<Option<(BodyTemplateFacts, BodyOverlapFacts)>>,
) -> (r: CrateReport)
    requires
        program.fns@.len() < INFINITE_DEPTH,
        fns@.len() == program.fns@.len(),
        templates@.len() == program.fns@.len(),
        templates_ok(templates@),
    ensures
        complete_facts(program, r.facts.facts@),
        forall|k: int| 0 <= k < roots@.len() && analyzable(program, #[trigger] roots@[k] as int) ==>
            r.facts.facts@[roots@[k] as int] is Some,
        acyclic(program) ==> facts_follow_calls(program, r.facts.facts@),
        grouped_facts(program, r.facts.facts@, r.facts.group_roots@, r.facts.bases@),
        facts_sound(program, r.facts.facts@),
        errors_view(r.no_borrow_errors@) == crate_checks(r.facts.facts@, entry, fns@, fns@.len() as int),
        forall|i: int| 0 <= i < fns@.len() && #[trigger] r.facts.facts@[i] is Some && r.facts.facts@[i]->Some_0.entries@.len() > 0 ==> {
            &&& entry == Some(i as usize) ==> errors_view(r.no_borrow_errors@).contains(
                no_borrow_error(r.facts.facts@, fns@, i as usize, fns@[i].def_span, Action::UseAsMain))
            &&& fns@[i].is_drop ==> errors_view(r.no_borrow_errors@).contains(
                no_borrow_error(r.facts.facts@, fns@, i as usize, fns@[i].def_span, Action::UseAsDestructor))
            &&& fns@[i].is_extern ==> errors_view(r.no_borrow_errors@).contains(
                no_borrow_error(r.facts.facts@, fns@, i as usize, fns@[i].def_span, Action::UseAsExtern))
        },
        forall|x: (u64, Action, usize, u64, Seq<(u64, Mutability)>)| #[trigger] errors_view(r.no_borrow_errors@).contains(x)
            ==> error_justified(r.facts.facts@, entry, fns@, x),
        r.borrow_errors@ == crate_validation(r.facts.facts@, templates@, templates@.len() as int),
{
    let ghost p = program;
    let trace = TraceFacts::compute(program, roots);
    let ghost facts = trace.facts@;
    let n = fns.len();
    let mut errors: Vec<NoBorrowError> = Vec::new();
    for i in 0..n
        invariant
            n == fns@.len(),
            facts == trace.facts@,
            facts.len() == n,
            errors_view(errors@) == crate_checks(facts, entry, fns@, i as int),
    {
        let ghost e0 = errors_view(errors@);
        if i < trace.facts.len() && trace.facts[i].is_some() {
            check_instance(&trace, fns, entry, i, &mut errors);
        }
        proof {
            assert(errors_view(errors@) =~= crate_checks(facts, entry, fns@, i + 1));
        }
    }
    let mut borrow_errors: Vec<BorrowDiagnostic> = Vec::new();
    for i in 0..n
        invariant
            n == fns@.len(),
            n == templates@.len(),
            facts == trace.facts@,
            facts.len() == n,
            complete_facts(p, facts),
            templates_ok(templates@),
            borrow_errors@ == crate_validation(facts, templates@, i as int),
    {
        if trace.facts[i].is_some() {
            match &templates[i] {
                Some(to) => {
                    proof {
                        assert(templates@[i as int] is Some);
                        assert forall|j: int| 0 <= j < facts.len() && #[trigger] facts[j] is Some
                            implies facts[j]->Some_0.wf() by {}
                    }
                    let mut d = to.0.validate(&trace, &to.1);
                    borrow_errors.append(&mut d);
                },
                None => {},
            }
        }
        proof {
            assert(borrow_errors@ =~= crate_validation(facts, templates@, i + 1));
        }
    }
    proof {
        assert forall|i: int| 0 <= i < fns@.len() && #[trigger] facts[i] is Some && facts[i]->Some_0.entries@.len() > 0 implies {
            &&& entry == Some(i as usize) ==> errors_view(errors@).contains(
                no_borrow_error(facts, fns@, i as usize, fns@[i].def_span, Action::UseAsMain))
            &&& fns@[i].is_drop ==> errors_view(errors@).contains(
                no_borrow_error(facts, fns@, i as usize, fns@[i].def_span, Action::UseAsDestructor))
            &&& fns@[i].is_extern ==> errors_view(errors@).contains(
                no_borrow_error(facts, fns@, i as usize, fns@[i].def_span, Action::UseAsExtern))
        } by {
            lemma_refused_uses_reported(facts, entry, fns@, i as usize);
        }
        assert forall|x: (u64, Action, usize, u64, Seq<(u64, Mutability)>)| #[trigger] errors_view(errors@).contains(x)
            implies error_justified(facts, entry, fns@, x) by {
            lemma_reported_uses_refused(facts, entry, fns@, fns@.len() as int, x);
        }
    }
    CrateReport { facts: trace, no_borrow_errors: errors, borrow_errors }
}

} // verus!
