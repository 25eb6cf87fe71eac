use autoken::demos::{borrow_immutably, borrow_mutably, unborrow_immutably, Lock, ProgramBuilder};
use autoken::driver::{analyze_crate, Action, CrateFn};
use autoken::leaks::{
    hardcoded_facts, s_pluralize, saturating_sub_i32, AnalyzerConfig, Block, LeakDiagnostic, LeakFn, Primitive,
    Terminator,
};
use autoken::mir_builder::{
    BasicBlockData, FunctionCallAndRegions, LocalTy, MirBody, Place, SourceInfo, Statement, StatementKind,
    TerminatorKind, TokenMirBuilder, UserTypeAnnotation,
};
use autoken::mutability::Mutability;
use autoken::overlap::{BodyOverlapFacts, BodyTemplateFacts, BorrowDiagnostic, TemplateCall};
use autoken::pair::Pair;
use autoken::regions::{build_region_graph, leaked_locals_of, reachable_nodes, LocalDecl};
use autoken::shapes::{
    err_failed_to_find_region, extract_free_region_list, find_region_with_name, is_annotated_ty,
    par_traverse_regions, try_resolve_mono_args_for_func, GenericArgShape, GenericParamKind, LeafKind, MonoArg,
    ParRegionTraversal, PredicateShape, TermShape, TyShape,
};
use autoken::template::{add_local_borrow, conflict_between, BorrowingLocals, Reason};
use autoken::template_facts::{CallSite, ReturnRegions, TemplateDiagnostic, TieDirective};
use autoken::tokens::{Mut, Ref, TokenSet};
use autoken::trace::{FnKind, TraceFacts, TraceProgram};
use autoken::vec_map::VecMap;

// === Type shapes === //

fn re(x: u64, t: TyShape) -> TyShape {
    TyShape::Ref(x, Box::new(t))
}

fn leaf() -> TyShape {
    TyShape::Leaf(LeafKind::Uint)
}

#[test]
fn traversal_pairs_corresponding_regions() {
    // (&'1 u32, Foo<'2, &'3 str>) against (&'10 u32, Foo<'20, &'30 str>)
    let left = TyShape::Tuple(vec![
        re(1, leaf()),
        TyShape::Adt(vec![GenericArgShape::Lifetime(2), GenericArgShape::Type(re(3, TyShape::Leaf(LeafKind::Str)))]),
    ]);
    let right = TyShape::Tuple(vec![
        re(10, leaf()),
        TyShape::Adt(vec![GenericArgShape::Lifetime(20), GenericArgShape::Type(re(30, TyShape::Leaf(LeafKind::Str)))]),
    ]);
    assert_eq!(par_traverse_regions(&left, &right), vec![(1, 10), (2, 20), (3, 30)]);
    assert_eq!(ParRegionTraversal::new().into_pairs(), Vec::<(u64, u64)>::new());
}

#[test]
fn traversal_of_trait_objects_and_fn_pointers() {
    // dyn Trait<'4, Assoc = &'5 u32> + '6 against the same shape, then a fn pointer.
    let dynamic = |a: u64, b: u64, c: u64| {
        TyShape::Dynamic(
            vec![
                PredicateShape::Projection(vec![GenericArgShape::Lifetime(a)], TermShape::Ty(re(b, leaf()))),
                PredicateShape::AutoTrait,
            ],
            c,
        )
    };
    assert_eq!(par_traverse_regions(&dynamic(4, 5, 6), &dynamic(40, 50, 60)), vec![(6, 60), (4, 40), (5, 50)]);
    let fnptr = |a: u64, b: u64| TyShape::FnPtr(vec![re(a, leaf()), re(b, leaf())]);
    assert_eq!(par_traverse_regions(&fnptr(1, 2), &fnptr(3, 4)), vec![(1, 3), (2, 4)]);
}

#[test]
fn region_list_in_folder_order() {
    let t = TyShape::Dynamic(vec![PredicateShape::Trait(vec![GenericArgShape::Lifetime(4)])], 6);
    assert_eq!(extract_free_region_list(&t), vec![4, 6]);
    let u = TyShape::Tuple(vec![re(1, re(2, leaf())), TyShape::Array(Box::new(re(3, leaf())))]);
    assert_eq!(extract_free_region_list(&u), vec![1, 2, 3]);
}

#[test]
fn region_lookup_by_name() {
    let t = TyShape::Tuple(vec![re(1, leaf()), re(2, leaf()), re(3, leaf())]);
    let mut names: VecMap<u64> = VecMap::new();
    names.insert(2, 77);
    names.insert(3, 88);
    assert_eq!(find_region_with_name(&t, &names, 88), Ok(3));
    assert_eq!(find_region_with_name(&t, &names, 99), Err(vec![77, 88]));
}

#[test]
fn missing_region_message() {
    assert_eq!(
        err_failed_to_find_region("'a", &vec!["'b".to_string(), "'c".to_string()]),
        "lifetime with name 'a not found in output of function; found 'b, 'c"
    );
    assert_eq!(err_failed_to_find_region("'a", &Vec::new()), "lifetime with name 'a not found in output of function");
}

#[test]
fn marker_types_and_mono_args() {
    assert!(is_annotated_ty(&vec![5], 5));
    assert!(!is_annotated_ty(&vec![5, 6], 5));
    assert!(!is_annotated_ty(&vec![], 5));
    assert!(!is_annotated_ty(&vec![6], 5));
    assert_eq!(
        try_resolve_mono_args_for_func(&vec![GenericParamKind::Lifetime, GenericParamKind::HostEffectConst]),
        Some(vec![MonoArg::ErasedLifetime, MonoArg::True])
    );
    assert_eq!(try_resolve_mono_args_for_func(&vec![GenericParamKind::Lifetime, GenericParamKind::Type]), None);
    assert_eq!(try_resolve_mono_args_for_func(&vec![GenericParamKind::Const]), None);
}

// === Token MIR builder === //

fn si(span: u64) -> SourceInfo {
    SourceInfo { span, scope: 0 }
}

fn original(id: u64) -> Statement {
    Statement { source_info: si(1), kind: StatementKind::Original(id) }
}

/// bb0: s0; call -> bb1 (result in local 0)
/// bb1: s1; yield
fn small_body() -> MirBody {
    MirBody {
        span: 5,
        local_decls: vec![LocalTy::User(1)],
        basic_blocks: vec![
            BasicBlockData {
                statements: vec![original(100)],
                terminator: Some(autoken::mir_builder::Terminator {
                    source_info: si(9),
                    kind: TerminatorKind::Call { destination: Place { local: 0, projection: 0 }, target: Some(1) },
                }),
            },
            BasicBlockData {
                statements: vec![original(101)],
                terminator: Some(autoken::mir_builder::Terminator { source_info: si(8), kind: TerminatorKind::Yield }),
            },
        ],
        user_type_annotations: vec![],
    }
}

#[test]
fn builder_ties_a_token_to_a_call_result() {
    let mut b = TokenMirBuilder::new(small_body());
    assert_eq!(b.dangling_addr_local, 1);
    let call = FunctionCallAndRegions { generalized: 40, erased: 41, param_count: 1 };
    let token = b.tie_token_to_function_return(0, call, 0);
    assert_eq!(token, 4);
    let enb = b.ensure_not_borrowed_at(1);
    assert_eq!(enb, 6);
    let body = b.finish();
    assert_eq!(
        body.local_decls,
        vec![
            LocalTy::User(1),
            LocalTy::UnitMutPtr,
            LocalTy::Erased(41),
            LocalTy::TokenBinder(41),
            LocalTy::UnitRefMut,
            LocalTy::UnitRef,
            LocalTy::UnitRefMut,
            LocalTy::UnitRef,
        ]
    );
    assert_eq!(body.user_type_annotations, vec![UserTypeAnnotation { result_ty: 40, re_vid: 0, param_count: 1 }]);
    // The dangling address is defined first thing in the first block.
    assert_eq!(
        body.basic_blocks[0].statements,
        vec![Statement { source_info: si(5), kind: StatementKind::DanglingAddress { dest: 1 } }, original(100)]
    );
    // The call writes to its new local.
    assert_eq!(
        body.basic_blocks[0].terminator.unwrap().kind,
        TerminatorKind::Call { destination: Place { local: 2, projection: 0 }, target: Some(1) }
    );
    assert_eq!(
        body.basic_blocks[1].statements,
        vec![
            Statement { source_info: si(5), kind: StatementKind::BorrowMut { dest: 4, of: 1 } },
            Statement { source_info: si(9), kind: StatementKind::BorrowShared { dest: 5, of: 4 } },
            Statement {
                source_info: si(9),
                kind: StatementKind::MakePair { dest: 3, first: 5, second: Place { local: 2, projection: 0 } },
            },
            Statement { source_info: si(9), kind: StatementKind::Ascribe { local: 3, annotation: 0 } },
            Statement {
                source_info: si(9),
                kind: StatementKind::MoveSecond { dest: Place { local: 0, projection: 0 }, of: 3 },
            },
            original(101),
            Statement { source_info: si(5), kind: StatementKind::BorrowMut { dest: 6, of: 1 } },
            Statement { source_info: si(8), kind: StatementKind::BorrowShared { dest: 7, of: 6 } },
        ]
    );
}

#[test]
fn template_of_a_body_with_a_tie_call_and_a_yield() {
    let ret = ReturnRegions {
        ty: re(3, leaf()),
        names: {
            let mut m = VecMap::new();
            m.insert(3, 700);
            m
        },
        early_params: vec![3],
        bound_regions: vec![],
    };
    let sites = vec![
        Some(CallSite {
            span: 9,
            callee: Some(2),
            mask: FunctionCallAndRegions { generalized: 40, erased: 41, param_count: 1 },
            tie: Some(TieDirective {
                tied_to: Some(700),
                acquired_set: TokenSet::Mut(Mut { token: 12 }),
                is_unsafe: false,
            }),
            links: vec![(700, vec![0])],
        }),
        None,
    ];
    let (facts, body, diags) = BodyTemplateFacts::new(small_body(), sites, &ret);
    assert!(diags.is_empty());
    assert_eq!(facts.permitted_leaks.len(), 1);
    assert_eq!(facts.permitted_leaks[0].0, 3);
    assert!(matches!(facts.permitted_leaks[0].1, TokenSet::Mut(Mut { token: 12 })));
    assert_eq!(facts.calls.len(), 1);
    assert_eq!(facts.calls[0].span, 9);
    assert_eq!(facts.calls[0].callee, Some(2));
    assert_eq!(facts.calls[0].prevent_call_local, 2);
    assert_eq!(facts.calls[0].tied_locals, vec![6]);
    assert_eq!(facts.yield_locals, vec![8]);
    assert_eq!(body.local_decls.len(), 10);
}

#[test]
fn template_reports_bad_ties() {
    let ret = ReturnRegions {
        ty: re(3, leaf()),
        names: {
            let mut m = VecMap::new();
            m.insert(3, 700);
            m
        },
        early_params: vec![],
        bound_regions: vec![],
    };
    let site = |name: u64| {
        Some(CallSite {
            span: 9,
            callee: None,
            mask: FunctionCallAndRegions { generalized: 40, erased: 41, param_count: 0 },
            tie: Some(TieDirective { tied_to: Some(name), acquired_set: TokenSet::Empty, is_unsafe: false }),
            links: vec![],
        })
    };
    let (facts, _, diags) = BodyTemplateFacts::new(small_body(), vec![site(701), None], &ret);
    assert!(facts.permitted_leaks.is_empty());
    assert_eq!(diags.len(), 1);
    assert!(matches!(&diags[0], TemplateDiagnostic::MissingRegion { span: 9, name: 701, found } if *found == vec![700]));
    let (facts, _, diags) = BodyTemplateFacts::new(small_body(), vec![site(700), None], &ret);
    // A region that is not an early-bound parameter is still permitted, but reported.
    assert_eq!(facts.permitted_leaks.len(), 1);
    assert!(matches!(diags[0], TemplateDiagnostic::UnsoundTie { span: 9 }));
}

// === Leak analysis (demo programs) === //

fn main_fn(calls: &[(Terminator, u64)]) -> LeakFn {
    let mut blocks: Vec<Block> = calls
        .iter()
        .map(|(t, span)| Block { coercions: vec![], terminator: clone_term(t), span: *span })
        .collect();
    blocks.push(Block { coercions: vec![], terminator: Terminator::Return, span: 0 });
    LeakFn::Body { blocks, span: 1 }
}

fn clone_term(t: &Terminator) -> Terminator {
    match t {
        Terminator::Call { callee, target } => Terminator::Call { callee: *callee, target: *target },
        Terminator::Drop { dtor, target } => Terminator::Drop { dtor: *dtor, target: *target },
        _ => Terminator::Return,
    }
}

#[test]
fn lock_demo_succeeds() {
    // let lock1 = Lock::new(); drop(lock1); let lock2 = Lock::new(); (lock2 dropped)
    let mut b = ProgramBuilder::new();
    let lock = Lock::new(&mut b, 1);
    let main = b.push_fn(main_fn(&[
        (Terminator::Call { callee: lock.new_fn, target: Some(1) }, 10),
        (Terminator::Drop { dtor: Some(lock.drop_fn), target: 2 }, 11),
        (Terminator::Call { callee: lock.new_fn, target: Some(3) }, 12),
        (Terminator::Drop { dtor: Some(lock.drop_fn), target: 4 }, 13),
    ]));
    let analyzer = AnalyzerConfig {}.analyze(b.into_program(), Some(main)).unwrap();
    assert_eq!(analyzer.diagnostics, Vec::<LeakDiagnostic>::new());
}

#[test]
fn lock_demo_fails_when_held_twice() {
    // let lock1 = Lock::new(); let lock2 = Lock::new();
    let mut b = ProgramBuilder::new();
    let lock = Lock::new(&mut b, 1);
    let main = b.push_fn(main_fn(&[
        (Terminator::Call { callee: lock.new_fn, target: Some(1) }, 10),
        (Terminator::Call { callee: lock.new_fn, target: Some(2) }, 12),
    ]));
    let analyzer = AnalyzerConfig {}.analyze(b.into_program(), Some(main)).unwrap();
    assert_eq!(
        analyzer.diagnostics,
        vec![LeakDiagnostic::TooManyMuts { span: 12, component: 1, max_enter_mut: 0, leaked_muts: 1 }]
    );
}

#[test]
fn shared_borrows_may_overlap() {
    let mut b = ProgramBuilder::new();
    let borrow = borrow_immutably(&mut b, 2);
    let unborrow = unborrow_immutably(&mut b, 2);
    let main = b.push_fn(main_fn(&[
        (Terminator::Call { callee: borrow, target: Some(1) }, 10),
        (Terminator::Call { callee: borrow, target: Some(2) }, 11),
        (Terminator::Call { callee: unborrow, target: Some(3) }, 12),
        (Terminator::Call { callee: unborrow, target: Some(4) }, 13),
    ]));
    let analyzer = AnalyzerConfig {}.analyze(b.into_program(), Some(main)).unwrap();
    assert!(analyzer.diagnostics.is_empty());
    assert!(AnalyzerConfig {}.analyze(ProgramBuilder::new().into_program(), None).is_none());
}

#[test]
fn mutable_borrow_while_shared_is_reported() {
    let mut b = ProgramBuilder::new();
    let shared = borrow_immutably(&mut b, 2);
    let exclusive = borrow_mutably(&mut b, 2);
    let main = b.push_fn(main_fn(&[
        (Terminator::Call { callee: shared, target: Some(1) }, 10),
        (Terminator::Call { callee: exclusive, target: Some(2) }, 11),
    ]));
    let analyzer = AnalyzerConfig {}.analyze(b.into_program(), Some(main)).unwrap();
    assert_eq!(
        analyzer.diagnostics,
        vec![LeakDiagnostic::TooManyRefs { span: 11, component: 2, max_enter_ref: 0, leaked_refs: 1 }]
    );
}

#[test]
fn leak_facts_follow_callees() {
    // helper() { borrow_mutably::<3>() }  main() { helper() }
    let mut b = ProgramBuilder::new();
    let borrow = borrow_mutably(&mut b, 3);
    let helper = b.push_fn(main_fn(&[(Terminator::Call { callee: borrow, target: Some(1) }, 20)]));
    let unused = b.push_fn(main_fn(&[(Terminator::Call { callee: borrow, target: Some(1) }, 30)]));
    let main = b.push_fn(main_fn(&[(Terminator::Call { callee: helper, target: Some(1) }, 10)]));
    let analyzer = AnalyzerConfig {}.analyze(b.into_program(), Some(main)).unwrap();
    assert!(analyzer.diagnostics.is_empty());
    // Only what the entry reaches is analyzed.
    assert!(analyzer.facts_of(unused).is_none());
    for f in [helper, main] {
        let facts = analyzer.facts_of(f).unwrap();
        assert_eq!(facts.len(), 1);
        let c = facts.get(3).unwrap();
        assert_eq!((c.max_enter_mut, c.max_enter_ref, c.mutably_borrows), (0, 0, true));
        assert_eq!((c.leaks.leaked_muts, c.leaks.leaked_refs), (1, 0));
    }
    // The primitive itself keeps its hardcoded facts.
    let p = analyzer.facts_of(borrow).unwrap().get(3).unwrap();
    assert_eq!(p, hardcoded_facts(Primitive::BorrowMutably));
}

#[test]
fn primitive_facts_and_small_helpers() {
    let f = hardcoded_facts(Primitive::BorrowMutably);
    assert_eq!((f.max_enter_mut, f.max_enter_ref, f.mutably_borrows), (0, 0, true));
    assert_eq!((f.leaks.leaked_muts, f.leaks.leaked_refs), (1, 0));
    let g = hardcoded_facts(Primitive::UnborrowImmutably);
    assert_eq!((g.max_enter_mut, g.leaks.leaked_refs), (i32::MAX, -1));
    assert_eq!(saturating_sub_i32(i32::MIN, 1), i32::MIN);
    assert_eq!(saturating_sub_i32(i32::MAX, -1), i32::MAX);
    assert_eq!(saturating_sub_i32(5, 7), -2);
    assert_eq!(s_pluralize(1), "");
    assert_eq!(s_pluralize(2), "s");
}

// === Trace facts and crate checks === //

/// 0: the tie directive of `get_singleton`, tying `mut Singleton` (token 7) to 'a (100)
/// 1: get_singleton, 2: demo (calls get_singleton twice), 3: main (calls demo)
fn singleton_program() -> TraceProgram {
    TraceProgram {
        fns: vec![
            FnKind::Tie { tied_to: Some(100), set: TokenSet::Mut(Mut { token: 7 }) },
            FnKind::Body { calls: vec![0], unsized_fns: vec![], absorb: None },
            FnKind::Body { calls: vec![1, 1], unsized_fns: vec![], absorb: None },
            FnKind::Body { calls: vec![2], unsized_fns: vec![], absorb: None },
        ],
    }
}

#[test]
fn trace_facts_follow_calls() {
    let facts = TraceFacts::compute(singleton_program(), &vec![3]);
    let main = facts.facts[3].as_ref().unwrap();
    assert_eq!(main.get(7), Some((Mutability::Mut, None)));
    let get = facts.facts[1].as_ref().unwrap();
    assert_eq!(get.get(7), Some((Mutability::Mut, Some(100))));
}

#[test]
fn cycles_invent_no_borrows() {
    // 0: tie of `mut 5`; 1 and 2 call each other; 3 calls the tie and 1.
    let program = TraceProgram {
        fns: vec![
            FnKind::Tie { tied_to: None, set: TokenSet::Mut(Mut { token: 5 }) },
            FnKind::Body { calls: vec![2], unsized_fns: vec![], absorb: None },
            FnKind::Body { calls: vec![1], unsized_fns: vec![], absorb: None },
            FnKind::Body { calls: vec![0, 1], unsized_fns: vec![], absorb: None },
        ],
    };
    let facts = TraceFacts::compute(program, &vec![3]);
    assert!(facts.facts[1].as_ref().unwrap().is_empty());
    assert!(facts.facts[2].as_ref().unwrap().is_empty());
    let top = facts.facts[3].as_ref().unwrap();
    assert_eq!(top.len(), 1);
    assert_eq!(top.get(5), Some((Mutability::Mut, None)));
}

#[test]
fn absorb_hides_borrows_from_callers() {
    let program = TraceProgram {
        fns: vec![
            FnKind::Tie { tied_to: None, set: TokenSet::Mut(Mut { token: 7 }) },
            FnKind::Body { calls: vec![0], unsized_fns: vec![], absorb: Some(TokenSet::Mut(Mut { token: 7 })) },
            FnKind::Body { calls: vec![1], unsized_fns: vec![], absorb: None },
        ],
    };
    let facts = TraceFacts::compute(program, &vec![2]);
    assert!(facts.facts[2].as_ref().unwrap().is_empty());
}

#[test]
fn singleton_demo_reports_conflict_and_main() {
    let template = BodyTemplateFacts {
        permitted_leaks: vec![],
        calls: vec![
            TemplateCall { span: 11, callee: Some(1), prevent_call_local: 10, tied_locals: vec![12], links: vec![(100, vec![0])] },
            TemplateCall { span: 12, callee: Some(1), prevent_call_local: 20, tied_locals: vec![22], links: vec![(100, vec![0])] },
        ],
        yield_locals: vec![],
    };
    // The borrow of call 2's guard local starts while call 1's result is still alive.
    let overlaps = BodyOverlapFacts::new(vec![(12, 11), (20, 12)], vec![(1, vec![0])], &vec![], &vec![], &vec![]);
    let fns = vec![
        CrateFn { def_span: 1, is_drop: false, is_extern: false, unsized_fns: vec![] },
        CrateFn { def_span: 2, is_drop: false, is_extern: false, unsized_fns: vec![] },
        CrateFn { def_span: 3, is_drop: false, is_extern: false, unsized_fns: vec![] },
        CrateFn { def_span: 4, is_drop: false, is_extern: false, unsized_fns: vec![] },
    ];
    let templates = vec![None, None, Some((template, overlaps)), None];
    let report = analyze_crate(singleton_program(), &vec![3], Some(3), &fns, &templates);
    assert_eq!(report.no_borrow_errors.len(), 1);
    assert_eq!(report.no_borrow_errors[0].span, 4);
    assert_eq!(report.no_borrow_errors[0].action, Action::UseAsMain);
    assert_eq!(report.no_borrow_errors[0].tokens, vec![(7, Mutability::Mut)]);
    assert_eq!(report.no_borrow_errors[0].instance, 3);
    assert_eq!(report.no_borrow_errors[0].instance_span, 4);
    assert_eq!(
        report.borrow_errors,
        vec![BorrowDiagnostic::ConflictingBorrows {
            token: 7,
            old_span: 11,
            new_span: 12,
            old_mut: Mutability::Mut,
            old_reason: Reason::Call(1),
            new_mut: Mutability::Mut,
            new_reason: Reason::Call(1),
        }]
    );
}

#[test]
fn conflicts_between_locals() {
    let mut bl = BorrowingLocals::new();
    add_local_borrow(&mut bl, 1, 7, 3, Mutability::Not);
    add_local_borrow(&mut bl, 2, 7, 4, Mutability::Not);
    add_local_borrow(&mut bl, 3, 7, 5, Mutability::Mut);
    assert!(conflict_between(&bl, &vec![], Pair::new(1, 2)).is_none());
    let c = conflict_between(&bl, &vec![], Pair::new(1, 3)).unwrap();
    assert_eq!(c.0, 7);
    let nat = c.1.natural();
    assert_eq!(nat.left, (Mutability::Not, Reason::Call(3)));
    assert_eq!(nat.right, (Mutability::Mut, Reason::Call(5)));
    // A borrow held across an await conflicts with it.
    let y = conflict_between(&bl, &vec![9], Pair::new(1, 9)).unwrap();
    assert_eq!(y.1.natural().right, (Mutability::Mut, Reason::Await));
}

// === Regions === //

#[test]
fn region_graph_reachability() {
    // Constraints (sup, sub): 1: 2, 2: 3, 4: 5
    let (g, index) = build_region_graph(&vec![(1, 2), (2, 3), (4, 5)]);
    let start = index.get(3).unwrap();
    let seen = reachable_nodes(&g, start);
    for (region, expect) in [(1u64, true), (2, true), (3, true), (4, false), (5, false)] {
        assert_eq!(seen[index.get(region).unwrap()], expect, "region {region}");
    }
}

#[test]
fn leaked_locals_follow_outlives_constraints() {
    let locals = vec![
        LocalDecl { regions: vec![1], span: 900 },
        LocalDecl { regions: vec![9], span: 901 },
        LocalDecl { regions: vec![2, 1], span: 902 },
    ];
    // Universal region 50 has inference variable 2, which outlives-flows into 1.
    let r = leaked_locals_of(&vec![(1, 2)], &vec![(50, 2), (60, 8)], &locals);
    assert_eq!(r.leaked, vec![(50, vec![0, 2, 2])]);
    assert_eq!(r.def_spans.get(0), Some(900));
    assert_eq!(r.def_spans.get(1), None);
    assert_eq!(r.def_spans.get(2), Some(902));
}

#[test]
fn facts_on_a_recursion_cycle() {
    // 0, 1: ties of tokens 1 and 2; 2: R calls X, Y, then tie 1; 3: X calls R, then tie 0;
    // 4: Y calls X. R, X and Y are one recursion cycle.
    let program = TraceProgram {
        fns: vec![
            FnKind::Tie { tied_to: None, set: TokenSet::Mut(Mut { token: 1 }) },
            FnKind::Tie { tied_to: None, set: TokenSet::Mut(Mut { token: 2 }) },
            FnKind::Body { calls: vec![3, 4, 1], unsized_fns: vec![], absorb: None },
            FnKind::Body { calls: vec![2, 0], unsized_fns: vec![], absorb: None },
            FnKind::Body { calls: vec![3], unsized_fns: vec![], absorb: None },
        ],
    };
    let facts = TraceFacts::compute(program, &vec![2]);
    let r = facts.facts[2].as_ref().unwrap();
    let x = facts.facts[3].as_ref().unwrap();
    let y = facts.facts[4].as_ref().unwrap();
    assert_eq!((r.get(1).is_some(), r.get(2).is_some()), (true, true));
    assert_eq!((x.get(1).is_some(), x.get(2).is_some()), (true, true));
    // Y was finished from X's facts as they stood before R's component was closed.
    assert_eq!((y.get(1).is_some(), y.get(2).is_some()), (true, false));
}

#[test]
fn readme_capability_conflict() {
    // cap!(ref MyCap) ties its result to a shared borrow of MyCap (token 5), and
    // cap!(mut MyCap) borrows it mutably while that result is still alive.
    let program = TraceProgram {
        fns: vec![
            FnKind::Tie {
                tied_to: Some(100),
                set: TokenSet::DowngradeRef(autoken::tokens::DowngradeRef { set: Box::new(TokenSet::Mut(Mut { token: 5 })) }),
            },
            FnKind::Body { calls: vec![0], unsized_fns: vec![], absorb: None },
            FnKind::Tie { tied_to: Some(100), set: TokenSet::Mut(Mut { token: 5 }) },
            FnKind::Body { calls: vec![2], unsized_fns: vec![], absorb: None },
            FnKind::Body { calls: vec![1, 3], unsized_fns: vec![], absorb: None },
        ],
    };
    let template = BodyTemplateFacts {
        permitted_leaks: vec![],
        calls: vec![
            TemplateCall { span: 20, callee: Some(1), prevent_call_local: 10, tied_locals: vec![11], links: vec![(100, vec![0])] },
            TemplateCall { span: 23, callee: Some(3), prevent_call_local: 20, tied_locals: vec![21], links: vec![(100, vec![0])] },
        ],
        yield_locals: vec![],
    };
    let overlaps = BodyOverlapFacts::new(vec![(11, 20), (20, 23)], vec![(1, vec![0])], &vec![], &vec![], &vec![]);
    let fns: Vec<CrateFn> = (0..5).map(|i| CrateFn { def_span: i, is_drop: false, is_extern: false, unsized_fns: vec![] }).collect();
    let templates = vec![None, None, None, None, Some((template, overlaps))];
    let report = analyze_crate(program, &vec![4], None, &fns, &templates);
    assert!(report.no_borrow_errors.is_empty());
    assert_eq!(
        report.borrow_errors,
        vec![BorrowDiagnostic::ConflictingBorrows {
            token: 5,
            old_span: 20,
            new_span: 23,
            old_mut: Mutability::Not,
            old_reason: Reason::Call(1),
            new_mut: Mutability::Mut,
            new_reason: Reason::Call(3),
        }]
    );
    let names = vec!["0".to_string(), "cap!(ref MyCap)".to_string(), "2".to_string(), "cap!(mut MyCap)".to_string()];
    let m = autoken::messages::conflict_message(
        "MyCap",
        Mutability::Not,
        &autoken::messages::reason_name(Reason::Call(1), &names),
        Mutability::Mut,
        &autoken::messages::reason_name(Reason::Call(3), &names),
    );
    assert_eq!(m.message, "conflicting borrows on token MyCap");
    assert_eq!(m.old_label, "value first borrowed immutably");
    assert_eq!(m.new_label, "value later borrowed mutably");
}

#[test]
fn extern_and_unsized_functions_may_not_borrow() {
    let fns = vec![
        CrateFn { def_span: 1, is_drop: false, is_extern: false, unsized_fns: vec![] },
        CrateFn { def_span: 2, is_drop: false, is_extern: true, unsized_fns: vec![] },
        CrateFn { def_span: 3, is_drop: false, is_extern: true, unsized_fns: vec![(30, 1)] },
        CrateFn { def_span: 4, is_drop: false, is_extern: false, unsized_fns: vec![] },
    ];
    let templates = vec![None, None, None, None];
    let report = analyze_crate(singleton_program(), &vec![3, 2], None, &fns, &templates);
    // 1 is extern but not analyzed on its own behalf; 2 is extern and borrows; 2 unsizes 1.
    assert_eq!(report.no_borrow_errors.len(), 3);
    assert_eq!(report.no_borrow_errors[0].action, Action::UseAsExtern);
    assert_eq!(report.no_borrow_errors[0].instance, 1);
    assert_eq!(report.no_borrow_errors[0].span, 2);
    assert_eq!(report.no_borrow_errors[1].action, Action::UseAsExtern);
    assert_eq!(report.no_borrow_errors[1].instance, 2);
    assert_eq!(report.no_borrow_errors[2].action, Action::Unsize);
    assert_eq!(report.no_borrow_errors[2].span, 30);
    assert_eq!(report.no_borrow_errors[2].instance, 1);
    assert_eq!(report.no_borrow_errors[2].instance_span, 2);
    assert_eq!(report.no_borrow_errors[2].tokens, vec![(7, Mutability::Mut)]);
}

#[test]
fn cycle_members_take_the_root_facts() {
    // 0: tie of `mut 5`; 3: tie of `ref 6`; 1 calls 2 then 3; 2 calls 1 then 0.
    // 2 is finished before 1 reaches 3, but it shares 1's facts in the end.
    let program = TraceProgram {
        fns: vec![
            FnKind::Tie { tied_to: None, set: TokenSet::Mut(Mut { token: 5 }) },
            FnKind::Body { calls: vec![2, 3], unsized_fns: vec![], absorb: None },
            FnKind::Body { calls: vec![1, 0], unsized_fns: vec![], absorb: None },
            FnKind::Tie { tied_to: None, set: TokenSet::Ref(Ref { token: 6 }) },
        ],
    };
    let facts = TraceFacts::compute(program, &vec![1]);
    let root = facts.facts[1].as_ref().unwrap();
    assert_eq!(root.len(), 2);
    assert_eq!(root.get(5), Some((Mutability::Mut, None)));
    assert_eq!(root.get(6), Some((Mutability::Not, None)));
    let member = facts.facts[2].as_ref().unwrap();
    assert_eq!(member.len(), 2);
    assert_eq!(member.get(5), Some((Mutability::Mut, None)));
    assert_eq!(member.get(6), Some((Mutability::Not, None)));
}

#[test]
fn self_recursion_while_holding_is_reported() {
    // f() { borrow_mutably::<3>(); f() }  main() { f() }
    let mut b = ProgramBuilder::new();
    let borrow = borrow_mutably(&mut b, 3);
    let f = 2;
    let pushed = b.push_fn(main_fn(&[
        (Terminator::Call { callee: borrow, target: Some(1) }, 20),
        (Terminator::Call { callee: f, target: Some(2) }, 21),
    ]));
    assert_eq!(pushed, f);
    let main = b.push_fn(main_fn(&[(Terminator::Call { callee: f, target: Some(1) }, 10)]));
    let analyzer = AnalyzerConfig {}.analyze(b.into_program(), Some(main)).unwrap();
    assert_eq!(
        analyzer.diagnostics,
        vec![
            LeakDiagnostic::RecursesHoldingMut { span: 21, component: 3, leaked_muts: 1 },
            LeakDiagnostic::RecursiveLeak { span: 1, component: 3 },
        ]
    );
}
