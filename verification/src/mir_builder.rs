use vstd::prelude::*;

verus! {

/// Where a statement comes from: a span (by id) and a scope.
#[derive(Debug, Clone, Copy, PartialEq, Eq, Structural)]
pub struct SourceInfo {
    pub span: u64,
    pub scope: u32,
}

/// The type of a local of a body.
#[derive(Debug, Clone, Copy, PartialEq, Eq, Structural)]
pub enum LocalTy {
    /// `&'erased ()`, a shared borrow of a token.
    UnitRef,
    /// `&'erased mut ()`, a token.
    UnitRefMut,
    /// `*mut ()`, the dangling address tokens borrow.
    UnitMutPtr,
    /// The erased return type (by id) of a call.
    Erased(u64),
    /// `(&'erased (), T)` for the erased return type `T` (by id) of a call.
    TokenBinder(u64),
    /// A type of the original body, by id.
    User(u64),
}

/// A place: a local and the projections applied to it (by id; `0` for none).
#[derive(Debug, Clone, Copy, PartialEq, Eq, Structural)]
pub struct Place {
    pub local: usize,
    pub projection: u64,
}

/// The statements the builder writes, and those of the original body.
#[derive(Debug, Clone, Copy, PartialEq, Eq, Structural)]
pub enum StatementKind {
    /// `dest = 0x1 as *mut ()`
    DanglingAddress { dest: usize },
    /// `dest = &mut *of`
    BorrowMut { dest: usize, of: usize },
    /// `dest = &*of`
    BorrowShared { dest: usize, of: usize },
    /// `dest = (move first, move second)`
    MakePair { dest: usize, first: usize, second: Place },
    /// The invariant type ascription of the user annotation `annotation` on `local`.
    Ascribe { local: usize, annotation: usize },
    /// `dest = move of.1`
    MoveSecond { dest: Place, of: usize },
    /// A statement of the original body, by id.
    Original(u64),
}

#[derive(Debug, Clone, Copy, PartialEq, Eq, Structural)]
pub struct Statement {
    pub source_info: SourceInfo,
    pub kind: StatementKind,
}

/// How a basic block ends.
#[derive(Debug, Clone, Copy, PartialEq, Eq, Structural)]
pub enum TerminatorKind {
    /// A call writing its result to `destination`, then going on at `target` when it
    /// returns.
    Call { destination: Place, target: Option<usize> },
    Yield,
    Other,
}

#[derive(Debug, Clone, Copy, PartialEq, Eq, Structural)]
pub struct Terminator {
    pub source_info: SourceInfo,
    pub kind: TerminatorKind,
}

pub struct BasicBlockData {
    pub statements: Vec<Statement>,
    pub terminator: Option<Terminator>,
}

/// A user type annotation tying region `re_vid` of a token borrow to the generalized
/// return type `result_ty` (by id) of a call with `param_count` free regions.
#[derive(Debug, Clone, Copy, PartialEq, Eq, Structural)]
pub struct UserTypeAnnotation {
    pub result_ty: u64,
    pub re_vid: u32,
    pub param_count: u32,
}

/// A function body: its locals, blocks and user type annotations.
pub struct MirBody {
    pub span: u64,
    pub local_decls: Vec<LocalTy>,
    pub basic_blocks: Vec<BasicBlockData>,
    pub user_type_annotations: Vec<UserTypeAnnotation>,
}

/// A called function's return type with each free region made a bound one: the
/// generalized type and its erased form (by id), and how many regions it has.
#[derive(Debug, Clone, Copy, PartialEq, Eq, Structural)]
pub struct FunctionCallAndRegions {
    pub generalized: u64,
    pub erased: u64,
    pub param_count: u32,
}

pub open spec fn block_stmts(blocks: Seq<BasicBlockData>) -> Seq<Seq<Statement>> {
    Seq::new(blocks.len(), |i: int| blocks[i].statements@)
}

pub open spec fn block_terms(blocks: Seq<BasicBlockData>) -> Seq<Option<Terminator>> {
    Seq::new(blocks.len(), |i: int| blocks[i].terminator)
}

/// Where the terminator of a block comes from, or `default` when it has none.
pub open spec fn terminator_source(block: BasicBlockData, default: SourceInfo) -> SourceInfo {
    match block.terminator {
        Some(t) => t.source_info,
        None => default,
    }
}

/// The statements of the blocks once `pending` has been put in front of block `bb`.
pub open spec fn flushed(stmts: Seq<Seq<Statement>>, pending: Seq<Statement>, bb: int) -> Seq<Seq<Statement>> {
    stmts.update(bb, pending + stmts[bb])
}

/// The statements that tie a fresh token (local `n + 2`) to a call's result: the token
/// is borrowed (into `n + 3`), paired with the result (moved from `n` into `n + 1`), the
/// pair is ascribed the user annotation `annotation`, and the result is moved on to
/// the call's original destination `dest`.
pub open spec fn tie_statements(
    si: SourceInfo,
    default_si: SourceInfo,
    dangling: usize,
    n: usize,
    annotation: usize,
    dest: Place,
) -> Seq<Statement> {
    seq![
        Statement { source_info: default_si, kind: StatementKind::BorrowMut { dest: (n + 2) as usize, of: dangling } },
        Statement { source_info: si, kind: StatementKind::BorrowShared { dest: (n + 3) as usize, of: (n + 2) as usize } },
        Statement {
            source_info: si,
            kind: StatementKind::MakePair {
                dest: (n + 1) as usize,
                first: (n + 3) as usize,
                second: Place { local: n, projection: 0 },
            },
        },
        Statement { source_info: si, kind: StatementKind::Ascribe { local: (n + 1) as usize, annotation } },
        Statement { source_info: si, kind: StatementKind::MoveSecond { dest, of: (n + 1) as usize } },
    ]
}

/// Whether terminator `bb` of `terms` is a call that returns to one of the blocks.
pub open spec fn returning_term(terms: Seq<Option<Terminator>>, bb: int) -> bool {
    &&& 0 <= bb < terms.len()
    &&& terms[bb] matches Some(t)
    &&& t.kind matches TerminatorKind::Call { target: Some(target), .. }
    &&& target < terms.len()
}

/// Whether block `bb` ends in a call that returns to a block of the body.
pub open spec fn returning_call(blocks: Seq<BasicBlockData>, bb: int) -> bool {
    returning_term(block_terms(blocks), bb)
}

/// The builder state right after `TokenMirBuilder::new(body)`.
pub open spec fn initial_state(body: MirBody) -> BuilderState {
    let si = SourceInfo { span: body.span, scope: 0 };
    BuilderState {
        locals: body.local_decls@.push(LocalTy::UnitMutPtr),
        stmts: block_stmts(body.basic_blocks@),
        terms: block_terms(body.basic_blocks@),
        annots: body.user_type_annotations@,
        pending: seq![Statement {
            source_info: si,
            kind: StatementKind::DanglingAddress { dest: body.local_decls@.len() as usize },
        }],
        pending_block: 0,
        dangling: body.local_decls@.len() as usize,
        default_si: si,
        span: body.span,
    }
}

/// Everything a token builder holds, as values.
pub struct BuilderState {
    pub locals: Seq<LocalTy>,
    pub stmts: Seq<Seq<Statement>>,
    pub terms: Seq<Option<Terminator>>,
    pub annots: Seq<UserTypeAnnotation>,
    pub pending: Seq<Statement>,
    pub pending_block: int,
    pub dangling: usize,
    pub default_si: SourceInfo,
    pub span: u64,
}

/// The builder state after `ensure_not_borrowed_at(bb)`: two locals (the token, then
/// its shared borrow) and the two statements borrowing them at the end of block `bb`.
pub open spec fn enb_state(s: BuilderState, bb: int) -> BuilderState {
    let n = s.locals.len() as usize;
    let si = match s.terms[bb] {
        Some(t) => t.source_info,
        None => s.default_si,
    };
    BuilderState {
        locals: s.locals.push(LocalTy::UnitRefMut).push(LocalTy::UnitRef),
        stmts: s.stmts.update(bb, s.stmts[bb] + seq![
            Statement { source_info: s.default_si, kind: StatementKind::BorrowMut { dest: n, of: s.dangling } },
            Statement { source_info: si, kind: StatementKind::BorrowShared { dest: (n + 1) as usize, of: n } },
        ]),
        ..s
    }
}

/// The builder state after `tie_token_to_function_return(bb, call, re_vid)`.
pub open spec fn tie_state(s: BuilderState, bb: int, call: FunctionCallAndRegions, re_vid: u32) -> BuilderState {
    let n = s.locals.len() as usize;
    let t = s.terms[bb]->Some_0;
    let target = t.kind->Call_target->Some_0;
    let stmts = tie_statements(t.source_info, s.default_si, s.dangling, n, s.annots.len() as usize, t.kind->Call_destination);
    BuilderState {
        locals: s.locals.push(LocalTy::Erased(call.erased)).push(LocalTy::TokenBinder(call.erased))
            .push(LocalTy::UnitRefMut).push(LocalTy::UnitRef),
        stmts: if target == s.pending_block {
            flushed(s.stmts, s.pending + stmts, target as int)
        } else {
            flushed(flushed(s.stmts, s.pending, s.pending_block), stmts, target as int)
        },
        terms: s.terms.update(bb, Some(Terminator {
            source_info: t.source_info,
            kind: TerminatorKind::Call { destination: Place { local: n, projection: 0 }, target: Some(target) },
        })),
        annots: s.annots.push(UserTypeAnnotation { result_ty: call.generalized, re_vid, param_count: call.param_count }),
        pending: Seq::empty(),
        pending_block: target as int,
        ..s
    }
}

/// Rewrites a body so that borrow checking sees tokens: statements to put at the start
/// of a block are gathered for one block at a time and put in place when another block
/// is named or the builder finishes.
pub struct TokenMirBuilder {
    pub body: MirBody,
    pub dangling_addr_local: usize,
    pub default_source_info: SourceInfo,
    pub pending: Vec<Statement>,
    pub pending_block: usize,
}

impl TokenMirBuilder {
    pub open spec fn wf(&self) -> bool {
        &&& self.pending_block < self.body.basic_blocks@.len()
        &&& self.dangling_addr_local < self.body.local_decls@.len()
    }

    /// Everything the builder holds, as values.
    pub open spec fn state(&self) -> BuilderState {
        BuilderState {
            locals: self.body.local_decls@,
            stmts: block_stmts(self.body.basic_blocks@),
            terms: block_terms(self.body.basic_blocks@),
            annots: self.body.user_type_annotations@,
            pending: self.pending@,
            pending_block: self.pending_block as int,
            dangling: self.dangling_addr_local,
            default_si: self.default_source_info,
            span: self.body.span,
        }
    }

    /// The statements of the blocks once everything gathered is in place.
    pub open spec fn finished_stmts(&self) -> Seq<Seq<Statement>> {
        flushed(block_stmts(self.body.basic_blocks@), self.pending@, self.pending_block as int)
    }

    /// Starts rewriting `body`: adds the local holding the dangling address tokens
    /// borrow, and its definition at the start of the first block.
    pub fn new(body: MirBody) -> (r: TokenMirBuilder)
        requires
            body.basic_blocks@.len() > 0,
        ensures
            r.wf(),
            r.state() == initial_state(body),
            r.body.basic_blocks@.len() == body.basic_blocks@.len(),
            r.body.span == body.span,
            r.body.local_decls@ == body.local_decls@.push(LocalTy::UnitMutPtr),
            r.dangling_addr_local == body.local_decls@.len(),
            r.default_source_info == (SourceInfo { span: body.span, scope: 0 }),
            block_stmts(r.body.basic_blocks@) == block_stmts(body.basic_blocks@),
            block_terms(r.body.basic_blocks@) == block_terms(body.basic_blocks@),
            r.body.user_type_annotations@ == body.user_type_annotations@,
            r.pending_block == 0,
            r.pending@ == seq![Statement {
                source_info: SourceInfo { span: body.span, scope: 0 },
                kind: StatementKind::DanglingAddress { dest: body.local_decls@.len() as usize },
            }],
    {
        let ghost old_body = body;
        let mut body = body;
        let dangling_addr_local = body.local_decls.len();
        body.local_decls.push(LocalTy::UnitMutPtr);
        let default_source_info = SourceInfo { span: body.span, scope: 0 };
        let mut pending: Vec<Statement> = Vec::new();
        pending.push(Statement {
            source_info: default_source_info,
            kind: StatementKind::DanglingAddress { dest: dangling_addr_local },
        });
        let r = TokenMirBuilder { body, dangling_addr_local, default_source_info, pending, pending_block: 0 };
        assert(r.state().pending =~= initial_state(old_body).pending);
        r
    }

    /// Puts the gathered statements at the start of their block.
    fn flush_prepended(&mut self)
        requires
            old(self).wf(),
        ensures
            final(self).wf(),
            block_stmts(final(self).body.basic_blocks@) == old(self).finished_stmts(),
            block_terms(final(self).body.basic_blocks@) == block_terms(old(self).body.basic_blocks@),
            final(self).pending@.len() == 0,
            final(self).pending_block == old(self).pending_block,
            final(self).body.basic_blocks@.len() == old(self).body.basic_blocks@.len(),
            final(self).body.local_decls@ == old(self).body.local_decls@,
            final(self).body.user_type_annotations@ == old(self).body.user_type_annotations@,
            final(self).body.span == old(self).body.span,
            final(self).dangling_addr_local == old(self).dangling_addr_local,
            final(self).default_source_info == old(self).default_source_info,
    {
        let bb = self.pending_block;
        let mut front: Vec<Statement> = Vec::new();
        std::mem::swap(&mut front, &mut self.pending);
        let mut rest: Vec<Statement> = Vec::new();
        std::mem::swap(&mut rest, &mut self.body.basic_blocks[bb].statements);
        let mut i: usize = 0;
        while i < rest.len()
            invariant
                i <= rest@.len(),
                front@ == old(self).pending@ + rest@.take(i as int),
            decreases rest@.len() - i,
        {
            front.push(rest[i]);
            i = i + 1;
            assert(front@ =~= old(self).pending@ + rest@.take(i as int));
        }
        assert(rest@.take(i as int) =~= rest@);
        std::mem::swap(&mut front, &mut self.body.basic_blocks[bb].statements);
        assert(block_stmts(self.body.basic_blocks@) =~= old(self).finished_stmts());
        assert(block_terms(self.body.basic_blocks@) =~= block_terms(old(self).body.basic_blocks@));
    }

    /// Gathers `stmts` to go at the start of block `bb`, after those already gathered
    /// for it; gathering for another block first puts the earlier ones in place.
    fn prepend_statement(&mut self, bb: usize, stmts: Vec<Statement>)
        requires
            old(self).wf(),
            bb < old(self).body.basic_blocks@.len(),
        ensures
            final(self).wf(),
            final(self).pending_block == bb,
            bb == old(self).pending_block ==> {
                &&& final(self).pending@ == old(self).pending@ + stmts@
                &&& block_stmts(final(self).body.basic_blocks@) == block_stmts(old(self).body.basic_blocks@)
            },
            bb != old(self).pending_block ==> {
                &&& final(self).pending@ == stmts@
                &&& block_stmts(final(self).body.basic_blocks@) == old(self).finished_stmts()
            },
            block_terms(final(self).body.basic_blocks@) == block_terms(old(self).body.basic_blocks@),
            final(self).body.local_decls@ == old(self).body.local_decls@,
            final(self).body.user_type_annotations@ == old(self).body.user_type_annotations@,
            final(self).body.span == old(self).body.span,
            final(self).dangling_addr_local == old(self).dangling_addr_local,
            final(self).default_source_info == old(self).default_source_info,
    {
        if self.pending_block != bb {
            self.flush_prepended();
            self.pending_block = bb;
        }
        let ghost before = self.pending@;
        let mut add = stmts;
        self.pending.append(&mut add);
        proof {
            if bb != old(self).pending_block {
                assert(before =~= Seq::<Statement>::empty());
                assert(self.pending@ =~= stmts@);
            }
        }
    }

    /// A new token local, and the statement that borrows the dangling address into it.
    fn create_token(&mut self) -> (r: (usize, Statement))
        ensures
            final(self).body.local_decls@ == old(self).body.local_decls@.push(LocalTy::UnitRefMut),
            r.0 == old(self).body.local_decls@.len(),
            r.1 == (Statement {
                source_info: old(self).default_source_info,
                kind: StatementKind::BorrowMut { dest: r.0, of: old(self).dangling_addr_local },
            }),
            final(self).body.basic_blocks@ == old(self).body.basic_blocks@,
            final(self).body.user_type_annotations@ == old(self).body.user_type_annotations@,
            final(self).body.span == old(self).body.span,
            final(self).pending@ == old(self).pending@,
            final(self).pending_block == old(self).pending_block,
            final(self).dangling_addr_local == old(self).dangling_addr_local,
            final(self).default_source_info == old(self).default_source_info,
    {
        let local = self.body.local_decls.len();
        self.body.local_decls.push(LocalTy::UnitRefMut);
        (local, Statement {
            source_info: self.default_source_info,
            kind: StatementKind::BorrowMut { dest: local, of: self.dangling_addr_local },
        })
    }

    /// Makes block `bb` end with a fresh token borrowed, so that nothing may hold a
    /// borrow of that token across the block's terminator; returns the token's local.
    pub fn ensure_not_borrowed_at(&mut self, bb: usize) -> (r: usize)
        requires
            old(self).wf(),
            bb < old(self).body.basic_blocks@.len(),
        ensures
            final(self).wf(),
            final(self).state() == enb_state(old(self).state(), bb as int),
            final(self).body.basic_blocks@.len() == old(self).body.basic_blocks@.len(),
            r == old(self).body.local_decls@.len(),
            final(self).body.local_decls@ == old(self).body.local_decls@.push(LocalTy::UnitRefMut).push(LocalTy::UnitRef),
            block_stmts(final(self).body.basic_blocks@) == block_stmts(old(self).body.basic_blocks@).update(
                bb as int,
                block_stmts(old(self).body.basic_blocks@)[bb as int] + seq![
                    Statement {
                        source_info: old(self).default_source_info,
                        kind: StatementKind::BorrowMut { dest: r, of: old(self).dangling_addr_local },
                    },
                    Statement {
                        source_info: terminator_source(old(self).body.basic_blocks@[bb as int], old(self).default_source_info),
                        kind: StatementKind::BorrowShared { dest: (r + 1) as usize, of: r },
                    },
                ],
            ),
            block_terms(final(self).body.basic_blocks@) == block_terms(old(self).body.basic_blocks@),
            final(self).body.user_type_annotations@ == old(self).body.user_type_annotations@,
            final(self).body.span == old(self).body.span,
            final(self).pending@ == old(self).pending@,
            final(self).pending_block == old(self).pending_block,
            final(self).dangling_addr_local == old(self).dangling_addr_local,
            final(self).default_source_info == old(self).default_source_info,
    {
        let (local, local_initializer) = self.create_token();
        let dummy_token_holder = self.body.local_decls.len();
        self.body.local_decls.push(LocalTy::UnitRef);
        let source_info = match self.body.basic_blocks[bb].terminator {
            Some(t) => t.source_info,
            None => self.default_source_info,
        };
        let ghost mid = self.body.basic_blocks@;
        let second = Statement {
            source_info,
            kind: StatementKind::BorrowShared { dest: dummy_token_holder, of: local },
        };
        self.body.basic_blocks[bb].statements.push(local_initializer);
        self.body.basic_blocks[bb].statements.push(second);
        assert(self.body.basic_blocks@[bb as int].statements@
            =~= mid[bb as int].statements@ + seq![local_initializer, second]);
        assert(block_stmts(self.body.basic_blocks@) =~= block_stmts(old(self).body.basic_blocks@).update(
            bb as int,
            block_stmts(old(self).body.basic_blocks@)[bb as int] + seq![local_initializer, second],
        ));
        assert(second == (Statement {
            source_info: terminator_source(old(self).body.basic_blocks@[bb as int], old(self).default_source_info),
            kind: StatementKind::BorrowShared { dest: (local + 1) as usize, of: local },
        }));
        assert(block_terms(self.body.basic_blocks@) =~= block_terms(old(self).body.basic_blocks@));
        local
    }

    /// Ties a fresh token to region `re_vid` of the result of the call ending block
    /// `bb`: the call writes to a new local, and the block the call returns to starts
    /// by borrowing the token, pairing the borrow with the result under a user type
    /// annotation that ties the two, and moving the result to where the call wrote it
    /// before. Returns the token's local.
    pub fn tie_token_to_function_return(&mut self, bb: usize, call: FunctionCallAndRegions, re_vid: u32) -> (r: usize)
        requires
            old(self).wf(),
            returning_call(old(self).body.basic_blocks@, bb as int),
        ensures
            final(self).wf(),
            final(self).state() == tie_state(old(self).state(), bb as int, call, re_vid),
            final(self).body.basic_blocks@.len() == old(self).body.basic_blocks@.len(),
            ({
                let n = old(self).body.local_decls@.len() as usize;
                let t = old(self).body.basic_blocks@[bb as int].terminator->Some_0;
                let target = t.kind->Call_target->Some_0;
                let stmts = tie_statements(
                    t.source_info,
                    old(self).default_source_info,
                    old(self).dangling_addr_local,
                    n,
                    old(self).body.user_type_annotations@.len() as usize,
                    t.kind->Call_destination,
                );
                &&& r == old(self).body.local_decls@.len() + 2
                &&& final(self).body.local_decls@ == old(self).body.local_decls@
                    .push(LocalTy::Erased(call.erased))
                    .push(LocalTy::TokenBinder(call.erased))
                    .push(LocalTy::UnitRefMut)
                    .push(LocalTy::UnitRef)
                &&& final(self).body.user_type_annotations@ == old(self).body.user_type_annotations@.push(
                    UserTypeAnnotation { result_ty: call.generalized, re_vid, param_count: call.param_count })
                &&& block_terms(final(self).body.basic_blocks@) == block_terms(old(self).body.basic_blocks@).update(
                    bb as int,
                    Some(Terminator {
                        source_info: t.source_info,
                        kind: TerminatorKind::Call {
                            destination: Place { local: n, projection: 0 },
                            target: Some(target),
                        },
                    }),
                )
                &&& final(self).pending@.len() == 0
                &&& final(self).pending_block == target
                &&& block_stmts(final(self).body.basic_blocks@) == if target == old(self).pending_block {
                    flushed(block_stmts(old(self).body.basic_blocks@), old(self).pending@ + stmts, target as int)
                } else {
                    flushed(old(self).finished_stmts(), stmts, target as int)
                }
            }),
            final(self).body.span == old(self).body.span,
            final(self).dangling_addr_local == old(self).dangling_addr_local,
            final(self).default_source_info == old(self).default_source_info,
    {
        let term = self.body.basic_blocks[bb].terminator.unwrap();
        let (orig_call_out_place, call_out_bb) = match term.kind {
            TerminatorKind::Call { destination, target } => (destination, target.unwrap()),
            _ => {
                assert(false);
                (Place { local: 0, projection: 0 }, 0)
            },
        };
        let source_info = term.source_info;

        // The call now writes its (erased) result to a new local.
        let call_out = self.body.local_decls.len();
        self.body.local_decls.push(LocalTy::Erased(call.erased));
        let new_call_out_place = Place { local: call_out, projection: 0 };
        let ghost blocks0 = self.body.basic_blocks@;
        self.body.basic_blocks[bb].terminator = Some(Terminator {
            source_info,
            kind: TerminatorKind::Call { destination: new_call_out_place, target: Some(call_out_bb) },
        });
        assert(block_stmts(self.body.basic_blocks@) =~= block_stmts(blocks0));

        // The annotation tying the token borrow to the result.
        let annotation = self.body.user_type_annotations.len();
        self.body.user_type_annotations.push(UserTypeAnnotation {
            result_ty: call.generalized,
            re_vid,
            param_count: call.param_count,
        });

        let binder_local = self.body.local_decls.len();
        self.body.local_decls.push(LocalTy::TokenBinder(call.erased));
        let (token_local, token_initializer) = self.create_token();
        let token_rb_local = self.body.local_decls.len();
        self.body.local_decls.push(LocalTy::UnitRef);

        let mut stmts: Vec<Statement> = Vec::new();
        stmts.push(token_initializer);
        stmts.push(Statement {
            source_info,
            kind: StatementKind::BorrowShared { dest: token_rb_local, of: token_local },
        });
        stmts.push(Statement {
            source_info,
            kind: StatementKind::MakePair { dest: binder_local, first: token_rb_local, second: new_call_out_place },
        });
        stmts.push(Statement {
            source_info,
            kind: StatementKind::Ascribe { local: binder_local, annotation },
        });
        stmts.push(Statement {
            source_info,
            kind: StatementKind::MoveSecond { dest: orig_call_out_place, of: binder_local },
        });
        assert(stmts@ =~= tie_statements(
            source_info,
            old(self).default_source_info,
            old(self).dangling_addr_local,
            call_out,
            annotation,
            orig_call_out_place,
        ));
        let ghost mid = *self;
        self.prepend_statement(call_out_bb, stmts);
        let ghost mid2 = *self;
        self.flush_prepended();
        proof {
            assert(block_terms(self.body.basic_blocks@) =~= block_terms(old(self).body.basic_blocks@).update(
                bb as int,
                Some(Terminator {
                    source_info,
                    kind: TerminatorKind::Call { destination: new_call_out_place, target: Some(call_out_bb) },
                }),
            ));
            if call_out_bb == old(self).pending_block {
                assert(block_stmts(self.body.basic_blocks@) == mid2.finished_stmts());
            }
            let want = tie_state(old(self).state(), bb as int, call, re_vid);
            let got = self.state();
            assert(got.locals =~= want.locals);
            assert(got.stmts =~= want.stmts);
            assert(got.terms =~= want.terms);
            assert(got.annots =~= want.annots);
            assert(got.pending =~= want.pending);
        }
        token_local
    }

    /// The body with every gathered statement in place.
    pub fn finish(self) -> (r: MirBody)
        requires
            self.wf(),
        ensures
            block_stmts(r.basic_blocks@) == self.finished_stmts(),
            block_terms(r.basic_blocks@) == block_terms(self.body.basic_blocks@),
            r.local_decls@ == self.body.local_decls@,
            r.user_type_annotations@ == self.body.user_type_annotations@,
            r.span == self.body.span,
    {
        let mut b = self;
        b.flush_prepended();
        b.body
    }
}

} // verus!
