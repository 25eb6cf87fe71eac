use vstd::prelude::*;
use crate::leaks::{Block, LeakFn, LeakProgram, Primitive, Terminator};

verus! {

/// Builds a program for the leak analysis one function instance at a time, the way
/// the demo programs are written.
pub struct ProgramBuilder {
    pub fns: Vec<LeakFn>,
}

/// `f` is a body whose entry block calls `callee` and continues at a block that returns.
pub open spec fn calls_then_returns(f: LeakFn, callee: usize) -> bool {
    match f {
        LeakFn::Body { blocks, .. } => {
            &&& blocks@.len() == 2
            &&& blocks@[0].coercions@.len() == 0
            &&& blocks@[0].terminator == (Terminator::Call { callee, target: Some(1) })
            &&& blocks@[1].coercions@.len() == 0
            &&& blocks@[1].terminator is Return
        },
        _ => false,
    }
}

/// The body of a function that calls `callee` and returns.
fn call_and_return(callee: usize, span: u64) -> (r: LeakFn)
    ensures
        calls_then_returns(r, callee),
{
    let mut blocks: Vec<Block> = Vec::new();
    blocks.push(Block { coercions: Vec::new(), terminator: Terminator::Call { callee, target: Some(1) }, span });
    blocks.push(Block { coercions: Vec::new(), terminator: Terminator::Return, span });
    LeakFn::Body { blocks, span }
}

impl ProgramBuilder {
    /// A builder of the empty program.
    pub fn new() -> (r: ProgramBuilder)
        ensures
            r.fns@.len() == 0,
    {
        ProgramBuilder { fns: Vec::new() }
    }

    /// Adds a function instance and returns its index.
    pub fn push_fn(&mut self, f: LeakFn) -> (r: usize)
        requires
            old(self).fns@.len() < usize::MAX,
        ensures
            r == old(self).fns@.len(),
            final(self).fns@ == old(self).fns@.push(f),
    {
        let r = self.fns.len();
        self.fns.push(f);
        r
    }

    /// Adds a primitive on `component` and a function that calls it and returns; the
    /// index of the second is returned.
    fn push_wrapper(&mut self, kind: Primitive, component: u64) -> (r: usize)
        requires
            old(self).fns@.len() + 2 < usize::MAX,
        ensures
            r == old(self).fns@.len() + 1,
            final(self).fns@.len() == old(self).fns@.len() + 2,
            final(self).fns@.take(old(self).fns@.len() as int) == old(self).fns@,
            final(self).fns@[r - 1] == (LeakFn::Primitive { kind, component }),
            calls_then_returns(final(self).fns@[r as int], (r - 1) as usize),
    {
        let p = self.push_fn(LeakFn::Primitive { kind, component });
        let r = self.push_fn(call_and_return(p, 0));
        assert(self.fns@.take(old(self).fns@.len() as int) =~= old(self).fns@);
        r
    }

    /// The program built so far.
    pub fn into_program(self) -> (r: LeakProgram)
        ensures
            r.fns@ == self.fns@,
    {
        LeakProgram { fns: self.fns }
    }
}

/// `borrow_mutably::<T>()` of the demos: a function that calls the primitive
/// `__autoken_borrow_mutably::<T>` on `component` and returns. Returns its index.
pub fn borrow_mutably(b: &mut ProgramBuilder, component: u64) -> (r: usize)
    requires
        old(b).fns@.len() + 2 < usize::MAX,
    ensures
        r == old(b).fns@.len() + 1,
        final(b).fns@.len() == old(b).fns@.len() + 2,
        final(b).fns@.take(old(b).fns@.len() as int) == old(b).fns@,
        final(b).fns@[r - 1] == (LeakFn::Primitive { kind: Primitive::BorrowMutably, component }),
        calls_then_returns(final(b).fns@[r as int], (r - 1) as usize),
{
    b.push_wrapper(Primitive::BorrowMutably, component)
}

/// `unborrow_mutably::<T>()` of the demos: a function that calls the primitive
/// `__autoken_unborrow_mutably::<T>` on `component` and returns. Returns its index.
pub fn unborrow_mutably(b: &mut ProgramBuilder, component: u64) -> (r: usize)
    requires
        old(b).fns@.len() + 2 < usize::MAX,
    ensures
        r == old(b).fns@.len() + 1,
        final(b).fns@.len() == old(b).fns@.len() + 2,
        final(b).fns@.take(old(b).fns@.len() as int) == old(b).fns@,
        final(b).fns@[r - 1] == (LeakFn::Primitive { kind: Primitive::UnborrowMutably, component }),
        calls_then_returns(final(b).fns@[r as int], (r - 1) as usize),
{
    b.push_wrapper(Primitive::UnborrowMutably, component)
}

/// `borrow_immutably::<T>()` of the demos, like `borrow_mutably`.
pub fn borrow_immutably(b: &mut ProgramBuilder, component: u64) -> (r: usize)
    requires
        old(b).fns@.len() + 2 < usize::MAX,
    ensures
        r == old(b).fns@.len() + 1,
        final(b).fns@.len() == old(b).fns@.len() + 2,
        final(b).fns@.take(old(b).fns@.len() as int) == old(b).fns@,
        final(b).fns@[r - 1] == (LeakFn::Primitive { kind: Primitive::BorrowImmutably, component }),
        calls_then_returns(final(b).fns@[r as int], (r - 1) as usize),
{
    b.push_wrapper(Primitive::BorrowImmutably, component)
}

/// `unborrow_immutably::<T>()` of the demos, like `unborrow_mutably`.
pub fn unborrow_immutably(b: &mut ProgramBuilder, component: u64) -> (r: usize)
    requires
        old(b).fns@.len() + 2 < usize::MAX,
    ensures
        r == old(b).fns@.len() + 1,
        final(b).fns@.len() == old(b).fns@.len() + 2,
        final(b).fns@.take(old(b).fns@.len() as int) == old(b).fns@,
        final(b).fns@[r - 1] == (LeakFn::Primitive { kind: Primitive::UnborrowImmutably, component }),
        calls_then_returns(final(b).fns@[r as int], (r - 1) as usize),
{
    b.push_wrapper(Primitive::UnborrowImmutably, component)
}

/// The token type of the demos that borrow a component standing for nothing.
pub struct Nothing {
    pub __autoken_nothing_type_field_indicator: (),
}

/// The `Lock` of the demos: creating one borrows the lock's component mutably and
/// dropping it gives the borrow back. Holds the indices of `Lock::new` and of its
/// `drop`.
pub struct Lock {
    pub new_fn: usize,
    pub drop_fn: usize,
}

impl Lock {
    /// Adds `Lock::new`, which calls `borrow_mutably` on `component`, and the `drop` of
    /// its `Drop` impl, which calls `unborrow_mutably` on it, to the program.
    pub fn new(b: &mut ProgramBuilder, component: u64) -> (r: Lock)
        requires
            old(b).fns@.len() + 6 < usize::MAX,
        ensures
            final(b).fns@.len() == old(b).fns@.len() + 6,
            final(b).fns@.take(old(b).fns@.len() as int) == old(b).fns@,
            r.new_fn == old(b).fns@.len() + 2,
            r.drop_fn == old(b).fns@.len() + 5,
            final(b).fns@[old(b).fns@.len() as int] == (LeakFn::Primitive { kind: Primitive::BorrowMutably, component }),
            calls_then_returns(final(b).fns@[old(b).fns@.len() + 1int], old(b).fns@.len() as usize),
            calls_then_returns(final(b).fns@[r.new_fn as int], (old(b).fns@.len() + 1) as usize),
            final(b).fns@[old(b).fns@.len() + 3int] == (LeakFn::Primitive { kind: Primitive::UnborrowMutably, component }),
            calls_then_returns(final(b).fns@[old(b).fns@.len() + 4int], (old(b).fns@.len() + 3) as usize),
            calls_then_returns(final(b).fns@[r.drop_fn as int], (old(b).fns@.len() + 4) as usize),
    {
        let ghost n0: int = b.fns@.len() as int;
        let borrow = borrow_mutably(b, component);
        let ghost s0 = b.fns@;
        let new_fn = b.push_fn(call_and_return(borrow, 0));
        let ghost s1 = b.fns@;
        let unborrow = unborrow_mutably(b, component);
        let ghost s2 = b.fns@;
        let drop_fn = b.push_fn(call_and_return(unborrow, 0));
        proof {
            assert forall|i: int| 0 <= i < n0 implies #[trigger] b.fns@[i] == old(b).fns@[i] by {
                assert(s0.take(n0)[i] == old(b).fns@[i]);
                assert(s1[i] == s0[i]);
                assert(s2.take(s1.len() as int)[i] == s1[i]);
                assert(b.fns@[i] == s2[i]);
            }
            assert(b.fns@[n0] == s1[n0]);
            assert(b.fns@[n0 + 1] == s1[n0 + 1]);
            assert(b.fns@[n0 + 2] == s1[n0 + 2]);
            assert(b.fns@.take(n0) =~= old(b).fns@);
        }
        Lock { new_fn, drop_fn }
    }
}

} // verus!
