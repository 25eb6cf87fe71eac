use vstd::prelude::*;
use crate::vec_map::VecMap;

verus! {

/// A kind of value that is fed to the compiler's queries for a definition.
pub trait Feedable {
    type Fed;
}

/// The values fed for one feedable kind, per definition id, all within one compiler
/// session.
pub struct Feeder<F: Feedable> {
    session: Option<u64>,
    mappings: VecMap<F::Fed>,
}

impl<F: Feedable> Feeder<F> {
    pub closed spec fn session(&self) -> Option<u64> {
        self.session
    }

    /// The value fed for each definition.
    pub closed spec fn fed(&self) -> Map<u64, F::Fed> {
        self.mappings@
    }

    pub closed spec fn wf(&self) -> bool {
        self.mappings.wf()
    }

    /// A feeder of no session that holds nothing.
    pub fn new() -> (r: Feeder<F>)
        ensures
            r.wf(),
            r.session() is None,
            r.fed() == Map::<u64, F::Fed>::empty(),
    {
        Feeder { session: None, mappings: VecMap::new() }
    }

    /// Feeds `val` for definition `id` in `session`; every feed must come from the
    /// session of the first.
    pub fn feed(&mut self, session: u64, id: u64, val: F::Fed)
        requires
            old(self).wf(),
            old(self).session() is None || old(self).session() == Some(session),
        ensures
            final(self).wf(),
            final(self).session() == Some(session),
            final(self).fed() == old(self).fed().insert(id, val),
    {
        if self.session.is_none() {
            self.session = Some(session);
        }
        self.mappings.insert(id, val);
    }

    /// The value fed for definition `id`, if any; reads must come from the session of the
    /// feeds.
    pub fn read_feed(&self, session: u64, id: u64) -> (r: Option<&F::Fed>)
        requires
            self.wf(),
            self.session() is None || self.session() == Some(session),
        ensures
            match r {
                Some(v) => self.fed().contains_key(id) && self.fed()[id] == *v,
                None => !self.fed().contains_key(id),
            },
    {
        self.mappings.get_ref(id)
    }
}

/// Ties two lifetimes to a type, so that a value of it may borrow from both.
pub trait BindTwoLts<'a, 'b> {}

impl<'a, 'b, T: ?Sized> BindTwoLts<'a, 'b> for T {}

/// A context type that can provide a value of type `T` while running a closure.
pub trait CapTarget<T> {
    /// Runs `f` with `value` provided, returning what `f` returns.
    fn provide<R, F: FnOnce() -> R>(value: T, f: F) -> (r: R)
        requires
            f.requires(()),
        ensures
            f.ensures((), r);
}

} // verus!
