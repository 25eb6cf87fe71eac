use vstd::prelude::*;
use core::marker::PhantomData;

verus! {

/// A value that is set once and read afterwards.
pub struct MyOnceLock<T> {
    value: Option<T>,
}

impl<T: Copy> MyOnceLock<T> {
    /// The value, once it is set.
    pub closed spec fn value(&self) -> Option<T> {
        self.value
    }

    /// A lock that holds nothing yet.
    pub fn new() -> (r: MyOnceLock<T>)
        ensures
            r.value() is None,
    {
        MyOnceLock { value: None }
    }

    /// Sets the value; a lock can be set only once (setting it again is refused by
    /// this contract, where an unchecked caller would panic).
    pub fn init(&mut self, value: T)
        requires
            old(self).value() is None,
        ensures
            final(self).value() == Some(value),
    {
        self.value = Some(value);
    }

    /// The value, which must have been set.
    pub fn get(&self) -> (r: T)
        requires
            self.value() is Some,
        ensures
            Some(r) == self.value(),
    {
        self.value.unwrap()
    }
}

/// A lock is set at most once: once `init(a)` has turned the empty lock `before` into
/// `after`, `init` is refused on `after` for every value (its `requires` fails, where an
/// unchecked caller panics), and every `get` on it returns `a`.
pub proof fn lemma_once_lock_set_once<T: Copy>(before: MyOnceLock<T>, after: MyOnceLock<T>, a: T)
    requires
        before.value() is None,
        after.value() == Some(a),
    ensures
        !(after.value() is None),
        forall|r: T| Some(r) == after.value() ==> r == a,
{
}

/// A value that a pool can hand out again once it is cleared.
pub trait PoolElem: Default {
    /// What the value is once it has been cleared.
    spec fn cleared(&self) -> Self;

    /// Clears the value for its next use.
    fn reset(&mut self)
        ensures
            *final(self) == old(self).cleared();
}

/// A pool of cleared values ready for reuse.
pub struct Pool<T> {
    free: Vec<T>,
}

/// A value taken from a pool; `release` gives it back.
pub struct PoolGuard<T: PoolElem> {
    pub value: T,
}

impl<T> Pool<T> {
    /// The values ready for reuse, the next one last.
    pub closed spec fn free(&self) -> Seq<T> {
        self.free@
    }

    /// An empty pool.
    pub fn new() -> (r: Pool<T>)
        ensures
            r.free() == Seq::<T>::empty(),
    {
        Pool { free: Vec::new() }
    }
}

impl<T: PoolElem> Pool<T> {
    /// Takes the value given back last, or a new default value when none is free.
    pub fn grab(&mut self) -> (r: PoolGuard<T>)
        ensures
            old(self).free().len() > 0 ==> r.value == old(self).free().last()
                && final(self).free() == old(self).free().drop_last(),
            old(self).free().len() == 0 ==> call_ensures(T::default, (), r.value)
                && final(self).free() == old(self).free(),
    {
        match self.free.pop() {
            Some(value) => PoolGuard { value },
            None => PoolGuard { value: T::default() },
        }
    }

    /// Clears the guard's value and makes it the next value handed out.
    pub fn release(&mut self, guard: PoolGuard<T>)
        ensures
            final(self).free() == old(self).free().push(guard.value.cleared()),
    {
        let mut value = guard.value;
        value.reset();
        self.free.push(value);
    }
}

/// A value computed on first use by a function that may fail.
pub enum LazilyComputed<V, F> {
    Ready(V),
    Pending(Option<F>),
}

impl<V, E, F: FnOnce() -> Result<V, E>> LazilyComputed<V, F> {
    /// A value still to be computed by `f`.
    pub fn new(f: F) -> (r: LazilyComputed<V, F>)
        ensures
            r == LazilyComputed::<V, F>::Pending(Some(f)),
    {
        LazilyComputed::Pending(Some(f))
    }

    /// The value, computing it first when it is still pending, as a reference through
    /// which the caller may change the stored value. When the computation fails its
    /// error is returned and no value is kept; the value may not be asked for again
    /// after that.
    pub fn get(&mut self) -> (r: Result<&mut V, E>)
        requires
            !(*old(self) matches LazilyComputed::Pending(None)),
            *old(self) matches LazilyComputed::Pending(Some(f)) ==> call_requires(f, ()),
        ensures
            match *old(self) {
                LazilyComputed::Ready(v) => match r {
                    Ok(rv) => *rv == v && *final(self) == LazilyComputed::<V, F>::Ready(*final(rv)),
                    Err(_) => false,
                },
                LazilyComputed::Pending(Some(f)) => exists|res: Result<V, E>| {
                    &&& call_ensures(f, (), res)
                    &&& match res {
                        Ok(v) => match r {
                            Ok(rv) => *rv == v && *final(self) == LazilyComputed::<V, F>::Ready(*final(rv)),
                            Err(_) => false,
                        },
                        Err(e) => *final(self) == LazilyComputed::<V, F>::Pending(None) && match r {
                            Err(re) => re == e,
                            Ok(_) => false,
                        },
                    }
                },
                LazilyComputed::Pending(None) => false,
            },
    {
        let pending = match self {
            LazilyComputed::Ready(_) => None,
            LazilyComputed::Pending(f) => f.take(),
        };
        match pending {
            Some(f) => {
                let res = f();
                match res {
                    Ok(v) => {
                        *self = LazilyComputed::Ready(v);
                    },
                    Err(e) => {
                        return Err(e);
                    },
                }
            },
            None => {},
        }
        match self {
            LazilyComputed::Ready(v) => Ok(v),
            LazilyComputed::Pending(_) => vstd::pervasive::unreached(),
        }
    }
}

/// The build-hasher of a default hasher `H`, constructible in a constant context.
pub struct ConstSafeBuildHasherDefault<H>(pub PhantomData<H>);

impl<H> ConstSafeBuildHasherDefault<H> {
    pub fn new() -> (r: ConstSafeBuildHasherDefault<H>)
        ensures
            r == ConstSafeBuildHasherDefault::<H>(PhantomData),
    {
        ConstSafeBuildHasherDefault(PhantomData)
    }
}

impl<H> Default for ConstSafeBuildHasherDefault<H> {
    fn default() -> (r: ConstSafeBuildHasherDefault<H>)
        ensures
            r == ConstSafeBuildHasherDefault::<H>(PhantomData),
    {
        ConstSafeBuildHasherDefault::new()
    }
}

/// The scope in which a capability is provided: entering it points the capability's
/// context slot at the provided value (by address); leaving it puts back the address
/// the slot held before the scope was entered, so nested scopes unwind in order.
pub struct CxScope {
    prev: usize,
}

impl CxScope {
    /// The address the scope puts back when it is left.
    pub closed spec fn restores(&self) -> usize {
        self.prev
    }

    /// Enters the scope: records the slot's current address, then sets it to `new_ptr`.
    pub fn new(slot: &mut usize, new_ptr: usize) -> (r: CxScope)
        ensures
            *final(slot) == new_ptr,
            r.restores() == *old(slot),
    {
        let prev = *slot;
        *slot = new_ptr;
        CxScope { prev }
    }

    /// Leaves the scope, putting back the address it recorded.
    pub fn exit(self, slot: &mut usize)
        ensures
            *final(slot) == self.restores(),
    {
        *slot = self.prev;
    }
}

} // verus!
