use vstd::prelude::*;
use core::marker::PhantomData;

verus! {

/// The cells that objects live in: an object is created once and lives as long as the
/// store.
pub struct ObjStore<T> {
    cells: Vec<T>,
}

impl<T> ObjStore<T> {
    /// The values of the objects, by identity.
    pub closed spec fn values(&self) -> Seq<T> {
        self.cells@
    }

    /// A store holding no object.
    pub fn new() -> (r: ObjStore<T>)
        ensures
            r.values() == Seq::<T>::empty(),
    {
        ObjStore { cells: Vec::new() }
    }
}

/// A shared handle to an object of type `T`; handles are equal when they name the same
/// object.
pub struct Obj<T> {
    index: usize,
    marker: PhantomData<T>,
}

impl<T> Clone for Obj<T> {
    fn clone(&self) -> (r: Obj<T>)
        ensures
            r.id() == self.id(),
    {
        Obj { index: self.index, marker: PhantomData }
    }
}

impl<T> Copy for Obj<T> {}

impl<T> Obj<T> {
    /// The identity of the object.
    pub closed spec fn id(&self) -> nat {
        self.index as nat
    }

    /// A new object holding `value`, distinct from every object created before.
    pub fn new(store: &mut ObjStore<T>, value: T) -> (r: Obj<T>)
        ensures
            final(store).values() == old(store).values().push(value),
            r.id() == old(store).values().len(),
    {
        let index = store.cells.len();
        store.cells.push(value);
        Obj { index, marker: PhantomData }
    }

    /// Whether the two handles name the same object.
    pub fn same(&self, other: &Obj<T>) -> (r: bool)
        ensures
            r == (self.id() == other.id()),
    {
        self.index == other.index
    }

    /// The object's value.
    pub fn get<'a>(self, store: &'a ObjStore<T>) -> (r: &'a T)
        requires
            self.id() < store.values().len(),
        ensures
            *r == store.values()[self.id() as int],
    {
        &store.cells[self.index]
    }

    /// The object's value, to change it.
    pub fn get_mut<'a>(self, store: &'a mut ObjStore<T>) -> (r: &'a mut T)
        requires
            self.id() < old(store).values().len(),
        ensures
            *r == old(store).values()[self.id() as int],
            final(store).values() == old(store).values().update(self.id() as int, *final(r)),
    {
        &mut store.cells[self.index]
    }
}

/// A handle to an object seen through a trait object type: the object's identity and
/// the metadata (by id) of the unsized view.
pub struct DynObj<T: ?Sized> {
    pointee: usize,
    metadata: u64,
    marker: PhantomData<Box<T>>,
}

impl<T: ?Sized> Clone for DynObj<T> {
    fn clone(&self) -> (r: DynObj<T>)
        ensures
            r.id() == self.id(),
            r.metadata() == self.metadata(),
    {
        DynObj { pointee: self.pointee, metadata: self.metadata, marker: PhantomData }
    }
}

impl<T: ?Sized> Copy for DynObj<T> {}

impl<T: ?Sized> DynObj<T> {
    /// The identity of the object.
    pub closed spec fn id(&self) -> nat {
        self.pointee as nat
    }

    /// The metadata of the unsized view.
    pub closed spec fn metadata(&self) -> u64 {
        self.metadata
    }

    /// The object `value` seen through the unsized view with metadata `metadata`.
    pub fn new<V>(value: Obj<V>, metadata: u64) -> (r: DynObj<T>)
        ensures
            r.id() == value.id(),
            r.metadata() == metadata,
    {
        DynObj { pointee: value.index, metadata, marker: PhantomData }
    }

    /// Whether the two handles name the same object; the view is not compared.
    pub fn same(&self, other: &DynObj<T>) -> (r: bool)
        ensures
            r == (self.id() == other.id()),
    {
        self.pointee == other.pointee
    }
}

/// Objects are fresh: the object created last is distinct from every object created
/// before it, and what is written through one handle is what the next read through any
/// handle to the same object gives back.
pub proof fn lemma_obj_fresh_and_coherent<T>(before: Seq<T>, o: Obj<T>, created: Obj<T>, v: T)
    requires
        o.id() < before.len(),
        created.id() == before.len(),
    ensures
        o.id() != created.id(),
        before.update(o.id() as int, v)[o.id() as int] == v,
        forall|p: Obj<T>| p.id() == o.id() ==> before.update(o.id() as int, v)[p.id() as int] == v,
{
}

} // verus!
