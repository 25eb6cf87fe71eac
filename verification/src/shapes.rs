use vstd::prelude::*;
use crate::vec_map::VecMap;
use vstd::string::StringExecFns;
use crate::launcher::texts;

verus! {

/// The kinds of type that hold no region.
#[derive(Debug, Clone, Copy, PartialEq, Eq)]
pub enum LeafKind {
    Bool,
    Char,
    Int,
    Uint,
    Float,
    Foreign,
    Str,
    Never,
    Error,
}

/// The region structure of a type: where its regions (by id) stand and what it is
/// built from.
#[derive(Debug)]
pub enum TyShape {
    Adt(Vec<GenericArgShape>),
    Array(Box<TyShape>),
    Slice(Box<TyShape>),
    RawPtr(Box<TyShape>),
    Ref(u64, Box<TyShape>),
    FnDef(Vec<GenericArgShape>),
    /// The inputs and the output of a function pointer.
    FnPtr(Vec<TyShape>),
    /// The predicates of a trait object and its region.
    Dynamic(Vec<PredicateShape>, u64),
    Closure(Vec<GenericArgShape>),
    Tuple(Vec<TyShape>),
    Leaf(LeafKind),
    /// A coroutine, an inference variable, a parameter, an alias or a bound type: the
    /// traversal does not handle these.
    Opaque,
}

/// A generic argument: a region, a type or a constant.
#[derive(Debug)]
pub enum GenericArgShape {
    Lifetime(u64),
    Type(TyShape),
    Const,
}

/// The term a projection predicate binds.
#[derive(Debug)]
pub enum TermShape {
    Ty(TyShape),
    Const,
}

/// A predicate of a trait object.
#[derive(Debug)]
pub enum PredicateShape {
    Trait(Vec<GenericArgShape>),
    Projection(Vec<GenericArgShape>, TermShape),
    AutoTrait,
}

/// Whether two types of the same structure can be walked side by side: each pair of
/// corresponding parts is of the same kind, up to the length of the shorter list.
pub open spec fn ty_walkable(l: TyShape, r: TyShape) -> bool
    decreases l,
{
    match (l, r) {
        (TyShape::Adt(a), TyShape::Adt(b)) => args_walkable(a@, b@),
        (TyShape::Array(a), TyShape::Array(b)) => ty_walkable(*a, *b),
        (TyShape::Slice(a), TyShape::Slice(b)) => ty_walkable(*a, *b),
        (TyShape::RawPtr(a), TyShape::RawPtr(b)) => ty_walkable(*a, *b),
        (TyShape::Ref(_, a), TyShape::Ref(_, b)) => ty_walkable(*a, *b),
        (TyShape::FnDef(a), TyShape::FnDef(b)) => args_walkable(a@, b@),
        (TyShape::FnPtr(a), TyShape::FnPtr(b)) => tys_walkable(a@, b@),
        (TyShape::Dynamic(p, _), TyShape::Dynamic(q, _)) => preds_walkable(p@, q@),
        (TyShape::Closure(a), TyShape::Closure(b)) => args_walkable(a@, b@),
        (TyShape::Tuple(a), TyShape::Tuple(b)) => tys_walkable(a@, b@),
        (TyShape::Leaf(a), TyShape::Leaf(b)) => a == b,
        _ => false,
    }
}

pub open spec fn arg_walkable(l: GenericArgShape, r: GenericArgShape) -> bool
    decreases l,
{
    match (l, r) {
        (GenericArgShape::Lifetime(_), GenericArgShape::Lifetime(_)) => true,
        (GenericArgShape::Type(a), GenericArgShape::Type(b)) => ty_walkable(a, b),
        (GenericArgShape::Const, GenericArgShape::Const) => true,
        _ => false,
    }
}

pub open spec fn pred_walkable(l: PredicateShape, r: PredicateShape) -> bool
    decreases l,
{
    match (l, r) {
        (PredicateShape::Trait(a), PredicateShape::Trait(b)) => args_walkable(a@, b@),
        (PredicateShape::Projection(a, s), PredicateShape::Projection(b, t)) => {
            &&& args_walkable(a@, b@)
            &&& match (s, t) {
                (TermShape::Ty(x), TermShape::Ty(y)) => ty_walkable(x, y),
                (TermShape::Const, TermShape::Const) => true,
                _ => false,
            }
        },
        (PredicateShape::AutoTrait, PredicateShape::AutoTrait) => true,
        _ => false,
    }
}

pub open spec fn args_walkable(a: Seq<GenericArgShape>, b: Seq<GenericArgShape>) -> bool
    decreases a,
{
    if a.len() == 0 || b.len() == 0 {
        true
    } else {
        arg_walkable(a[0], b[0]) && args_walkable(a.drop_first(), b.drop_first())
    }
}

pub open spec fn tys_walkable(a: Seq<TyShape>, b: Seq<TyShape>) -> bool
    decreases a,
{
    if a.len() == 0 || b.len() == 0 {
        true
    } else {
        ty_walkable(a[0], b[0]) && tys_walkable(a.drop_first(), b.drop_first())
    }
}

pub open spec fn preds_walkable(a: Seq<PredicateShape>, b: Seq<PredicateShape>) -> bool
    decreases a,
{
    if a.len() == 0 || b.len() == 0 {
        true
    } else {
        pred_walkable(a[0], b[0]) && preds_walkable(a.drop_first(), b.drop_first())
    }
}

/// The pairs of corresponding regions of two types, in the order of a left-to-right
/// walk: the region of a reference or a trait object before what it contains.
pub open spec fn ty_pairs(l: TyShape, r: TyShape) -> Seq<(u64, u64)>
    decreases l,
{
    match (l, r) {
        (TyShape::Adt(a), TyShape::Adt(b)) => args_pairs(a@, b@),
        (TyShape::Array(a), TyShape::Array(b)) => ty_pairs(*a, *b),
        (TyShape::Slice(a), TyShape::Slice(b)) => ty_pairs(*a, *b),
        (TyShape::RawPtr(a), TyShape::RawPtr(b)) => ty_pairs(*a, *b),
        (TyShape::Ref(x, a), TyShape::Ref(y, b)) => seq![(x, y)] + ty_pairs(*a, *b),
        (TyShape::FnDef(a), TyShape::FnDef(b)) => args_pairs(a@, b@),
        (TyShape::FnPtr(a), TyShape::FnPtr(b)) => tys_pairs(a@, b@),
        (TyShape::Dynamic(p, x), TyShape::Dynamic(q, y)) => seq![(x, y)] + preds_pairs(p@, q@),
        (TyShape::Closure(a), TyShape::Closure(b)) => args_pairs(a@, b@),
        (TyShape::Tuple(a), TyShape::Tuple(b)) => tys_pairs(a@, b@),
        _ => seq![],
    }
}

pub open spec fn arg_pairs(l: GenericArgShape, r: GenericArgShape) -> Seq<(u64, u64)>
    decreases l,
{
    match (l, r) {
        (GenericArgShape::Lifetime(x), GenericArgShape::Lifetime(y)) => seq![(x, y)],
        (GenericArgShape::Type(a), GenericArgShape::Type(b)) => ty_pairs(a, b),
        _ => seq![],
    }
}

pub open spec fn pred_pairs(l: PredicateShape, r: PredicateShape) -> Seq<(u64, u64)>
    decreases l,
{
    match (l, r) {
        (PredicateShape::Trait(a), PredicateShape::Trait(b)) => args_pairs(a@, b@),
        (PredicateShape::Projection(a, s), PredicateShape::Projection(b, t)) => {
            args_pairs(a@, b@) + match (s, t) {
                (TermShape::Ty(x), TermShape::Ty(y)) => ty_pairs(x, y),
                _ => seq![],
            }
        },
        _ => seq![],
    }
}

pub open spec fn args_pairs(a: Seq<GenericArgShape>, b: Seq<GenericArgShape>) -> Seq<(u64, u64)>
    decreases a,
{
    if a.len() == 0 || b.len() == 0 {
        seq![]
    } else {
        arg_pairs(a[0], b[0]) + args_pairs(a.drop_first(), b.drop_first())
    }
}

pub open spec fn tys_pairs(a: Seq<TyShape>, b: Seq<TyShape>) -> Seq<(u64, u64)>
    decreases a,
{
    if a.len() == 0 || b.len() == 0 {
        seq![]
    } else {
        ty_pairs(a[0], b[0]) + tys_pairs(a.drop_first(), b.drop_first())
    }
}

pub open spec fn preds_pairs(a: Seq<PredicateShape>, b: Seq<PredicateShape>) -> Seq<(u64, u64)>
    decreases a,
{
    if a.len() == 0 || b.len() == 0 {
        seq![]
    } else {
        pred_pairs(a[0], b[0]) + preds_pairs(a.drop_first(), b.drop_first())
    }
}

/// A side-by-side walk over two types of the same structure that records each pair
/// of corresponding regions, in walk order.
pub struct ParRegionTraversal {
    pairs: Vec<(u64, u64)>,
}

impl ParRegionTraversal {
    /// The pairs recorded so far.
    pub closed spec fn recorded(&self) -> Seq<(u64, u64)> {
        self.pairs@
    }

    /// A walk that has recorded nothing.
    pub fn new() -> (r: ParRegionTraversal)
        ensures
            r.recorded() == Seq::<(u64, u64)>::empty(),
    {
        ParRegionTraversal { pairs: Vec::new() }
    }

    /// The pairs recorded so far.
    pub fn into_pairs(self) -> (r: Vec<(u64, u64)>)
        ensures
            r@ == self.recorded(),
    {
        self.pairs
    }

    fn traverse(&mut self, left: &GenericArgShape, right: &GenericArgShape)
        requires
            arg_walkable(*left, *right),
        ensures
            final(self).recorded() == old(self).recorded() + arg_pairs(*left, *right),
        decreases left,
    {
        match (left, right) {
            (GenericArgShape::Lifetime(l), GenericArgShape::Lifetime(r)) => {
                self.traverse_lifetimes(*l, *r);
            },
            (GenericArgShape::Type(l), GenericArgShape::Type(r)) => {
                self.traverse_types(l, r);
            },
            _ => {
                // Constants hold no region.
                assert(arg_pairs(*left, *right) =~= Seq::<(u64, u64)>::empty());
                assert(self.recorded() =~= old(self).recorded() + arg_pairs(*left, *right));
            },
        }
    }

    fn traverse_lists(&mut self, left: &Vec<GenericArgShape>, right: &Vec<GenericArgShape>)
        requires
            args_walkable(left@, right@),
        ensures
            final(self).recorded() == old(self).recorded() + args_pairs(left@, right@),
        decreases left,
    {
        let mut i: usize = 0;
        assert(left@.skip(0) =~= left@);
        assert(right@.skip(0) =~= right@);
        while i < left.len() && i < right.len()
            invariant
                i <= left.len(),
                i <= right.len(),
                args_walkable(left@.skip(i as int), right@.skip(i as int)),
                self.recorded() + args_pairs(left@.skip(i as int), right@.skip(i as int))
                    == old(self).recorded() + args_pairs(left@, right@),
            decreases left.len() - i,
        {
            let ghost ls = left@.skip(i as int);
            let ghost rs = right@.skip(i as int);
            assert(ls[0] == left@[i as int]);
            assert(rs[0] == right@[i as int]);
            assert(ls.drop_first() =~= left@.skip(i + 1));
            assert(rs.drop_first() =~= right@.skip(i + 1));
            assert(decreases_to!(left => left@[i as int]));
            self.traverse(&left[i], &right[i]);
            i = i + 1;
            assert(self.recorded() + args_pairs(left@.skip(i as int), right@.skip(i as int))
                =~= old(self).recorded() + args_pairs(left@, right@));
        }
        assert(left@.skip(i as int).len() == 0 || right@.skip(i as int).len() == 0);
        assert(self.recorded() =~= old(self).recorded() + args_pairs(left@, right@));
    }


    fn traverse_types(&mut self, left: &TyShape, right: &TyShape)
        requires
            ty_walkable(*left, *right),
        ensures
            final(self).recorded() == old(self).recorded() + ty_pairs(*left, *right),
        decreases left,
    {
        match (left, right) {
            (TyShape::Adt(l), TyShape::Adt(r)) => {
                self.traverse_lists(l, r);
            },
            (TyShape::Array(l), TyShape::Array(r)) => {
                self.traverse_types(l, r);
            },
            (TyShape::Slice(l), TyShape::Slice(r)) => {
                self.traverse_types(l, r);
            },
            (TyShape::RawPtr(l), TyShape::RawPtr(r)) => {
                self.traverse_types(l, r);
            },
            (TyShape::Ref(lr, l), TyShape::Ref(rr, r)) => {
                self.traverse_lifetimes(*lr, *rr);
                self.traverse_types(l, r);
                assert(self.recorded() =~= old(self).recorded() + ty_pairs(*left, *right));
            },
            (TyShape::FnDef(l), TyShape::FnDef(r)) => {
                self.traverse_lists(l, r);
            },
            (TyShape::FnPtr(l), TyShape::FnPtr(r)) => {
                self.traverse_type_lists(l, r);
            },
            (TyShape::Dynamic(lp, lr), TyShape::Dynamic(rp, rr)) => {
                self.traverse_lifetimes(*lr, *rr);
                self.traverse_predicate_lists(lp, rp);
                assert(self.recorded() =~= old(self).recorded() + ty_pairs(*left, *right));
            },
            (TyShape::Closure(l), TyShape::Closure(r)) => {
                self.traverse_lists(l, r);
            },
            (TyShape::Tuple(l), TyShape::Tuple(r)) => {
                self.traverse_type_lists(l, r);
            },
            _ => {
                // Types that hold no region are dead ends.
                assert(ty_pairs(*left, *right) =~= Seq::<(u64, u64)>::empty());
                assert(self.recorded() =~= old(self).recorded() + ty_pairs(*left, *right));
            },
        }
    }

    fn traverse_lifetimes(&mut self, left: u64, right: u64)
        ensures
            final(self).recorded() == old(self).recorded().push((left, right)),
    {
        self.pairs.push((left, right));
    }

    fn traverse_predicate_lists(&mut self, left: &Vec<PredicateShape>, right: &Vec<PredicateShape>)
        requires
            preds_walkable(left@, right@),
        ensures
            final(self).recorded() == old(self).recorded() + preds_pairs(left@, right@),
        decreases left,
    {
        let mut i: usize = 0;
        assert(left@.skip(0) =~= left@);
        assert(right@.skip(0) =~= right@);
        while i < left.len() && i < right.len()
            invariant
                i <= left.len(),
                i <= right.len(),
                preds_walkable(left@.skip(i as int), right@.skip(i as int)),
                self.recorded() + preds_pairs(left@.skip(i as int), right@.skip(i as int))
                    == old(self).recorded() + preds_pairs(left@, right@),
            decreases left.len() - i,
        {
            let ghost ls = left@.skip(i as int);
            let ghost rs = right@.skip(i as int);
            assert(ls[0] == left@[i as int]);
            assert(rs[0] == right@[i as int]);
            assert(ls.drop_first() =~= left@.skip(i + 1));
            assert(rs.drop_first() =~= right@.skip(i + 1));
            assert(decreases_to!(left => left@[i as int]));
            self.traverse_predicate(&left[i], &right[i]);
            i = i + 1;
            assert(self.recorded() + preds_pairs(left@.skip(i as int), right@.skip(i as int))
                =~= old(self).recorded() + preds_pairs(left@, right@));
        }
        assert(self.recorded() =~= old(self).recorded() + preds_pairs(left@, right@));
    }

    fn traverse_predicate(&mut self, left: &PredicateShape, right: &PredicateShape)
        requires
            pred_walkable(*left, *right),
        ensures
            final(self).recorded() == old(self).recorded() + pred_pairs(*left, *right),
        decreases left,
    {
        match (left, right) {
            (PredicateShape::Trait(l), PredicateShape::Trait(r)) => {
                self.traverse_lists(l, r);
            },
            (PredicateShape::Projection(l, lt), PredicateShape::Projection(r, rt)) => {
                self.traverse_lists(l, r);
                match (lt, rt) {
                    (TermShape::Ty(x), TermShape::Ty(y)) => {
                        self.traverse_types(x, y);
                    },
                    _ => {},
                }
                assert(self.recorded() =~= old(self).recorded() + pred_pairs(*left, *right));
            },
            _ => {
                assert(pred_pairs(*left, *right) =~= Seq::<(u64, u64)>::empty());
                assert(self.recorded() =~= old(self).recorded() + pred_pairs(*left, *right));
            },
        }
    }

    fn traverse_type_lists(&mut self, left: &Vec<TyShape>, right: &Vec<TyShape>)
        requires
            tys_walkable(left@, right@),
        ensures
            final(self).recorded() == old(self).recorded() + tys_pairs(left@, right@),
        decreases left,
    {
        let mut i: usize = 0;
        assert(left@.skip(0) =~= left@);
        assert(right@.skip(0) =~= right@);
        while i < left.len() && i < right.len()
            invariant
                i <= left.len(),
                i <= right.len(),
                tys_walkable(left@.skip(i as int), right@.skip(i as int)),
                self.recorded() + tys_pairs(left@.skip(i as int), right@.skip(i as int))
                    == old(self).recorded() + tys_pairs(left@, right@),
            decreases left.len() - i,
        {
            let ghost ls = left@.skip(i as int);
            let ghost rs = right@.skip(i as int);
            assert(ls[0] == left@[i as int]);
            assert(rs[0] == right@[i as int]);
            assert(ls.drop_first() =~= left@.skip(i + 1));
            assert(rs.drop_first() =~= right@.skip(i + 1));
            assert(decreases_to!(left => left@[i as int]));
            self.traverse_types(&left[i], &right[i]);
            i = i + 1;
            assert(self.recorded() + tys_pairs(left@.skip(i as int), right@.skip(i as int))
                =~= old(self).recorded() + tys_pairs(left@, right@));
        }
        assert(self.recorded() =~= old(self).recorded() + tys_pairs(left@, right@));
    }
}

/// The pairs of corresponding regions of two types of the same structure, in walk
/// order.
pub fn par_traverse_regions(left: &TyShape, right: &TyShape) -> (r: Vec<(u64, u64)>)
    requires
        ty_walkable(*left, *right),
    ensures
        r@ == ty_pairs(*left, *right),
{
    let mut walk = ParRegionTraversal::new();
    walk.traverse_types(left, right);
    assert(walk.recorded() =~= ty_pairs(*left, *right));
    walk.into_pairs()
}


/// The regions of a type in the order a region folder meets them: a reference's region
/// before its pointee, a trait object's predicates before its region.
pub open spec fn ty_regions(t: TyShape) -> Seq<u64>
    decreases t,
{
    match t {
        TyShape::Adt(a) => args_regions(a@),
        TyShape::Array(a) => ty_regions(*a),
        TyShape::Slice(a) => ty_regions(*a),
        TyShape::RawPtr(a) => ty_regions(*a),
        TyShape::Ref(x, a) => seq![x] + ty_regions(*a),
        TyShape::FnDef(a) => args_regions(a@),
        TyShape::FnPtr(a) => tys_regions(a@),
        TyShape::Dynamic(p, x) => preds_regions(p@).push(x),
        TyShape::Closure(a) => args_regions(a@),
        TyShape::Tuple(a) => tys_regions(a@),
        _ => seq![],
    }
}

pub open spec fn arg_regions(a: GenericArgShape) -> Seq<u64>
    decreases a,
{
    match a {
        GenericArgShape::Lifetime(x) => seq![x],
        GenericArgShape::Type(t) => ty_regions(t),
        GenericArgShape::Const => seq![],
    }
}

pub open spec fn pred_regions(p: PredicateShape) -> Seq<u64>
    decreases p,
{
    match p {
        PredicateShape::Trait(a) => args_regions(a@),
        PredicateShape::Projection(a, TermShape::Ty(t)) => args_regions(a@) + ty_regions(t),
        PredicateShape::Projection(a, TermShape::Const) => args_regions(a@),
        PredicateShape::AutoTrait => seq![],
    }
}

pub open spec fn args_regions(a: Seq<GenericArgShape>) -> Seq<u64>
    decreases a,
{
    if a.len() == 0 { seq![] } else { arg_regions(a[0]) + args_regions(a.drop_first()) }
}

pub open spec fn tys_regions(a: Seq<TyShape>) -> Seq<u64>
    decreases a,
{
    if a.len() == 0 { seq![] } else { ty_regions(a[0]) + tys_regions(a.drop_first()) }
}

pub open spec fn preds_regions(a: Seq<PredicateShape>) -> Seq<u64>
    decreases a,
{
    if a.len() == 0 { seq![] } else { pred_regions(a[0]) + preds_regions(a.drop_first()) }
}

/// The regions of a list of generic arguments hold every lifetime argument and every
/// region of every type argument.
proof fn lemma_args_regions_has(a: Seq<GenericArgShape>, i: int)
    requires
        0 <= i < a.len(),
    ensures
        a[i] matches GenericArgShape::Lifetime(r) ==> args_regions(a).contains(r),
        a[i] matches GenericArgShape::Type(t) ==> forall|x: u64| ty_regions(t).contains(x) ==> #[trigger] args_regions(a).contains(x),
    decreases a.len(),
{
    let head = arg_regions(a[0]);
    let rest = args_regions(a.drop_first());
    assert(args_regions(a) == head + rest);
    if i == 0 {
        match a[0] {
            GenericArgShape::Lifetime(r) => {
                assert(args_regions(a)[0] == r);
            },
            GenericArgShape::Type(t) => {
                assert forall|x: u64| ty_regions(t).contains(x) implies #[trigger] args_regions(a).contains(x) by {
                    let w = choose|w: int| 0 <= w < ty_regions(t).len() && ty_regions(t)[w] == x;
                    assert(args_regions(a)[w] == x);
                }
            },
            GenericArgShape::Const => {},
        }
    } else {
        assert(a.drop_first()[i - 1] == a[i]);
        lemma_args_regions_has(a.drop_first(), i - 1);
        match a[i] {
            GenericArgShape::Lifetime(r) => {
                let w = choose|w: int| 0 <= w < rest.len() && rest[w] == r;
                assert(args_regions(a)[head.len() + w] == r);
            },
            GenericArgShape::Type(t) => {
                assert forall|x: u64| ty_regions(t).contains(x) implies #[trigger] args_regions(a).contains(x) by {
                    assert(rest.contains(x));
                    let w = choose|w: int| 0 <= w < rest.len() && rest[w] == x;
                    assert(args_regions(a)[head.len() + w] == x);
                }
            },
            GenericArgShape::Const => {},
        }
    }
}

/// The regions of a list of generic arguments are the regions of each argument,
/// concatenated in the order of the arguments.
pub proof fn lemma_args_regions_concat(a: Seq<GenericArgShape>)
    ensures
        args_regions(a) == a.map_values(|g: GenericArgShape| arg_regions(g)).flatten(),
    decreases a.len(),
{
    if a.len() > 0 {
        lemma_args_regions_concat(a.drop_first());
        assert(a.map_values(|g: GenericArgShape| arg_regions(g)).drop_first()
            =~= a.drop_first().map_values(|g: GenericArgShape| arg_regions(g)));
    }
}

/// The free region list of an ADT, a function item or a closure is the
/// concatenation, in order, of the region lists of its generic arguments.
pub proof fn lemma_ty_regions_of_args(t: TyShape)
    ensures
        t matches TyShape::Adt(a) ==> ty_regions(t) == a@.map_values(|g: GenericArgShape| arg_regions(g)).flatten(),
        t matches TyShape::FnDef(a) ==> ty_regions(t) == a@.map_values(|g: GenericArgShape| arg_regions(g)).flatten(),
        t matches TyShape::Closure(a) ==> ty_regions(t) == a@.map_values(|g: GenericArgShape| arg_regions(g)).flatten(),
{
    match t {
        TyShape::Adt(a) => lemma_args_regions_concat(a@),
        TyShape::FnDef(a) => lemma_args_regions_concat(a@),
        TyShape::Closure(a) => lemma_args_regions_concat(a@),
        _ => {},
    }
}

/// A region folder meets every lifetime argument of an ADT, a function item or a
/// closure, and every region of their type arguments; a reference's region and the
/// regions of what it points to.
pub proof fn lemma_ty_regions_has(t: TyShape)
    ensures
        (t matches TyShape::Adt(a)) || (t matches TyShape::FnDef(a)) || (t matches TyShape::Closure(a)) ==> {
            let a = match t {
                TyShape::Adt(a) => a@,
                TyShape::FnDef(a) => a@,
                TyShape::Closure(a) => a@,
                _ => Seq::empty(),
            };
            forall|i: int| 0 <= i < a.len() ==> {
                &&& (#[trigger] a[i] matches GenericArgShape::Lifetime(r) ==> ty_regions(t).contains(r))
                &&& (a[i] matches GenericArgShape::Type(u) ==> forall|x: u64| ty_regions(u).contains(x) ==> #[trigger] ty_regions(t).contains(x))
            }
        },
        t matches TyShape::Ref(r, inner) ==> ty_regions(t).contains(r)
            && forall|x: u64| ty_regions(*inner).contains(x) ==> #[trigger] ty_regions(t).contains(x),
{
    match t {
        TyShape::Adt(a) => {
            assert forall|i: int| 0 <= i < a@.len() implies {
                &&& (#[trigger] a@[i] matches GenericArgShape::Lifetime(r) ==> ty_regions(t).contains(r))
                &&& (a@[i] matches GenericArgShape::Type(u) ==> forall|x: u64| ty_regions(u).contains(x) ==> #[trigger] ty_regions(t).contains(x))
            } by {
                lemma_args_regions_has(a@, i);
                assert(ty_regions(t) == args_regions(a@));
                if let GenericArgShape::Type(u) = a@[i] {
                    assert forall|x: u64| ty_regions(u).contains(x) implies #[trigger] ty_regions(t).contains(x) by {
                        assert(args_regions(a@).contains(x));
                    }
                }
            }
        },
        TyShape::FnDef(a) => {
            assert forall|i: int| 0 <= i < a@.len() implies {
                &&& (#[trigger] a@[i] matches GenericArgShape::Lifetime(r) ==> ty_regions(t).contains(r))
                &&& (a@[i] matches GenericArgShape::Type(u) ==> forall|x: u64| ty_regions(u).contains(x) ==> #[trigger] ty_regions(t).contains(x))
            } by {
                lemma_args_regions_has(a@, i);
                assert(ty_regions(t) == args_regions(a@));
                if let GenericArgShape::Type(u) = a@[i] {
                    assert forall|x: u64| ty_regions(u).contains(x) implies #[trigger] ty_regions(t).contains(x) by {
                        assert(args_regions(a@).contains(x));
                    }
                }
            }
        },
        TyShape::Closure(a) => {
            assert forall|i: int| 0 <= i < a@.len() implies {
                &&& (#[trigger] a@[i] matches GenericArgShape::Lifetime(r) ==> ty_regions(t).contains(r))
                &&& (a@[i] matches GenericArgShape::Type(u) ==> forall|x: u64| ty_regions(u).contains(x) ==> #[trigger] ty_regions(t).contains(x))
            } by {
                lemma_args_regions_has(a@, i);
                assert(ty_regions(t) == args_regions(a@));
                if let GenericArgShape::Type(u) = a@[i] {
                    assert forall|x: u64| ty_regions(u).contains(x) implies #[trigger] ty_regions(t).contains(x) by {
                        assert(args_regions(a@).contains(x));
                    }
                }
            }
        },
        TyShape::Ref(r, inner) => {
            assert(ty_regions(t)[0] == r);
            assert forall|x: u64| ty_regions(*inner).contains(x) implies #[trigger] ty_regions(t).contains(x) by {
                let w = choose|w: int| 0 <= w < ty_regions(*inner).len() && ty_regions(*inner)[w] == x;
                assert(ty_regions(t)[1 + w] == x);
            }
        },
        _ => {},
    }
}

fn push_ty_regions(out: &mut Vec<u64>, t: &TyShape)
    ensures
        final(out)@ == old(out)@ + ty_regions(*t),
    decreases t,
{
    match t {
        TyShape::Adt(a) => push_args_regions(out, a),
        TyShape::Array(a) => push_ty_regions(out, a),
        TyShape::Slice(a) => push_ty_regions(out, a),
        TyShape::RawPtr(a) => push_ty_regions(out, a),
        TyShape::Ref(x, a) => {
            out.push(*x);
            push_ty_regions(out, a);
            assert(out@ =~= old(out)@ + ty_regions(*t));
        },
        TyShape::FnDef(a) => push_args_regions(out, a),
        TyShape::FnPtr(a) => push_tys_regions(out, a),
        TyShape::Dynamic(p, x) => {
            push_preds_regions(out, p);
            out.push(*x);
            assert(out@ =~= old(out)@ + ty_regions(*t));
        },
        TyShape::Closure(a) => push_args_regions(out, a),
        TyShape::Tuple(a) => push_tys_regions(out, a),
        _ => {
            assert(out@ =~= old(out)@ + ty_regions(*t));
        },
    }
}

fn push_arg_regions(out: &mut Vec<u64>, a: &GenericArgShape)
    ensures
        final(out)@ == old(out)@ + arg_regions(*a),
    decreases a,
{
    match a {
        GenericArgShape::Lifetime(x) => {
            out.push(*x);
            assert(out@ =~= old(out)@ + arg_regions(*a));
        },
        GenericArgShape::Type(t) => push_ty_regions(out, t),
        GenericArgShape::Const => {
            assert(out@ =~= old(out)@ + arg_regions(*a));
        },
    }
}

fn push_pred_regions(out: &mut Vec<u64>, p: &PredicateShape)
    ensures
        final(out)@ == old(out)@ + pred_regions(*p),
    decreases p,
{
    match p {
        PredicateShape::Trait(a) => push_args_regions(out, a),
        PredicateShape::Projection(a, term) => {
            push_args_regions(out, a);
            match term {
                TermShape::Ty(t) => push_ty_regions(out, t),
                TermShape::Const => {},
            }
            assert(out@ =~= old(out)@ + pred_regions(*p));
        },
        PredicateShape::AutoTrait => {
            assert(out@ =~= old(out)@ + pred_regions(*p));
        },
    }
}

fn push_args_regions(out: &mut Vec<u64>, a: &Vec<GenericArgShape>)
    ensures
        final(out)@ == old(out)@ + args_regions(a@),
    decreases a,
{
    let mut i: usize = 0;
    assert(a@.skip(0) =~= a@);
    while i < a.len()
        invariant
            i <= a.len(),
            out@ + args_regions(a@.skip(i as int)) == old(out)@ + args_regions(a@),
        decreases a.len() - i,
    {
        assert(a@.skip(i as int)[0] == a@[i as int]);
        assert(a@.skip(i as int).drop_first() =~= a@.skip(i + 1));
        assert(decreases_to!(a => a@[i as int]));
        push_arg_regions(out, &a[i]);
        i = i + 1;
        assert(out@ + args_regions(a@.skip(i as int)) =~= old(out)@ + args_regions(a@));
    }
    assert(out@ =~= old(out)@ + args_regions(a@));
}

fn push_tys_regions(out: &mut Vec<u64>, a: &Vec<TyShape>)
    ensures
        final(out)@ == old(out)@ + tys_regions(a@),
    decreases a,
{
    let mut i: usize = 0;
    assert(a@.skip(0) =~= a@);
    while i < a.len()
        invariant
            i <= a.len(),
            out@ + tys_regions(a@.skip(i as int)) == old(out)@ + tys_regions(a@),
        decreases a.len() - i,
    {
        assert(a@.skip(i as int)[0] == a@[i as int]);
        assert(a@.skip(i as int).drop_first() =~= a@.skip(i + 1));
        assert(decreases_to!(a => a@[i as int]));
        push_ty_regions(out, &a[i]);
        i = i + 1;
        assert(out@ + tys_regions(a@.skip(i as int)) =~= old(out)@ + tys_regions(a@));
    }
    assert(out@ =~= old(out)@ + tys_regions(a@));
}

fn push_preds_regions(out: &mut Vec<u64>, a: &Vec<PredicateShape>)
    ensures
        final(out)@ == old(out)@ + preds_regions(a@),
    decreases a,
{
    let mut i: usize = 0;
    assert(a@.skip(0) =~= a@);
    while i < a.len()
        invariant
            i <= a.len(),
            out@ + preds_regions(a@.skip(i as int)) == old(out)@ + preds_regions(a@),
        decreases a.len() - i,
    {
        assert(a@.skip(i as int)[0] == a@[i as int]);
        assert(a@.skip(i as int).drop_first() =~= a@.skip(i + 1));
        assert(decreases_to!(a => a@[i as int]));
        push_pred_regions(out, &a[i]);
        i = i + 1;
        assert(out@ + preds_regions(a@.skip(i as int)) =~= old(out)@ + preds_regions(a@));
    }
    assert(out@ =~= old(out)@ + preds_regions(a@));
}

/// Every region of `ty`, in the order a region folder meets them.
pub fn extract_free_region_list(ty: &TyShape) -> (r: Vec<u64>)
    ensures
        r@ == ty_regions(*ty),
{
    let mut out: Vec<u64> = Vec::new();
    push_ty_regions(&mut out, ty);
    assert(out@ =~= ty_regions(*ty));
    out
}

/// The names of the named regions among `regions`, in order.
pub open spec fn region_names(regions: Seq<u64>, names: Map<u64, u64>) -> Seq<u64>
    decreases regions.len(),
{
    if regions.len() == 0 {
        seq![]
    } else {
        let rest = region_names(regions.drop_last(), names);
        if names.contains_key(regions.last()) { rest.push(names[regions.last()]) } else { rest }
    }
}

/// The first of `regions` named `name`, if any.
pub open spec fn first_named(regions: Seq<u64>, names: Map<u64, u64>, name: u64) -> Option<u64>
    decreases regions.len(),
{
    if regions.len() == 0 {
        None
    } else if names.contains_key(regions[0]) && names[regions[0]] == name {
        Some(regions[0])
    } else {
        first_named(regions.drop_first(), names, name)
    }
}

/// A region named `name` among `regions` is found: the first such region is one of
/// `regions` and is named `name`.
pub proof fn lemma_first_named_found(regions: Seq<u64>, names: Map<u64, u64>, name: u64, j: int)
    requires
        0 <= j < regions.len(),
        names.contains_key(regions[j]),
        names[regions[j]] == name,
    ensures
        first_named(regions, names, name) is Some,
        regions.contains(first_named(regions, names, name)->Some_0),
        names.contains_key(first_named(regions, names, name)->Some_0),
        names[first_named(regions, names, name)->Some_0] == name,
    decreases regions.len(),
{
    if names.contains_key(regions[0]) && names[regions[0]] == name {
        assert(regions[0] == first_named(regions, names, name)->Some_0);
    } else {
        assert(j > 0);
        assert(regions.drop_first()[j - 1] == regions[j]);
        lemma_first_named_found(regions.drop_first(), names, name, j - 1);
        let f = first_named(regions, names, name)->Some_0;
        let w = choose|w: int| 0 <= w < regions.drop_first().len() && regions.drop_first()[w] == f;
        assert(regions[w + 1] == f);
    }
}

/// The first region of `ty` named `name` (`names` gives each named region's name), or,
/// where there is none, the names of all its named regions in folder order.
pub fn find_region_with_name(ty: &TyShape, names: &VecMap<u64>, name: u64) -> (r: Result<u64, Vec<u64>>)
    requires
        names.wf(),
    ensures
        match r {
            Ok(re) => first_named(ty_regions(*ty), names@, name) == Some(re),
            Err(found) => first_named(ty_regions(*ty), names@, name) is None
                && found@ == region_names(ty_regions(*ty), names@),
        },
{
    let regions = extract_free_region_list(ty);
    let mut i: usize = 0;
    assert(regions@.skip(0) =~= regions@);
    while i < regions.len()
        invariant
            names.wf(),
            i <= regions@.len(),
            regions@ == ty_regions(*ty),
            first_named(regions@.skip(i as int), names@, name) == first_named(regions@, names@, name),
        decreases regions@.len() - i,
    {
        assert(regions@.skip(i as int)[0] == regions@[i as int]);
        assert(regions@.skip(i as int).drop_first() =~= regions@.skip(i + 1));
        match names.get(regions[i]) {
            Some(n) => {
                if n == name {
                    assert(first_named(regions@.skip(i as int), names@, name) == Some(regions@[i as int]));
                    return Ok(regions[i]);
                }
            },
            None => {},
        }
        i = i + 1;
    }
    let mut found: Vec<u64> = Vec::new();
    let mut k: usize = 0;
    while k < regions.len()
        invariant
            names.wf(),
            k <= regions@.len(),
            found@ == region_names(regions@.take(k as int), names@),
        decreases regions@.len() - k,
    {
        assert(regions@.take(k + 1).drop_last() =~= regions@.take(k as int));
        match names.get(regions[k]) {
            Some(n) => found.push(n),
            None => {},
        }
        k = k + 1;
    }
    assert(regions@.take(k as int) =~= regions@);
    Err(found)
}

/// Whether a struct with the field names `fields` is the marker type whose one field is
/// named `marker`.
pub fn is_annotated_ty(fields: &Vec<u64>, marker: u64) -> (r: bool)
    ensures
        r == (fields@ == seq![marker]),
{
    if fields.len() == 0 {
        return false;
    }
    if fields[0] != marker {
        return false;
    }
    if fields.len() > 1 {
        return false;
    }
    assert(fields@ =~= seq![marker]);
    true
}

/// `parts` joined with `sep` between each two.
pub open spec fn joined(parts: Seq<Seq<char>>, sep: Seq<char>) -> Seq<char>
    decreases parts.len(),
{
    if parts.len() == 0 {
        seq![]
    } else if parts.len() == 1 {
        parts[0]
    } else {
        joined(parts.drop_last(), sep) + sep + parts.last()
    }
}

/// The report for a tie to a region name that the function's output does not have,
/// listing the region names it does have.
pub open spec fn missing_region_text(name: Seq<char>, found: Seq<Seq<char>>) -> Seq<char> {
    "lifetime with name "@ + name + " not found in output of function"@
        + if found.len() == 0 { Seq::<char>::empty() } else { "; found "@ + joined(found, ", "@) }
}

/// The message reported when no region of a function's output is named `name`; `found`
/// holds the names it has.
pub fn err_failed_to_find_region(name: &str, found: &Vec<String>) -> (r: String)
    ensures
        r@ == missing_region_text(name@, texts(found@)),
{
    let mut msg = String::from_str("lifetime with name ");
    msg.append(name);
    msg.append(" not found in output of function");
    if found.len() > 0 {
        msg.append("; found ");
        let ghost head = msg@;
        let mut i: usize = 0;
        while i < found.len()
            invariant
                0 < found.len(),
                i <= found.len(),
                msg@ == head + joined(texts(found@).take(i as int), ", "@),
            decreases found.len() - i,
        {
            let ghost prev = msg@;
            if i > 0 {
                msg.append(", ");
            }
            msg.append(found[i].as_str());
            proof {
                let t = texts(found@);
                assert(t.take(i + 1).drop_last() =~= t.take(i as int));
                assert(t.take(i + 1).last() == found@[i as int]@);
                if i == 0 {
                    assert(t.take(1).len() == 1);
                }
            }
            i = i + 1;
        }
        assert(texts(found@).take(i as int) =~= texts(found@));
    }
    msg
}

/// The kind of a generic parameter of a function.
#[derive(Debug, Clone, Copy, PartialEq, Eq)]
pub enum GenericParamKind {
    Lifetime,
    /// The constant parameter standing for a function's host effect.
    HostEffectConst,
    Type,
    Const,
}

/// The argument chosen for a generic parameter of a monomorphic function.
#[derive(Debug, Clone, Copy, PartialEq, Eq)]
pub enum MonoArg {
    ErasedLifetime,
    True,
}

pub open spec fn mono_arg(k: GenericParamKind) -> Option<MonoArg> {
    match k {
        GenericParamKind::Lifetime => Some(MonoArg::ErasedLifetime),
        GenericParamKind::HostEffectConst => Some(MonoArg::True),
        _ => None,
    }
}

/// The arguments with which a function whose generic parameters (its parents' first)
/// are `params` can be instantiated without choosing any type or constant: erased
/// regions and a true host effect; `None` where it has a type or another constant
/// parameter.
pub fn try_resolve_mono_args_for_func(params: &Vec<GenericParamKind>) -> (r: Option<Vec<MonoArg>>)
    ensures
        match r {
            Some(args) => args@.len() == params@.len()
                && forall|i: int| 0 <= i < params@.len() ==> mono_arg(#[trigger] params@[i]) == Some(args@[i]),
            None => exists|i: int| 0 <= i < params@.len() && mono_arg(#[trigger] params@[i]) is None,
        },
{
    let mut args: Vec<MonoArg> = Vec::new();
    let mut args_wf = true;
    let mut i: usize = 0;
    while i < params.len()
        invariant
            i <= params@.len(),
            args_wf ==> args@.len() == i
                && forall|j: int| 0 <= j < i ==> mono_arg(#[trigger] params@[j]) == Some(args@[j]),
            !args_wf ==> exists|j: int| 0 <= j < i && mono_arg(#[trigger] params@[j]) is None,
        decreases params@.len() - i,
    {
        match params[i] {
            GenericParamKind::Lifetime => args.push(MonoArg::ErasedLifetime),
            GenericParamKind::HostEffectConst => args.push(MonoArg::True),
            _ => {
                args_wf = false;
                args.push(MonoArg::True);
            },
        }
        i = i + 1;
    }
    if args_wf { Some(args) } else { None }
}

} // verus!
