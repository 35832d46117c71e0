//! The deferred combinator model of solids.
//!
//! A solid is a list of items, each a shape of the geometric kernel with a
//! transform that has not been applied yet and a flag that marks it as a hole.
//! Nothing here calls the kernel: the shapes are descriptions of kernel
//! operations (`Shape`), and collapsing a solid builds the description of the
//! boolean operations that the kernel is to perform, in the order it performs them.
use std::sync::Arc;
use vstd::prelude::*;

use crate::number::Number;

verus! {

/// A 4×4 affine matrix, row by row.
#[derive(Clone, Copy, Debug, PartialEq, Eq)]
pub struct Matrix {
    pub m: [Number; 16],
}

pub open spec fn zero() -> Number {
    Number { num: 0, den: 1 }
}

pub open spec fn one() -> Number {
    Number { num: 1, den: 1 }
}

/// The cells of the matrix that translates by `(x, y, z)`.
pub open spec fn translation_cells(x: Number, y: Number, z: Number) -> Seq<Number> {
    seq![
        one(), zero(), zero(), x,
        zero(), one(), zero(), y,
        zero(), zero(), one(), z,
        zero(), zero(), zero(), one(),
    ]
}

impl Matrix {
    /// The translation by `(x, y, z)`.
    pub fn from_translation(x: Number, y: Number, z: Number) -> (r: Matrix)
        ensures
            r.m@ == translation_cells(x, y, z),
    {
        let o = Number::from_int(0);
        let l = Number::from_int(1);
        let r = Matrix { m: [l, o, o, x, o, l, o, y, o, o, l, z, o, o, o, l] };
        assert(r.m@ =~= translation_cells(x, y, z));
        r
    }
}

/// A composite affine transform: the matrices in the order they apply.
/// `Identity` applies none.
#[derive(Debug)]
pub enum Transform {
    Identity,
    /// First the transform, then the matrix.
    Then(Arc<Transform>, Matrix),
}

/// `first`, then `second`: the transform that the product `second * first` stands for.
pub open spec fn and_then(first: Transform, second: Transform) -> Transform
    decreases second,
{
    match second {
        Transform::Identity => first,
        Transform::Then(rest, m) => Transform::Then(Arc::new(and_then(first, *rest)), m),
    }
}

/// The transform that applies before the last matrix of `t`.
pub open spec fn rest_of(t: Transform) -> Transform {
    match t {
        Transform::Identity => Transform::Identity,
        Transform::Then(rest, _) => *rest,
    }
}

impl Transform {
    /// The same transform, sharing its parts.
    pub fn share(&self) -> (r: Transform)
        ensures
            r == *self,
    {
        match self {
            Transform::Identity => Transform::Identity,
            Transform::Then(rest, m) => Transform::Then(rest.clone(), *m),
        }
    }

    /// The transform of a single matrix.
    pub fn single(m: Matrix) -> (r: Transform)
        ensures
            r == Transform::Then(Arc::new(Transform::Identity), m),
    {
        Transform::Then(Arc::new(Transform::Identity), m)
    }

    /// `self`, then `second`.
    pub fn and_then(&self, second: &Transform) -> (r: Transform)
        ensures
            r == and_then(*self, *second),
        decreases *second,
    {
        match second {
            Transform::Identity => self.share(),
            Transform::Then(rest, m) => {
                let inner = self.and_then(rest);
                Transform::Then(Arc::new(inner), *m)
            },
        }
    }
}

/// Composing transforms is associative.
pub proof fn lemma_and_then_assoc(a: Transform, b: Transform, c: Transform)
    ensures
        and_then(and_then(a, b), c) == and_then(a, and_then(b, c)),
    decreases c,
{
    if c is Then {
        lemma_and_then_assoc(a, b, rest_of(c));
    }
}

/// The boolean operations of the kernel.
#[derive(Clone, Copy, Debug, PartialEq, Eq)]
pub enum BooleanOp {
    Union,
    Difference,
    Intersection,
}

/// A shape of the geometric kernel, described by the operation that makes it.
#[derive(Debug)]
pub struct Shape {
    pub op: ShapeOp,
}

/// The kernel operations that make shapes.
#[derive(Debug)]
pub enum ShapeOp {
    /// The box `[0,x]×[0,y]×[0,z]`.
    Cube { x: Number, y: Number, z: Number },
    /// A cylinder of radius `r` and height `h` along z, with `facets` sides.
    Cylinder { r: Number, h: Number, facets: u32 },
    /// `shape` with `xform` applied.
    Transformed { shape: Arc<Shape>, xform: Transform },
    /// `op` applied to `a` and `b`.
    Boolean { op: BooleanOp, a: Arc<Shape>, b: Arc<Shape> },
}

/// One contribution to a solid: a shape, its deferred transform, and whether it is a hole.
#[derive(Debug)]
pub struct SolidItem {
    pub xform: Transform,
    pub shape: Arc<Shape>,
    pub anti: bool,
}

/// The shape of an item with its deferred transform applied.
pub open spec fn placed(i: SolidItem) -> Shape {
    match i.xform {
        Transform::Identity => *i.shape,
        _ => Shape { op: ShapeOp::Transformed { shape: i.shape, xform: i.xform } },
    }
}

/// The item with its hole flag flipped.
pub open spec fn flipped(i: SolidItem) -> SolidItem {
    SolidItem { xform: i.xform, shape: i.shape, anti: !i.anti }
}

/// The item with `t` applied after its own transform.
pub open spec fn moved(i: SolidItem, t: Transform) -> SolidItem {
    SolidItem { xform: and_then(i.xform, t), shape: i.shape, anti: i.anti }
}

/// A single item holding `s`, with no transform, not a hole.
pub open spec fn plain(s: Shape) -> SolidItem {
    SolidItem { xform: Transform::Identity, shape: Arc::new(s), anti: false }
}

pub open spec fn anti_items(s: Seq<SolidItem>) -> Seq<SolidItem> {
    Seq::new(s.len(), |k: int| flipped(s[k]))
}

pub open spec fn moved_items(s: Seq<SolidItem>, t: Transform) -> Seq<SolidItem> {
    Seq::new(s.len(), |k: int| moved(s[k], t))
}

/// The items of `s` that are (`holes`) or are not (`!holes`) holes, in order.
pub open spec fn items_with(s: Seq<SolidItem>, holes: bool) -> Seq<SolidItem>
    decreases s.len(),
{
    if s.len() == 0 {
        s
    } else {
        let r = items_with(s.drop_last(), holes);
        if s.last().anti == holes {
            r.push(s.last())
        } else {
            r
        }
    }
}

/// `acc` combined by `op` with each shape of `items`, left to right.
pub open spec fn fold_op(acc: Shape, items: Seq<Shape>, op: BooleanOp) -> Shape
    decreases items.len(),
{
    if items.len() == 0 {
        acc
    } else {
        Shape { op: ShapeOp::Boolean {
            op,
            a: Arc::new(fold_op(acc, items.drop_last(), op)),
            b: Arc::new(items.last()),
        } }
    }
}

pub open spec fn placed_shapes(s: Seq<SolidItem>) -> Seq<Shape> {
    Seq::new(s.len(), |k: int| placed(s[k]))
}

/// What collapsing a solid with items `s` produces: the union of its non-hole
/// items in order, from which each hole is then subtracted in order; nothing
/// when there is no non-hole item.
pub open spec fn unionized(s: Seq<SolidItem>) -> Seq<SolidItem> {
    let solid_part = items_with(s, false);
    let holes = items_with(s, true);
    if solid_part.len() == 0 {
        Seq::empty()
    } else {
        let fused = fold_op(placed(solid_part[0]), placed_shapes(solid_part).drop_first(), BooleanOp::Union);
        seq![plain(fold_op(fused, placed_shapes(holes), BooleanOp::Difference))]
    }
}

/// The single shape that collapsing a solid yields (an arbitrary value when empty).
pub open spec fn collapsed_shape(s: Seq<SolidItem>) -> Shape {
    *unionized(s)[0].shape
}

/// What intersecting solids produces: each collapsed, the results intersected in order;
/// nothing when there is no solid, or when one of them collapses to nothing.
pub open spec fn intersected(solids: Seq<Seq<SolidItem>>) -> Seq<SolidItem> {
    if solids.len() == 0 || exists|k: int| 0 <= k < solids.len() && unionized(#[trigger] solids[k]).len() == 0 {
        Seq::empty()
    } else {
        let shapes = Seq::new(solids.len(), |k: int| collapsed_shape(solids[k]));
        seq![plain(fold_op(shapes[0], shapes.drop_first(), BooleanOp::Intersection))]
    }
}

/// The item lists of the solids.
pub open spec fn views(v: Seq<Arc<Solid>>) -> Seq<Seq<SolidItem>> {
    Seq::new(v.len(), |k: int| v[k]@)
}

/// The concatenation of the item lists.
pub open spec fn concat_all(solids: Seq<Seq<SolidItem>>) -> Seq<SolidItem>
    decreases solids.len(),
{
    if solids.len() == 0 {
        Seq::empty()
    } else {
        concat_all(solids.drop_last()) + solids.last()
    }
}

impl Shape {
    /// The same shape, sharing its parts.
    pub fn share(&self) -> (r: Shape)
        ensures
            r == *self,
    {
        let op = match &self.op {
            ShapeOp::Cube { x, y, z } => ShapeOp::Cube { x: *x, y: *y, z: *z },
            ShapeOp::Cylinder { r, h, facets } => ShapeOp::Cylinder { r: *r, h: *h, facets: *facets },
            ShapeOp::Transformed { shape, xform } => ShapeOp::Transformed { shape: shape.clone(), xform: xform.share() },
            ShapeOp::Boolean { op, a, b } => ShapeOp::Boolean { op: *op, a: a.clone(), b: b.clone() },
        };
        Shape { op }
    }
}

impl SolidItem {
    /// The same item, sharing its parts.
    pub fn share(&self) -> (r: SolidItem)
        ensures
            r == *self,
    {
        SolidItem { xform: self.xform.share(), shape: self.shape.clone(), anti: self.anti }
    }

    /// The item's shape with its deferred transform applied.
    pub fn xformed_shape(&self) -> (r: Shape)
        ensures
            r == placed(*self),
    {
        match &self.xform {
            Transform::Identity => self.shape.share(),
            _ => Shape { op: ShapeOp::Transformed { shape: self.shape.clone(), xform: self.xform.share() } },
        }
    }
}

/// A solid: an ordered list of items. The empty list is the empty solid.
#[derive(Debug)]
pub struct Solid(pub Vec<SolidItem>);

impl View for Solid {
    type V = Seq<SolidItem>;

    open spec fn view(&self) -> Seq<SolidItem> {
        self.0@
    }
}

impl Solid {
    /// The solid of one shape.
    pub fn from_shape(s: Shape) -> (r: Solid)
        ensures
            r@ == seq![plain(s)],
    {
        let mut v = Vec::new();
        v.push(SolidItem { xform: Transform::Identity, shape: Arc::new(s), anti: false });
        Solid(v)
    }

    /// The box `[0,x]×[0,y]×[0,z]`.
    pub fn new_cube(x: Number, y: Number, z: Number) -> (r: Solid)
        ensures
            r@ == seq![plain(Shape { op: ShapeOp::Cube { x, y, z } })],
    {
        Solid::from_shape(Shape { op: ShapeOp::Cube { x, y, z } })
    }

    /// A cylinder of radius `r`, height `h` and `fn_` facets.
    pub fn new_cylinder(r: Number, h: Number, fn_: u32) -> (s: Solid)
        ensures
            s@ == seq![plain(Shape { op: ShapeOp::Cylinder { r, h, facets: fn_ } })],
    {
        Solid::from_shape(Shape { op: ShapeOp::Cylinder { r, h, facets: fn_ } })
    }

    /// The same items with every hole flag flipped.
    pub fn anti(&self) -> (r: Solid)
        ensures
            r@ == anti_items(self@),
    {
        let mut v: Vec<SolidItem> = Vec::new();
        let mut k: usize = 0;
        while k < self.0.len()
            invariant
                k <= self@.len(),
                v@ == anti_items(self@).subrange(0, k as int),
            decreases self@.len() - k,
        {
            let i = &self.0[k];
            v.push(SolidItem { xform: i.xform.share(), shape: i.shape.clone(), anti: !i.anti });
            k += 1;
            assert(v@ =~= anti_items(self@).subrange(0, k as int));
        }
        assert(v@ =~= anti_items(self@));
        Solid(v)
    }

    /// The same items with `t` applied after each item's own transform.
    pub fn transform(&self, t: &Transform) -> (r: Solid)
        ensures
            r@ == moved_items(self@, *t),
    {
        let mut v: Vec<SolidItem> = Vec::new();
        let mut k: usize = 0;
        while k < self.0.len()
            invariant
                k <= self@.len(),
                v@ == moved_items(self@, *t).subrange(0, k as int),
            decreases self@.len() - k,
        {
            let i = &self.0[k];
            v.push(SolidItem { xform: i.xform.and_then(t), shape: i.shape.clone(), anti: i.anti });
            k += 1;
            assert(v@ =~= moved_items(self@, *t).subrange(0, k as int));
        }
        assert(v@ =~= moved_items(self@, *t));
        Solid(v)
    }

    /// The items of `self` that are (or are not) holes.
    fn partition(&self, holes: bool) -> (r: Vec<SolidItem>)
        ensures
            r@ == items_with(self@, holes),
    {
        let mut v: Vec<SolidItem> = Vec::new();
        let mut k: usize = 0;
        while k < self.0.len()
            invariant
                k <= self@.len(),
                v@ == items_with(self@.subrange(0, k as int), holes),
            decreases self@.len() - k,
        {
            let i = &self.0[k];
            assert(self@.subrange(0, k + 1).drop_last() =~= self@.subrange(0, k as int));
            if i.anti == holes {
                v.push(i.share());
            }
            k += 1;
        }
        assert(self@.subrange(0, self@.len() as int) =~= self@);
        v
    }

    /// Collapses the solid into one shape: the union of its non-hole items in
    /// order, minus each hole in order. With no non-hole item the result is empty.
    pub fn unionize(&self) -> (r: Solid)
        ensures
            r@ == unionized(self@),
    {
        let solid_part = self.partition(false);
        let holes = self.partition(true);
        if solid_part.len() == 0 {
            return Solid(Vec::new());
        }
        let ghost first = placed(solid_part@[0]);
        let ghost shapes = placed_shapes(solid_part@);
        let mut acc = solid_part[0].xformed_shape();
        let mut k: usize = 1;
        while k < solid_part.len()
            invariant
                1 <= k <= solid_part@.len(),
                shapes == placed_shapes(solid_part@),
                acc == fold_op(first, shapes.drop_first().subrange(0, k - 1), BooleanOp::Union),
            decreases solid_part@.len() - k,
        {
            let next = solid_part[k].xformed_shape();
            assert(shapes.drop_first().subrange(0, k as int).drop_last()
                =~= shapes.drop_first().subrange(0, k - 1));
            acc = Shape { op: ShapeOp::Boolean { op: BooleanOp::Union, a: Arc::new(acc), b: Arc::new(next) } };
            k += 1;
        }
        assert(shapes.drop_first().subrange(0, k - 1) =~= shapes.drop_first());
        let ghost fused = acc;
        let ghost hole_shapes = placed_shapes(holes@);
        let mut k: usize = 0;
        while k < holes.len()
            invariant
                k <= holes@.len(),
                hole_shapes == placed_shapes(holes@),
                acc == fold_op(fused, hole_shapes.subrange(0, k as int), BooleanOp::Difference),
            decreases holes@.len() - k,
        {
            let next = holes[k].xformed_shape();
            assert(hole_shapes.subrange(0, k + 1).drop_last() =~= hole_shapes.subrange(0, k as int));
            acc = Shape { op: ShapeOp::Boolean { op: BooleanOp::Difference, a: Arc::new(acc), b: Arc::new(next) } };
            k += 1;
        }
        assert(hole_shapes.subrange(0, k as int) =~= hole_shapes);
        Solid::from_shape(acc)
    }

    /// Intersects the solids: each is collapsed first, then the shapes are
    /// intersected in order. No solid, or one that collapses to nothing, gives the empty solid.
    pub fn intersectionize(solids: &Vec<Arc<Solid>>) -> (r: Solid)
        ensures
            r@ == intersected(views(solids@)),
    {
        let ghost all = views(solids@);
        let ghost shapes = Seq::new(all.len(), |k: int| collapsed_shape(all[k]));
        if solids.len() == 0 {
            return Solid(Vec::new());
        }
        let mut acc: Option<Shape> = None;
        let mut k: usize = 0;
        while k < solids.len()
            invariant
                k <= solids@.len(),
                all == views(solids@),
                shapes == Seq::new(all.len(), |k: int| collapsed_shape(all[k])),
                forall|j: int| 0 <= j < k ==> unionized(#[trigger] all[j]).len() == 1,
                k == 0 <==> acc is None,
                k > 0 ==> acc == Some(fold_op(shapes[0], shapes.drop_first().subrange(0, k - 1), BooleanOp::Intersection)),
            decreases solids@.len() - k,
        {
            let u = solids[k].unionize();
            if u.0.len() == 0 {
                assert(unionized(all[k as int]).len() == 0);
                return Solid(Vec::new());
            }
            let next: Shape = u.0[0].shape.share();
            assert(next == shapes[k as int]);
            match acc {
                None => {
                    acc = Some(next);
                },
                Some(prev) => {
                    assert(shapes.drop_first().subrange(0, k as int).drop_last()
                        =~= shapes.drop_first().subrange(0, k - 1));
                    acc = Some(Shape { op: ShapeOp::Boolean { op: BooleanOp::Intersection, a: Arc::new(prev), b: Arc::new(next) } });
                },
            }
            k += 1;
        }
        assert(shapes.drop_first().subrange(0, k - 1) =~= shapes.drop_first());
        assert(!exists|j: int| 0 <= j < all.len() && unionized(#[trigger] all[j]).len() == 0);
        match acc {
            Some(shape) => Solid::from_shape(shape),
            None => Solid(Vec::new()),
        }
    }

    /// The concatenation of the solids' items, in order.
    pub fn combine(solids: &Vec<Arc<Solid>>) -> (r: Solid)
        ensures
            r@ == concat_all(views(solids@)),
    {
        let mut v: Vec<SolidItem> = Vec::new();
        let mut k: usize = 0;
        while k < solids.len()
            invariant
                k <= solids@.len(),
                v@ == concat_all(views(solids@).subrange(0, k as int)),
            decreases solids@.len() - k,
        {
            let items = &solids[k].0;
            let ghost before = v@;
            let mut j: usize = 0;
            while j < items.len()
                invariant
                    k < solids@.len(),
                    items == &solids@[k as int].0,
                    j <= items@.len(),
                    v@ == before + items@.subrange(0, j as int),
                decreases items@.len() - j,
            {
                v.push(items[j].share());
                j += 1;
                assert(v@ =~= before + items@.subrange(0, j as int));
            }
            assert(views(solids@).subrange(0, k + 1).drop_last() =~= views(solids@).subrange(0, k as int));
            assert(items@.subrange(0, j as int) =~= items@);
            k += 1;
        }
        assert(views(solids@).subrange(0, k as int) =~= views(solids@));
        Solid(v)
    }

    /// The shape of the first item, if any.
    pub fn get_single_shape(&self) -> (r: Option<Arc<Shape>>)
        ensures
            r == (if self@.len() > 0 { Some(self@[0].shape) } else { None }),
    {
        if self.0.len() > 0 {
            Some(self.0[0].shape.clone())
        } else {
            None
        }
    }
}

/// Combining is associative: grouping does not change the flattened item list.
pub proof fn lemma_combine_assoc(a: Seq<SolidItem>, b: Seq<SolidItem>, c: Seq<SolidItem>)
    ensures
        concat_all(seq![concat_all(seq![a, b]), c]) == concat_all(seq![a, concat_all(seq![b, c])]),
{
    reveal_with_fuel(concat_all, 3);
    assert(seq![a, b].drop_last() =~= seq![a]);
    assert(seq![b, c].drop_last() =~= seq![b]);
    assert(seq![concat_all(seq![a, b]), c].drop_last() =~= seq![concat_all(seq![a, b])]);
    assert(seq![a, concat_all(seq![b, c])].drop_last() =~= seq![a]);
    assert(seq![a].drop_last() =~= Seq::<Seq<SolidItem>>::empty());
    assert(seq![b].drop_last() =~= Seq::<Seq<SolidItem>>::empty());
    assert(seq![concat_all(seq![a, b])].drop_last() =~= Seq::<Seq<SolidItem>>::empty());
    assert(Seq::<SolidItem>::empty() + a =~= a);
    assert(Seq::<SolidItem>::empty() + b =~= b);
    assert(Seq::<SolidItem>::empty() + (a + b) =~= a + b);
    assert((a + b) + c =~= a + (b + c));
}

/// Flipping the hole flags twice gives back the same items.
pub proof fn lemma_anti_involution(s: Seq<SolidItem>)
    ensures
        anti_items(anti_items(s)) == s,
{
    assert(anti_items(anti_items(s)) =~= s);
}

/// Moving by `t1` and then by `t2` is moving by `t1` followed by `t2`.
pub proof fn lemma_transform_compose(s: Seq<SolidItem>, t1: Transform, t2: Transform)
    ensures
        moved_items(moved_items(s, t1), t2) == moved_items(s, and_then(t1, t2)),
{
    assert forall|k: int| 0 <= k < s.len() implies moved_items(moved_items(s, t1), t2)[k] == moved_items(s, and_then(t1, t2))[k] by {
        lemma_and_then_assoc(s[k].xform, t1, t2);
    }
    assert(moved_items(moved_items(s, t1), t2) =~= moved_items(s, and_then(t1, t2)));
}

proof fn lemma_no_solid_part(s: Seq<SolidItem>)
    ensures
        items_with(s, false).len() == 0 <==> forall|k: int| 0 <= k < s.len() ==> (#[trigger] s[k]).anti,
    decreases s.len(),
{
    if s.len() > 0 {
        lemma_no_solid_part(s.drop_last());
        lemma_items_with_len(s.drop_last(), false);
        if items_with(s, false).len() == 0 {
            assert forall|k: int| 0 <= k < s.len() implies (#[trigger] s[k]).anti by {
                if k < s.len() - 1 {
                    assert(s.drop_last()[k] == s[k]);
                }
            }
        } else if forall|k: int| 0 <= k < s.len() ==> (#[trigger] s[k]).anti {
            assert forall|k: int| 0 <= k < s.drop_last().len() implies (#[trigger] s.drop_last()[k]).anti by {
                assert(s.drop_last()[k] == s[k]);
            }
            assert(s[s.len() - 1].anti);
        }
    }
}

proof fn lemma_items_with_len(s: Seq<SolidItem>, holes: bool)
    ensures
        items_with(s, holes).len() <= s.len(),
    decreases s.len(),
{
    if s.len() > 0 {
        lemma_items_with_len(s.drop_last(), holes);
    }
}

/// Collapsing gives the empty solid exactly when every item is a hole (or there is none).
pub proof fn lemma_unionize_empty(s: Seq<SolidItem>)
    ensures
        unionized(s).len() == 0 <==> forall|k: int| 0 <= k < s.len() ==> (#[trigger] s[k]).anti,
{
    lemma_no_solid_part(s);
}

} // verus!
