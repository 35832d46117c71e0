//! The builtin functions.
use std::sync::Arc;
use vstd::prelude::*;

use crate::geometry::{
    anti_items, concat_all, intersected, moved_items, plain, translation_cells, unionized, views,
    Matrix, Shape, ShapeOp, Solid, SolidItem, Transform,
};
use crate::number::{NumError, Number};
use crate::runtime::{
    arg_of, lookup_named, named_models, value_wf, CallCtx, CallModel, Value, ValueModel,
};

verus! {

/// Why a builtin refused its arguments.
#[derive(Clone, Copy, Debug, PartialEq, Eq)]
pub enum BuiltinErrorKind {
    /// A numeric argument or operand that is not a number.
    NotANumber,
    /// A child of a combinator that is not a solid.
    NotASolid,
    /// A cylinder given both a radius and a diameter.
    RadiusAndDiameter,
    /// An operator called without exactly two positional arguments.
    WrongArgumentCount,
    /// An arithmetic result that does not fit a number.
    Overflow,
    /// A division by zero.
    DivisionByZero,
}

/// The error of a builtin.
#[derive(Clone, Copy, Debug, PartialEq, Eq)]
pub struct BuiltinError(pub BuiltinErrorKind);

impl BuiltinError {
    pub fn new(kind: BuiltinErrorKind) -> (r: BuiltinError)
        ensures
            r == BuiltinError(kind),
    {
        BuiltinError(kind)
    }
}

/// Fails with `kind`.
pub fn err<V>(kind: BuiltinErrorKind) -> (r: Result<V, BuiltinError>)
    ensures
        r == Err::<V, BuiltinError>(BuiltinError(kind)),
{
    Err(BuiltinError::new(kind))
}

/// The builtin functions.
#[derive(Clone, Copy, Debug, PartialEq, Eq)]
pub enum BuiltinFunc {
    Cube,
    Cylinder,
    Union,
    Intersection,
    Anti,
    Translate,
    Add,
    Sub,
    Mul,
    Div,
}

/// The smallest dimension a primitive may have: 1/1000.
pub open spec fn epsilon() -> Number {
    Number { num: 1, den: 1000 }
}

/// `n`, raised to at least `epsilon()`.
pub open spec fn clamped(n: Number) -> Number {
    if epsilon().le(n) {
        n
    } else {
        epsilon()
    }
}

/// A numeric argument: `default` when absent, an error when not a (valid) number.
pub open spec fn number_arg(v: Option<ValueModel>, default: Number) -> Result<Number, BuiltinError> {
    match v {
        None => Ok(default),
        Some(ValueModel::Num(n)) => if n.wf() {
            Ok(n)
        } else {
            Err(BuiltinError(BuiltinErrorKind::NotANumber))
        },
        Some(_) => Err(BuiltinError(BuiltinErrorKind::NotANumber)),
    }
}

pub open spec fn num_error(e: NumError) -> BuiltinError {
    match e {
        NumError::Overflow => BuiltinError(BuiltinErrorKind::Overflow),
        NumError::DivisionByZero => BuiltinError(BuiltinErrorKind::DivisionByZero),
    }
}

pub open spec fn int_num(n: int) -> Number {
    Number { num: n as i64, den: 1 }
}

/// The facet count that the number `n` asks for: its integer part, at least 3.
pub open spec fn facets_of(n: Number) -> u32 {
    if n.num < 3 * n.den {
        3
    } else if n.num / n.den > u32::MAX {
        u32::MAX
    } else {
        (n.num / n.den) as u32
    }
}

pub open spec fn cube_spec(c: CallModel) -> Result<ValueModel, BuiltinError> {
    let x = number_arg(arg_of(c, "x"@, 0), int_num(1));
    let y = number_arg(arg_of(c, "y"@, 1), int_num(1));
    let z = number_arg(arg_of(c, "z"@, 2), int_num(1));
    if x is Err {
        Err(x->Err_0)
    } else if y is Err {
        Err(y->Err_0)
    } else if z is Err {
        Err(z->Err_0)
    } else {
        Ok(ValueModel::Solid(seq![plain(Shape {
            op: ShapeOp::Cube { x: clamped(x->Ok_0), y: clamped(y->Ok_0), z: clamped(z->Ok_0) },
        })]))
    }
}

/// The radius of a cylinder: `r`, else half of `d`, else 1.
pub open spec fn radius_of(r: Option<Number>, d: Option<Number>) -> Result<Number, BuiltinError> {
    match r {
        Some(r) => Ok(r),
        None => match d {
            Some(d) => match d.spec_mul(Number { num: 1, den: 2 }) {
                Ok(h) => Ok(h),
                Err(e) => Err(num_error(e)),
            },
            None => Ok(int_num(1)),
        },
    }
}

pub open spec fn optional_number(v: Option<ValueModel>) -> Result<Option<Number>, BuiltinError> {
    match v {
        None => Ok(None),
        Some(ValueModel::Num(n)) => if n.wf() {
            Ok(Some(n))
        } else {
            Err(BuiltinError(BuiltinErrorKind::NotANumber))
        },
        Some(_) => Err(BuiltinError(BuiltinErrorKind::NotANumber)),
    }
}

pub open spec fn cylinder_spec(c: CallModel) -> Result<ValueModel, BuiltinError> {
    let d = optional_number(lookup_named(c.named, "d"@));
    let r = optional_number(arg_of(c, "r"@, 0));
    let h = number_arg(arg_of(c, "h"@, 1), int_num(1));
    let f = number_arg(arg_of(c, "$fn"@, 2), int_num(10));
    if d is Err {
        Err(d->Err_0)
    } else if r is Err {
        Err(r->Err_0)
    } else if d->Ok_0 is Some && r->Ok_0 is Some {
        Err(BuiltinError(BuiltinErrorKind::RadiusAndDiameter))
    } else if radius_of(r->Ok_0, d->Ok_0) is Err {
        Err(radius_of(r->Ok_0, d->Ok_0)->Err_0)
    } else if h is Err {
        Err(h->Err_0)
    } else if f is Err {
        Err(f->Err_0)
    } else {
        Ok(ValueModel::Solid(seq![plain(Shape {
            op: ShapeOp::Cylinder {
                r: clamped(radius_of(r->Ok_0, d->Ok_0)->Ok_0),
                h: clamped(h->Ok_0),
                facets: facets_of(f->Ok_0),
            },
        })]))
    }
}

/// Every child is a solid.
pub open spec fn all_solid(children: Seq<ValueModel>) -> bool {
    forall|k: int| 0 <= k < children.len() ==> (#[trigger] children[k]) is Solid
}

/// The item lists of the children.
pub open spec fn child_items(children: Seq<ValueModel>) -> Seq<Seq<SolidItem>> {
    Seq::new(children.len(), |k: int| children[k]->Solid_0)
}

/// The transform that translates by `(x, y, z)`.
pub open spec fn translation(x: Number, y: Number, z: Number) -> Transform {
    Transform::Then(Arc::new(Transform::Identity), Matrix { m: translation_array(x, y, z) })
}

/// The array of the translation matrix's cells.
pub open spec fn translation_array(x: Number, y: Number, z: Number) -> [Number; 16] {
    choose|m: [Number; 16]| m@ == translation_cells(x, y, z)
}

/// Whether `v` is a valid number.
pub open spec fn is_number(v: Option<ValueModel>) -> bool {
    v matches Some(ValueModel::Num(n)) && n.wf()
}

/// A coordinate of a translation: the named argument `name` if it is a number,
/// else the positional argument at `index` if it is a number, else 0. Values
/// that are not numbers are passed over.
pub open spec fn coordinate(c: CallModel, name: Seq<char>, index: int) -> Number {
    let named = lookup_named(c.named, name);
    let positional = if 0 <= index < c.pos.len() { Some(c.pos[index]) } else { None };
    if is_number(named) {
        named->Some_0->Num_0
    } else if is_number(positional) {
        positional->Some_0->Num_0
    } else {
        int_num(0)
    }
}

pub open spec fn translate_spec(c: CallModel) -> Result<ValueModel, BuiltinError> {
    if !all_solid(c.children) {
        Err(BuiltinError(BuiltinErrorKind::NotASolid))
    } else {
        Ok(ValueModel::Solid(moved_items(
            concat_all(child_items(c.children)),
            translation(coordinate(c, "x"@, 0), coordinate(c, "y"@, 1), coordinate(c, "z"@, 2)),
        )))
    }
}

pub open spec fn combinator_spec(f: BuiltinFunc, c: CallModel) -> Result<ValueModel, BuiltinError> {
    if !all_solid(c.children) {
        Err(BuiltinError(BuiltinErrorKind::NotASolid))
    } else {
        let items = child_items(c.children);
        match f {
            BuiltinFunc::Union => Ok(ValueModel::Solid(unionized(concat_all(items)))),
            BuiltinFunc::Intersection => Ok(ValueModel::Solid(intersected(items))),
            _ => Ok(ValueModel::Solid(anti_items(concat_all(items)))),
        }
    }
}

pub open spec fn arith_spec(f: BuiltinFunc, c: CallModel) -> Result<ValueModel, BuiltinError> {
    if c.pos.len() != 2 {
        Err(BuiltinError(BuiltinErrorKind::WrongArgumentCount))
    } else if !(c.pos[0] is Num) || !(c.pos[1] is Num) || !c.pos[0]->Num_0.wf() || !c.pos[1]->Num_0.wf() {
        Err(BuiltinError(BuiltinErrorKind::NotANumber))
    } else {
        let a = c.pos[0]->Num_0;
        let b = c.pos[1]->Num_0;
        let r = match f {
            BuiltinFunc::Add => a.spec_add(b),
            BuiltinFunc::Sub => a.spec_sub(b),
            BuiltinFunc::Mul => a.spec_mul(b),
            _ => a.spec_div(b),
        };
        match r {
            Ok(n) => Ok(ValueModel::Num(n)),
            Err(e) => Err(num_error(e)),
        }
    }
}

/// What calling the builtin `f` with the arguments `c` gives.
pub open spec fn call_spec(f: BuiltinFunc, c: CallModel) -> Result<ValueModel, BuiltinError> {
    match f {
        BuiltinFunc::Cube => cube_spec(c),
        BuiltinFunc::Cylinder => cylinder_spec(c),
        BuiltinFunc::Translate => translate_spec(c),
        BuiltinFunc::Union | BuiltinFunc::Intersection | BuiltinFunc::Anti => combinator_spec(f, c),
        _ => arith_spec(f, c),
    }
}

/// A builtin's outcome, with values seen through their views.
pub open spec fn outcome(r: Result<Value, BuiltinError>) -> Result<ValueModel, BuiltinError> {
    match r {
        Ok(v) => Ok(v@),
        Err(e) => Err(e),
    }
}

fn epsilon_exec() -> (r: Number)
    ensures
        r == epsilon(),
{
    Number { num: 1, den: 1000 }
}

fn num_err(e: NumError) -> (r: BuiltinError)
    ensures
        r == num_error(e),
{
    match e {
        NumError::Overflow => BuiltinError::new(BuiltinErrorKind::Overflow),
        NumError::DivisionByZero => BuiltinError::new(BuiltinErrorKind::DivisionByZero),
    }
}

/// A numeric argument with its default.
fn number_or(v: Option<&Value>, default: Number) -> (r: Result<Number, BuiltinError>)
    ensures
        r == number_arg(
            match v {
                Some(x) => Some(x@),
                None => None,
            },
            default,
        ),
{
    match v {
        None => Ok(default),
        Some(Value::Num(n)) => if n.den > 0 {
            Ok(*n)
        } else {
            err(BuiltinErrorKind::NotANumber)
        },
        Some(_) => err(BuiltinErrorKind::NotANumber),
    }
}

/// A numeric argument that may be absent.
fn maybe_number(v: Option<&Value>) -> (r: Result<Option<Number>, BuiltinError>)
    ensures
        r == optional_number(
            match v {
                Some(x) => Some(x@),
                None => None,
            },
        ),
{
    match v {
        None => Ok(None),
        Some(Value::Num(n)) => if n.den > 0 {
            Ok(Some(*n))
        } else {
            err(BuiltinErrorKind::NotANumber)
        },
        Some(_) => err(BuiltinErrorKind::NotANumber),
    }
}

fn facets(n: Number) -> (r: u32)
    requires
        n.wf(),
    ensures
        r == facets_of(n),
{
    if (n.num as i128) < 3 * (n.den as i128) {
        3
    } else {
        let q = n.num / n.den;
        if q > u32::MAX as i64 {
            u32::MAX
        } else {
            q as u32
        }
    }
}

/// The value if it is a valid number.
fn valid_number(v: Option<&Value>) -> (r: Option<Number>)
    ensures
        match v {
            Some(x) => match r {
                Some(n) => is_number(Some(x@)) && x@ == ValueModel::Num(n),
                None => !is_number(Some(x@)),
            },
            None => r is None,
        },
{
    match v {
        Some(Value::Num(n)) => if n.den > 0 {
            Some(*n)
        } else {
            None
        },
        _ => None,
    }
}

/// A coordinate of a translation: see `coordinate`.
fn coordinate_of(c: &CallCtx, name: &str, index: usize) -> (r: Number)
    ensures
        r == coordinate(c@, name@, index as int),
{
    match valid_number(c.named_arg(name)) {
        Some(n) => n,
        None => {
            let p = if index < c.pos.len() { Some(&c.pos[index]) } else { None };
            match valid_number(p) {
                Some(n) => n,
                None => Number::from_int(0),
            }
        },
    }
}

/// The children as solids, or `NotASolid`.
fn solids_of(children: &Vec<Value>) -> (r: Result<Vec<Arc<Solid>>, BuiltinError>)
    ensures
        match r {
            Ok(v) => all_solid(crate::runtime::models(children@)) && views(v@) == child_items(
                crate::runtime::models(children@),
            ),
            Err(e) => !all_solid(crate::runtime::models(children@)) && e == BuiltinError(
                BuiltinErrorKind::NotASolid,
            ),
        },
{
    let ghost ms = crate::runtime::models(children@);
    let mut v: Vec<Arc<Solid>> = Vec::new();
    let mut k: usize = 0;
    while k < children.len()
        invariant
            k <= children@.len(),
            ms == crate::runtime::models(children@),
            forall|j: int| 0 <= j < k ==> (#[trigger] ms[j]) is Solid,
            v@.len() == k,
            views(v@) == child_items(ms).subrange(0, k as int),
        decreases children@.len() - k,
    {
        match &children[k] {
            Value::Solid(s) => {
                assert(ms[k as int] == ValueModel::Solid(s@));
                v.push(s.clone());
                assert(views(v@)[k as int] == s@);
            },
            _ => {
                assert(!(ms[k as int] is Solid));
                return err(BuiltinErrorKind::NotASolid);
            },
        }
        k += 1;
        assert(views(v@) =~= child_items(ms).subrange(0, k as int));
    }
    assert(child_items(ms).subrange(0, k as int) =~= child_items(ms));
    Ok(v)
}

impl BuiltinFunc {
    /// Whether the builtin is expensive enough to be worth caching or offloading.
    pub fn is_heavy(&self) -> (r: bool)
        ensures
            r == (*self is Cube || *self is Cylinder || *self is Union || *self is Intersection),
    {
        match self {
            BuiltinFunc::Cube | BuiltinFunc::Cylinder | BuiltinFunc::Union | BuiltinFunc::Intersection => true,
            _ => false,
        }
    }

    fn cube(c: &CallCtx) -> (r: Result<Value, BuiltinError>)
        ensures
            outcome(r) == cube_spec(c@),
    {
        let x = number_or(c.arg("x", 0), Number::from_int(1));
        let y = number_or(c.arg("y", 1), Number::from_int(1));
        let z = number_or(c.arg("z", 2), Number::from_int(1));
        let eps = epsilon_exec();
        match (x, y, z) {
            (Ok(x), Ok(y), Ok(z)) => {
                let s = Solid::new_cube(x.max(eps), y.max(eps), z.max(eps));
                Ok(Value::Solid(Arc::new(s)))
            },
            (Err(e), _, _) => Err(e),
            (_, Err(e), _) => Err(e),
            (_, _, Err(e)) => Err(e),
        }
    }

    fn cylinder(c: &CallCtx) -> (r: Result<Value, BuiltinError>)
        ensures
            outcome(r) == cylinder_spec(c@),
    {
        let d = match maybe_number(c.named_arg("d")) {
            Ok(d) => d,
            Err(e) => return Err(e),
        };
        let r = match maybe_number(c.arg("r", 0)) {
            Ok(r) => r,
            Err(e) => return Err(e),
        };
        if d.is_some() && r.is_some() {
            return err(BuiltinErrorKind::RadiusAndDiameter);
        }
        let radius = match r {
            Some(r) => r,
            None => match d {
                Some(d) => {
                    match d.mul(Number { num: 1, den: 2 }) {
                        Ok(h) => h,
                        Err(e) => return Err(num_err(e)),
                    }
                },
                None => Number::from_int(1),
            },
        };
        let h = match number_or(c.arg("h", 1), Number::from_int(1)) {
            Ok(h) => h,
            Err(e) => return Err(e),
        };
        let f = match number_or(c.arg("$fn", 2), Number::from_int(10)) {
            Ok(f) => f,
            Err(e) => return Err(e),
        };
        let eps = epsilon_exec();
        let s = Solid::new_cylinder(radius.max(eps), h.max(eps), facets(f));
        Ok(Value::Solid(Arc::new(s)))
    }

    fn translate(c: &CallCtx) -> (r: Result<Value, BuiltinError>)
        ensures
            outcome(r) == translate_spec(c@),
    {
        let x = coordinate_of(c, "x", 0);
        let y = coordinate_of(c, "y", 1);
        let z = coordinate_of(c, "z", 2);
        let solids = match solids_of(&c.children) {
            Ok(s) => s,
            Err(e) => return Err(e),
        };
        let m = Matrix::from_translation(x, y, z);
        let t = Transform::single(m);
        assert(m.m == translation_array(x, y, z));
        let s = Solid::combine(&solids).transform(&t);
        Ok(Value::Solid(Arc::new(s)))
    }

    fn combinator(&self, c: &CallCtx) -> (r: Result<Value, BuiltinError>)
        requires
            *self is Union || *self is Intersection || *self is Anti,
        ensures
            outcome(r) == combinator_spec(*self, c@),
    {
        let solids = match solids_of(&c.children) {
            Ok(s) => s,
            Err(e) => return Err(e),
        };
        let s = match self {
            BuiltinFunc::Union => Solid::combine(&solids).unionize(),
            BuiltinFunc::Intersection => Solid::intersectionize(&solids),
            _ => Solid::combine(&solids).anti(),
        };
        Ok(Value::Solid(Arc::new(s)))
    }

    fn arith(&self, c: &CallCtx) -> (r: Result<Value, BuiltinError>)
        requires
            !(*self is Cube || *self is Cylinder || *self is Union || *self is Intersection
                || *self is Anti || *self is Translate),
        ensures
            outcome(r) == arith_spec(*self, c@),
            r is Ok ==> value_wf(r->Ok_0@),
    {
        if c.pos.len() != 2 {
            return err(BuiltinErrorKind::WrongArgumentCount);
        }
        let (a, b) = match (&c.pos[0], &c.pos[1]) {
            (Value::Num(a), Value::Num(b)) => (*a, *b),
            _ => return err(BuiltinErrorKind::NotANumber),
        };
        if a.den <= 0 || b.den <= 0 {
            return err(BuiltinErrorKind::NotANumber);
        }
        let r = match self {
            BuiltinFunc::Add => a.add(b),
            BuiltinFunc::Sub => a.sub(b),
            BuiltinFunc::Mul => a.mul(b),
            _ => a.div(b),
        };
        match r {
            Ok(n) => Ok(Value::Num(n)),
            Err(e) => Err(num_err(e)),
        }
    }

    /// Calls the builtin with the arguments `c`.
    pub fn call(&self, c: &CallCtx) -> (r: Result<Value, BuiltinError>)
        ensures
            outcome(r) == call_spec(*self, c@),
            r is Ok ==> value_wf(r->Ok_0@),
    {
        match self {
            BuiltinFunc::Cube => BuiltinFunc::cube(c),
            BuiltinFunc::Cylinder => BuiltinFunc::cylinder(c),
            BuiltinFunc::Translate => BuiltinFunc::translate(c),
            BuiltinFunc::Union | BuiltinFunc::Intersection | BuiltinFunc::Anti => self.combinator(c),
            _ => self.arith(c),
        }
    }
}

/// The names under which the builtins are bound.
pub open spec fn builtin_scope() -> Seq<(Seq<char>, ValueModel)> {
    seq![
        ("cube"@, ValueModel::Func(BuiltinFunc::Cube)),
        ("cylinder"@, ValueModel::Func(BuiltinFunc::Cylinder)),
        ("union"@, ValueModel::Func(BuiltinFunc::Union)),
        ("intersection"@, ValueModel::Func(BuiltinFunc::Intersection)),
        ("anti"@, ValueModel::Func(BuiltinFunc::Anti)),
        ("translate"@, ValueModel::Func(BuiltinFunc::Translate)),
        ("+"@, ValueModel::Func(BuiltinFunc::Add)),
        ("-"@, ValueModel::Func(BuiltinFunc::Sub)),
        ("*"@, ValueModel::Func(BuiltinFunc::Mul)),
        ("/"@, ValueModel::Func(BuiltinFunc::Div)),
    ]
}

/// The builtins, bound to their names.
pub fn get_builtins() -> (r: Vec<(String, Value)>)
    ensures
        named_models(r@) == builtin_scope(),
{
    let mut v: Vec<(String, Value)> = Vec::new();
    v.push(("cube".to_string(), Value::BuiltinFunc(BuiltinFunc::Cube)));
    v.push(("cylinder".to_string(), Value::BuiltinFunc(BuiltinFunc::Cylinder)));
    v.push(("union".to_string(), Value::BuiltinFunc(BuiltinFunc::Union)));
    v.push(("intersection".to_string(), Value::BuiltinFunc(BuiltinFunc::Intersection)));
    v.push(("anti".to_string(), Value::BuiltinFunc(BuiltinFunc::Anti)));
    v.push(("translate".to_string(), Value::BuiltinFunc(BuiltinFunc::Translate)));
    v.push(("+".to_string(), Value::BuiltinFunc(BuiltinFunc::Add)));
    v.push(("-".to_string(), Value::BuiltinFunc(BuiltinFunc::Sub)));
    v.push(("*".to_string(), Value::BuiltinFunc(BuiltinFunc::Mul)));
    v.push(("/".to_string(), Value::BuiltinFunc(BuiltinFunc::Div)));
    assert(named_models(v@) =~= builtin_scope());
    v
}

/// A cylinder given both a radius `r` and a diameter `d` by name fails with
/// `RadiusAndDiameter`, whatever their values.
pub proof fn lemma_cylinder_radius_and_diameter(c: CallModel, r: Number, d: Number)
    requires
        lookup_named(c.named, "r"@) == Some(ValueModel::Num(r)),
        lookup_named(c.named, "d"@) == Some(ValueModel::Num(d)),
        r.wf(),
        d.wf(),
    ensures
        cylinder_spec(c) == Err::<ValueModel, BuiltinError>(BuiltinError(BuiltinErrorKind::RadiusAndDiameter)),
{
}

/// The primitives never have a dimension below `epsilon()`: every box that `cube`
/// builds measures at least `epsilon()` along each axis, and every cylinder that
/// `cylinder` builds has radius and height at least `epsilon()`.
pub proof fn lemma_primitives_not_degenerate(c: CallModel)
    ensures
        cube_spec(c) matches Ok(ValueModel::Solid(items)) ==> items.len() == 1 && match items[0].shape.op {
            ShapeOp::Cube { x, y, z } => epsilon().le(x) && epsilon().le(y) && epsilon().le(z),
            _ => false,
        },
        cylinder_spec(c) matches Ok(ValueModel::Solid(items)) ==> items.len() == 1 && match items[0].shape.op {
            ShapeOp::Cylinder { r, h, facets } => epsilon().le(r) && epsilon().le(h) && facets >= 3,
            _ => false,
        },
{
    assert forall|n: Number| #[trigger] epsilon().le(clamped(n)) by {}
    assert forall|n: Number| n.wf() implies #[trigger] facets_of(n) >= 3 by {
        if n.num >= 3 * n.den {
            assert(n.num / n.den >= 3) by (nonlinear_arith)
                requires n.num >= 3 * n.den, n.den > 0;
        }
    }
}

} // verus!
