//! Target shapes and the two-phase structural decode.
//!
//! A target is record-like (named fields, each of a declared scalar kind) or
//! tuple-like (a fixed arity of positional kinds). The decode tries the
//! record reading first and the tuple reading second; a shape that is not
//! record-like fails the first phase outright, and one that is not tuple-like
//! fails the second, so the shape's tag decides which phase can succeed.
//!
//! A tuple-like target receives the bound values in ascending parameter-name
//! order — not in template declaration order.

use vstd::prelude::*;

use crate::params::{lex_lt, lookup, sorted_params, Param, ParamSet};
use crate::scalar::{kind_of, Scalar, ScalarKind, ValueModel};

verus! {

/// A named field of a record-like target, with its declared kind.
#[derive(Debug, PartialEq)]
pub struct Field {
    pub name: String,
    pub kind: ScalarKind,
}

impl View for Field {
    type V = (Seq<char>, ScalarKind);

    open spec fn view(&self) -> (Seq<char>, ScalarKind) {
        (self.name@, self.kind)
    }
}

impl DeepView for Field {
    type V = (Seq<char>, ScalarKind);

    open spec fn deep_view(&self) -> (Seq<char>, ScalarKind) {
        self@
    }
}

impl Field {
    /// A field named `name` of kind `kind`.
    pub fn new(name: &str, kind: ScalarKind) -> (r: Field)
        ensures
            r@ == (name@, kind),
    {
        Field { name: String::from_str(name), kind }
    }
}

/// The caller-declared target shape.
#[derive(Debug, PartialEq)]
pub enum Shape {
    /// Record-like with an open field set: takes every parameter set as it
    /// stands, whatever the names and kinds.
    Dynamic,
    /// Record-like: each named field must be bound to a value of its kind;
    /// parameters whose names no field carries are ignored.
    Record(Vec<Field>),
    /// Tuple-like: exactly this many values, kind-checked positionally in
    /// ascending parameter-name order.
    Tuple(Vec<ScalarKind>),
}

/// The shape as the contracts see it.
pub enum ShapeModel {
    Dynamic,
    Record(Seq<(Seq<char>, ScalarKind)>),
    Tuple(Seq<ScalarKind>),
}

impl View for Shape {
    type V = ShapeModel;

    open spec fn view(&self) -> ShapeModel {
        match self {
            Shape::Dynamic => ShapeModel::Dynamic,
            Shape::Record(fields) => ShapeModel::Record(fields.deep_view()),
            Shape::Tuple(kinds) => ShapeModel::Tuple(kinds@),
        }
    }
}

/// A successfully decoded value: a keyed record or a positional tuple.
#[derive(Debug, PartialEq)]
pub enum Decoded {
    /// Field names bound to scalars, in ascending name order.
    Record(ParamSet),
    /// Values in ascending parameter-name order.
    Tuple(Vec<Scalar>),
}

/// The decoded value as the contracts see it.
pub enum DecodedModel {
    Record(Seq<(Seq<char>, ValueModel)>),
    Tuple(Seq<ValueModel>),
}

impl View for Decoded {
    type V = DecodedModel;

    open spec fn view(&self) -> DecodedModel {
        match self {
            Decoded::Record(params) => DecodedModel::Record(params@),
            Decoded::Tuple(values) => DecodedModel::Tuple(values.deep_view()),
        }
    }
}

/// Whether every field is bound to a value of its declared kind.
pub open spec fn record_fields_ok(
    params: Seq<(Seq<char>, ValueModel)>,
    fields: Seq<(Seq<char>, ScalarKind)>,
) -> bool {
    forall|i: int|
        0 <= i < fields.len() ==> {
            let l = lookup(params, #[trigger] fields[i].0);
            l is Some && kind_of(l->0) == fields[i].1
        }
}

/// Whether some field carries this name.
pub open spec fn field_named(fields: Seq<(Seq<char>, ScalarKind)>, name: Seq<char>) -> bool {
    exists|i: int| 0 <= i < fields.len() && fields[i].0 == name
}

/// The parameters whose names some field carries, in their original order.
pub open spec fn restricted(
    params: Seq<(Seq<char>, ValueModel)>,
    fields: Seq<(Seq<char>, ScalarKind)>,
) -> Seq<(Seq<char>, ValueModel)>
    decreases params.len(),
{
    if params.len() == 0 {
        Seq::empty()
    } else if field_named(fields, params[0].0) {
        seq![params[0]] + restricted(params.skip(1), fields)
    } else {
        restricted(params.skip(1), fields)
    }
}

/// Keys strictly above `lo` stay strictly above `lo` after restriction.
proof fn lemma_restricted_bound(
    params: Seq<(Seq<char>, ValueModel)>,
    fields: Seq<(Seq<char>, ScalarKind)>,
    lo: Seq<char>,
)
    requires
        forall|i: int| 0 <= i < params.len() ==> lex_lt(lo, params[i].0),
    ensures
        forall|i: int|
            0 <= i < restricted(params, fields).len() ==> lex_lt(lo, restricted(params, fields)[i].0),
    decreases params.len(),
{
    if params.len() > 0 {
        let t = params.skip(1);
        assert(forall|i: int| 0 <= i < t.len() ==> t[i] == params[i + 1]);
        lemma_restricted_bound(t, fields, lo);
        if field_named(fields, params[0].0) {
            let r = seq![params[0]] + restricted(t, fields);
            assert(restricted(params, fields) == r);
            assert forall|i: int| 0 <= i < r.len() implies lex_lt(lo, r[i].0) by {
                if i > 0 {
                    assert(r[i] == restricted(t, fields)[i - 1]);
                }
            }
        }
    }
}

/// Restriction keeps the strict ascending order.
pub proof fn lemma_restricted_sorted(
    params: Seq<(Seq<char>, ValueModel)>,
    fields: Seq<(Seq<char>, ScalarKind)>,
)
    requires
        sorted_params(params),
    ensures
        sorted_params(restricted(params, fields)),
    decreases params.len(),
{
    if params.len() > 0 {
        let t = params.skip(1);
        assert(forall|i: int| 0 <= i < t.len() ==> t[i] == params[i + 1]);
        assert(sorted_params(t));
        lemma_restricted_sorted(t, fields);
        if field_named(fields, params[0].0) {
            assert(forall|i: int| 0 <= i < t.len() ==> lex_lt(params[0].0, t[i].0));
            lemma_restricted_bound(t, fields, params[0].0);
            let r = seq![params[0]] + restricted(t, fields);
            assert(restricted(params, fields) == r);
            assert forall|i: int, j: int| 0 <= i < j < r.len() implies lex_lt(r[i].0, r[j].0) by {
                if i > 0 {
                    assert(r[i] == restricted(t, fields)[i - 1]);
                    assert(r[j] == restricted(t, fields)[j - 1]);
                } else {
                    assert(r[j] == restricted(t, fields)[j - 1]);
                }
            }
        }
    }
}

/// Whether the arity matches and every position's kind matches.
pub open spec fn tuple_ok(params: Seq<(Seq<char>, ValueModel)>, kinds: Seq<ScalarKind>) -> bool {
    &&& params.len() == kinds.len()
    &&& forall|i: int| 0 <= i < params.len() ==> kind_of(params[i].1) == kinds[i]
}

/// The bound values in the parameter set's order.
pub open spec fn tuple_values(params: Seq<(Seq<char>, ValueModel)>) -> Seq<ValueModel> {
    params.map_values(|p: (Seq<char>, ValueModel)| p.1)
}

/// What decoding a parameter set into a shape yields, if anything: the
/// record reading where the shape is record-like, else the tuple reading.
pub open spec fn decode_spec(
    params: Seq<(Seq<char>, ValueModel)>,
    shape: ShapeModel,
) -> Option<DecodedModel> {
    match shape {
        ShapeModel::Dynamic => Some(DecodedModel::Record(params)),
        ShapeModel::Record(fields) => if record_fields_ok(params, fields) {
            Some(DecodedModel::Record(restricted(params, fields)))
        } else {
            None
        },
        ShapeModel::Tuple(kinds) => if tuple_ok(params, kinds) {
            Some(DecodedModel::Tuple(tuple_values(params)))
        } else {
            None
        },
    }
}

/// Decodes a parameter set into the target shape.
pub fn decode(params: ParamSet, shape: &Shape) -> (r: Option<Decoded>)
    requires
        params.wf(),
    ensures
        match r {
            Some(d) => decode_spec(params@, shape@) == Some(d@),
            None => decode_spec(params@, shape@) is None,
        },
{
    match shape {
        Shape::Dynamic => Some(Decoded::Record(params)),
        Shape::Record(fields) => decode_record(params, fields),
        Shape::Tuple(kinds) => decode_tuple(params, kinds),
    }
}

/// Whether some field of `fields` is named `name`.
fn has_field(fields: &Vec<Field>, name: &String) -> (b: bool)
    ensures
        b == field_named(fields.deep_view(), name@),
{
    let mut i: usize = 0;
    while i < fields.len()
        invariant
            i <= fields@.len(),
            forall|k: int| 0 <= k < i ==> fields.deep_view()[k].0 != name@,
        decreases fields@.len() - i,
    {
        if fields[i].name == *name {
            proof {
                assert(fields.deep_view()[i as int].0 == name@);
            }
            return true;
        }
        i = i + 1;
    }
    false
}

/// The record reading: every field must be bound with its declared kind;
/// parameters whose names no field carries are dropped.
fn decode_record(params: ParamSet, fields: &Vec<Field>) -> (r: Option<Decoded>)
    requires
        params.wf(),
    ensures
        match r {
            Some(d) => decode_spec(params@, ShapeModel::Record(fields.deep_view())) == Some(d@),
            None => decode_spec(params@, ShapeModel::Record(fields.deep_view())) is None,
        },
{
    let ghost fm = fields.deep_view();
    let mut i: usize = 0;
    while i < fields.len()
        invariant
            i <= fields@.len(),
            fm == fields.deep_view(),
            forall|k: int|
                0 <= k < i ==> {
                    let l = lookup(params@, #[trigger] fm[k].0);
                    l is Some && kind_of(l->0) == fm[k].1
                },
        decreases fields@.len() - i,
    {
        let field = &fields[i];
        proof {
            assert(fm[i as int] == (field.name@, field.kind));
        }
        match params.get(field.name.as_str()) {
            None => {
                return None;
            },
            Some(v) => {
                if v.kind() != field.kind {
                    return None;
                }
            },
        }
        i = i + 1;
    }
    assert(record_fields_ok(params@, fm));
    // keep the parameters the fields name, in their ascending order
    let mut kept = ParamSet::new();
    let n = params.len();
    let mut j: usize = 0;
    proof {
        assert(params@.skip(0) =~= params@);
        assert(restricted(params@, fm) =~= kept@ + restricted(params@, fm));
    }
    while j < n
        invariant
            params.wf(),
            n == params@.len(),
            j <= n,
            fm == fields.deep_view(),
            kept.wf(),
            restricted(params@, fm) == kept@ + restricted(params@.skip(j as int), fm),
            forall|t: int, u: int|
                0 <= t < kept@.len() && j <= u < n ==> lex_lt(kept@[t].0, params@[u].0),
        decreases n - j,
    {
        let p = params.entry(j);
        let keep = has_field(fields, &p.name);
        proof {
            let rest = params@.skip(j as int);
            assert(rest[0] == params@[j as int]);
            assert(rest.skip(1) =~= params@.skip(j as int + 1));
        }
        if keep {
            let ghost before = kept@;
            kept.push_max(p.clone());
            proof {
                let x = params@[j as int];
                assert(kept@ =~= before.push(x));
                assert(kept@ + restricted(params@.skip(j as int + 1), fm) =~= before + restricted(
                    params@.skip(j as int),
                    fm,
                ));
                assert forall|t: int, u: int|
                    0 <= t < kept@.len() && j + 1 <= u < n implies lex_lt(
                    kept@[t].0,
                    params@[u].0,
                ) by {
                    if t < before.len() {
                        assert(kept@[t] == before[t]);
                    } else {
                        assert(kept@[t] == x);
                    }
                }
            }
        }
        j = j + 1;
    }
    proof {
        assert(params@.skip(n as int) =~= Seq::<(Seq<char>, ValueModel)>::empty());
        assert(kept@ + restricted(params@.skip(n as int), fm) =~= kept@);
    }
    Some(Decoded::Record(kept))
}

/// The tuple reading: arity and positional kinds, values taken in ascending
/// parameter-name order.
fn decode_tuple(params: ParamSet, kinds: &Vec<ScalarKind>) -> (r: Option<Decoded>)
    ensures
        match r {
            Some(d) => decode_spec(params@, ShapeModel::Tuple(kinds@)) == Some(d@),
            None => decode_spec(params@, ShapeModel::Tuple(kinds@)) is None,
        },
{
    if params.len() != kinds.len() {
        return None;
    }
    let n = params.len();
    let mut values: Vec<Scalar> = Vec::new();
    let mut i: usize = 0;
    proof {
        assert(values.deep_view() =~= tuple_values(params@).take(0));
    }
    while i < n
        invariant
            n == params@.len(),
            n == kinds@.len(),
            i <= n,
            values.deep_view() == tuple_values(params@).take(i as int),
            forall|k: int| 0 <= k < i ==> kind_of(params@[k].1) == kinds@[k],
        decreases n - i,
    {
        let p = params.entry(i);
        if p.value.kind() != kinds[i] {
            return None;
        }
        let ghost before = values.deep_view();
        values.push(p.value.clone());
        proof {
            assert(before.len() == i as int);
            assert(values@.len() == before.len() + 1);
            assert forall|k: int| 0 <= k < i + 1 implies values.deep_view()[k] == tuple_values(
                params@,
            )[k] by {
                assert(values.deep_view()[k] == values@[k].deep_view());
                if k < i {
                    assert(values@[k].deep_view() == before[k]);
                    assert(before[k] == tuple_values(params@).take(i as int)[k]);
                } else {
                    assert(values@[k]@ == params@[k].1);
                    assert(tuple_values(params@)[k] == params@[k].1);
                }
            }
            assert(values.deep_view() =~= tuple_values(params@).take(i as int + 1));
        }
        i = i + 1;
    }
    proof {
        assert(tuple_values(params@).take(n as int) =~= tuple_values(params@));
        assert(tuple_ok(params@, kinds@));
    }
    Some(Decoded::Tuple(values))
}

} // verus!
