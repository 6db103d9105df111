//! The extraction pipeline: split, match, decode.
//!
//! `Split -> Match -> Decode` is a linear pipeline with no retry and no state
//! kept between calls: any stage's failure short-circuits the rest, and the
//! same inputs always yield the same outcome.

use vstd::prelude::*;

use crate::error::PathExtractionError;
use crate::params::{lemma_sorted_insert_sorted, sorted_insert, sorted_params, ParamSet};
use crate::scalar::coerce;
use crate::scalar::coerce_segment;
use crate::scalar::ScalarKind;
use crate::segment::{is_placeholder, placeholder_name, split, split_segments};
use crate::shape::{
    decode, decode_spec, lemma_restricted_sorted, record_fields_ok, tuple_values, Decoded,
    DecodedModel, Shape, ShapeModel,
};

verus! {

/// The parameter set a pairwise walk of the segments yields: placeholders
/// bind their coerced candidate segment (a later binding of the same name
/// overwrites an earlier one), literals must match exactly, and any literal
/// mismatch fails the whole walk. `None` stands for that mismatch.
pub open spec fn match_segments_spec(cand: Seq<Seq<char>>, pat: Seq<Seq<char>>) -> Option<
    Seq<(Seq<char>, crate::scalar::ValueModel)>,
>
    decreases cand.len(),
{
    if cand.len() == 0 {
        Some(Seq::empty())
    } else {
        match match_segments_spec(cand.drop_last(), pat.drop_last()) {
            None => None,
            Some(ps) => {
                let c = cand.last();
                let p = pat.last();
                if is_placeholder(p) {
                    Some(sorted_insert(ps, placeholder_name(p), coerce(c)))
                } else if c == p {
                    Some(ps)
                } else {
                    None
                }
            },
        }
    }
}

/// Once a prefix of the walk has failed, the whole walk fails.
pub proof fn lemma_match_extends_none(cand: Seq<Seq<char>>, pat: Seq<Seq<char>>, i: int)
    requires
        0 <= i <= cand.len(),
        cand.len() == pat.len(),
        match_segments_spec(cand.take(i), pat.take(i)) is None,
    ensures
        match_segments_spec(cand, pat) is None,
    decreases cand.len() - i,
{
    if i < cand.len() {
        assert(cand.take(i + 1).drop_last() =~= cand.take(i));
        assert(pat.take(i + 1).drop_last() =~= pat.take(i));
        lemma_match_extends_none(cand, pat, i + 1);
    } else {
        assert(cand.take(i) =~= cand);
        assert(pat.take(i) =~= pat);
    }
}

/// Whatever a successful walk binds is in strictly ascending name order.
pub proof fn lemma_match_params_sorted(cand: Seq<Seq<char>>, pat: Seq<Seq<char>>)
    ensures
        match match_segments_spec(cand, pat) {
            Some(params) => sorted_params(params),
            None => true,
        },
    decreases cand.len(),
{
    if cand.len() > 0 {
        lemma_match_params_sorted(cand.drop_last(), pat.drop_last());
        match match_segments_spec(cand.drop_last(), pat.drop_last()) {
            None => {},
            Some(ps) => {
                if is_placeholder(pat.last()) {
                    lemma_sorted_insert_sorted(ps, placeholder_name(pat.last()), coerce(
                        cand.last(),
                    ));
                }
            },
        }
    }
}

/// A literal pattern segment whose candidate segment differs fails the walk.
pub proof fn lemma_match_literal_mismatch(cand: Seq<Seq<char>>, pat: Seq<Seq<char>>, i: int)
    requires
        cand.len() == pat.len(),
        0 <= i < pat.len(),
        !is_placeholder(pat[i]),
        cand[i] != pat[i],
    ensures
        match_segments_spec(cand, pat) is None,
    decreases cand.len(),
{
    if i == cand.len() - 1 {
        assert(cand.last() == cand[i] && pat.last() == pat[i]);
    } else {
        assert(cand.drop_last()[i] == cand[i] && pat.drop_last()[i] == pat[i]);
        lemma_match_literal_mismatch(cand.drop_last(), pat.drop_last(), i);
    }
}

/// What one extraction call yields, start to end: `MissingParams` when the
/// segment counts differ; else `InvalidFormat` when a literal mismatches;
/// else the parameter set decoded into the shape, or `UnsupportedType` when
/// the shape cannot represent it.
pub open spec fn extract_spec(cand: Seq<char>, pat: Seq<char>, shape: ShapeModel) -> Result<
    DecodedModel,
    PathExtractionError,
> {
    let cs = split_segments(cand);
    let ps = split_segments(pat);
    if cs.len() != ps.len() {
        Err(PathExtractionError::MissingParams)
    } else {
        match match_segments_spec(cs, ps) {
            None => Err(PathExtractionError::InvalidFormat),
            Some(params) => match decode_spec(params, shape) {
                Some(d) => Ok(d),
                None => Err(PathExtractionError::UnsupportedType),
            },
        }
    }
}

/// Matches candidate segments against pattern segments pairwise.
fn match_segments(cand: &Vec<String>, pat: &Vec<String>) -> (r: Option<ParamSet>)
    requires
        cand@.len() == pat@.len(),
    ensures
        match r {
            Some(params) => match_segments_spec(cand.deep_view(), pat.deep_view()) == Some(params@)
                && params.wf(),
            None => match_segments_spec(cand.deep_view(), pat.deep_view()) is None,
        },
{
    let ghost cm = cand.deep_view();
    let ghost pm = pat.deep_view();
    let n = pat.len();
    let mut params = ParamSet::new();
    let mut i: usize = 0;
    proof {
        assert(cm.take(0) =~= Seq::<Seq<char>>::empty());
        assert(pm.take(0) =~= Seq::<Seq<char>>::empty());
        assert(params@ =~= Seq::<(Seq<char>, crate::scalar::ValueModel)>::empty());
    }
    while i < n
        invariant
            cm == cand.deep_view(),
            pm == pat.deep_view(),
            n == pat@.len(),
            cand@.len() == pat@.len(),
            cm.len() == n && pm.len() == n,
            i <= n,
            params.wf(),
            match_segments_spec(cm.take(i as int), pm.take(i as int)) == Some(params@),
        decreases n - i,
    {
        let pseg = pat[i].as_str();
        let plen = pseg.unicode_len();
        let ph = plen >= 2 && pseg.get_char(0) == '{' && pseg.get_char(plen - 1) == '}';
        proof {
            assert(pm[i as int] == pat@[i as int]@);
            assert(ph == is_placeholder(pm[i as int]));
            assert(cm.take(i as int + 1).drop_last() =~= cm.take(i as int));
            assert(pm.take(i as int + 1).drop_last() =~= pm.take(i as int));
            assert(cm.take(i as int + 1).last() == cm[i as int]);
            assert(pm.take(i as int + 1).last() == pm[i as int]);
        }
        if ph {
            let name = String::from_str(pseg.substring_char(1, plen - 1));
            let value = coerce_segment(cand[i].as_str());
            proof {
                assert(name@ =~= placeholder_name(pm[i as int]));
                assert(value@ == coerce(cm[i as int]));
            }
            let ghost before = params@;
            params.insert(name, value);
            proof {
                assert(match_segments_spec(cm.take(i as int + 1), pm.take(i as int + 1)) == Some(
                    sorted_insert(before, placeholder_name(pm[i as int]), coerce(cm[i as int])),
                ));
            }
        } else {
            let same = cand[i] == pat[i];
            proof {
                assert(same == (cm[i as int] == pm[i as int]));
            }
            if !same {
                proof {
                    assert(match_segments_spec(cm.take(i as int + 1), pm.take(i as int + 1))
                        is None);
                    lemma_match_extends_none(cm, pm, i + 1);
                }
                return None;
            }
        }
        i = i + 1;
    }
    proof {
        assert(cm.take(n as int) =~= cm);
        assert(pm.take(n as int) =~= pm);
    }
    Some(params)
}

/// A decoded extraction result.
#[derive(Debug, PartialEq)]
pub struct Path(pub Decoded);

impl Path {
    /// Extracts the parameters that `pattern` binds in `candidate` and
    /// decodes them into `shape`.
    pub fn extract(candidate: &str, pattern: &str, shape: &Shape) -> (r: Result<
        Path,
        PathExtractionError,
    >)
        ensures
            match r {
                Ok(p) => extract_spec(candidate@, pattern@, shape@) == Ok::<
                    DecodedModel,
                    PathExtractionError,
                >(p.0@),
                Err(e) => extract_spec(candidate@, pattern@, shape@) == Err::<
                    DecodedModel,
                    PathExtractionError,
                >(e),
            },
    {
        let cand = split(candidate);
        let pat = split(pattern);
        proof {
            assert(cand.deep_view().len() == cand@.len());
            assert(pat.deep_view().len() == pat@.len());
        }
        if cand.len() != pat.len() {
            return Err(PathExtractionError::MissingParams);
        }
        match match_segments(&cand, &pat) {
            None => Err(PathExtractionError::InvalidFormat),
            Some(params) => match decode(params, shape) {
                Some(d) => Ok(Path(d)),
                None => Err(PathExtractionError::UnsupportedType),
            },
        }
    }
}

/// Segment-count gate: when the candidate and the pattern split into
/// different segment counts, the extraction fails with `MissingParams`,
/// whatever the contents and the shape.
pub proof fn lemma_segment_count_gate(cand: Seq<char>, pat: Seq<char>, shape: ShapeModel)
    requires
        split_segments(cand).len() != split_segments(pat).len(),
    ensures
        extract_spec(cand, pat, shape) == Err::<DecodedModel, PathExtractionError>(
            PathExtractionError::MissingParams,
        ),
{
}

/// Literal exactness: with equal segment counts, a literal pattern segment
/// whose candidate segment differs makes the extraction fail with
/// `InvalidFormat`, whatever the shape.
pub proof fn lemma_literal_exactness(cand: Seq<char>, pat: Seq<char>, shape: ShapeModel, i: int)
    requires
        split_segments(cand).len() == split_segments(pat).len(),
        0 <= i < split_segments(pat).len(),
        !is_placeholder(split_segments(pat)[i]),
        split_segments(cand)[i] != split_segments(pat)[i],
    ensures
        extract_spec(cand, pat, shape) == Err::<DecodedModel, PathExtractionError>(
            PathExtractionError::InvalidFormat,
        ),
{
    lemma_match_literal_mismatch(split_segments(cand), split_segments(pat), i);
}

/// Idempotence: the outcome is a function of the call's inputs alone, so any
/// two results that meet `extract`'s contract on the same inputs agree.
pub proof fn lemma_extract_idempotent(
    cand: Seq<char>,
    pat: Seq<char>,
    shape: ShapeModel,
    r1: Result<DecodedModel, PathExtractionError>,
    r2: Result<DecodedModel, PathExtractionError>,
)
    requires
        r1 == extract_spec(cand, pat, shape),
        r2 == extract_spec(cand, pat, shape),
    ensures
        r1 == r2,
{
}

/// Record order: every record an extraction hands back keeps its bindings in
/// strictly ascending name order — the dynamic record exactly as matched, a
/// field record after restriction to its fields.
pub proof fn lemma_record_decode_order(cand: Seq<char>, pat: Seq<char>, shape: ShapeModel)
    ensures
        match extract_spec(cand, pat, shape) {
            Ok(d) => match d {
                DecodedModel::Record(entries) => sorted_params(entries),
                DecodedModel::Tuple(_) => true,
            },
            Err(_) => true,
        },
{
    let cs = split_segments(cand);
    let ps = split_segments(pat);
    lemma_match_params_sorted(cs, ps);
    if cs.len() == ps.len() {
        match match_segments_spec(cs, ps) {
            Some(params) => match shape {
                ShapeModel::Record(fields) => {
                    if record_fields_ok(params, fields) {
                        lemma_restricted_sorted(params, fields);
                    }
                },
                _ => {},
            },
            None => {},
        }
    }
}

/// Order-sensitivity of the tuple decode: a successful extraction into a
/// tuple shape binds its parameters in strictly ascending name order and
/// hands the tuple the bound values in exactly that order — not in the order
/// the template declared its placeholders.
pub proof fn lemma_tuple_decode_order(cand: Seq<char>, pat: Seq<char>, kinds: Seq<ScalarKind>)
    requires
        extract_spec(cand, pat, ShapeModel::Tuple(kinds)) is Ok,
    ensures
        match match_segments_spec(split_segments(cand), split_segments(pat)) {
            Some(params) => {
                &&& sorted_params(params)
                &&& extract_spec(cand, pat, ShapeModel::Tuple(kinds)) == Ok::<
                    DecodedModel,
                    PathExtractionError,
                >(DecodedModel::Tuple(tuple_values(params)))
            },
            None => false,
        },
{
    lemma_match_params_sorted(split_segments(cand), split_segments(pat));
}

} // verus!
