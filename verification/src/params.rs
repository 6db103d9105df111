//! The parameter set a successful match produces: placeholder names bound to
//! scalars, kept in ascending lexicographic name order.
//!
//! The ascending order is a caller-facing contract, not an accident: the
//! tuple-shaped decode reads values in exactly this order, whatever order the
//! template declared its placeholders in.

use vstd::prelude::*;

use crate::scalar::{Scalar, ValueModel};

verus! {

/// Strict lexicographic order on character sequences, by code point.
pub open spec fn lex_lt(a: Seq<char>, b: Seq<char>) -> bool
    decreases a.len(),
{
    if b.len() == 0 {
        false
    } else if a.len() == 0 {
        true
    } else if a[0] != b[0] {
        (a[0] as u32) < (b[0] as u32)
    } else {
        lex_lt(a.skip(1), b.skip(1))
    }
}

/// Exactly one of `lex_lt(a, b)`, `a == b`, `lex_lt(b, a)` holds.
pub proof fn lemma_lex_trichotomy(a: Seq<char>, b: Seq<char>)
    ensures
        lex_lt(a, b) ==> !lex_lt(b, a) && a != b,
        lex_lt(b, a) ==> !lex_lt(a, b) && a != b,
        a == b ==> !lex_lt(a, b) && !lex_lt(b, a),
        lex_lt(a, b) || lex_lt(b, a) || a == b,
    decreases a.len(),
{
    if a.len() > 0 && b.len() > 0 && a[0] != b[0] {
        // distinct characters have distinct code points
        vstd::utf8::char_u32_cast(a[0], a[0] as u32);
        vstd::utf8::char_u32_cast(b[0], b[0] as u32);
    }
    if a.len() > 0 && b.len() > 0 && a[0] == b[0] {
        lemma_lex_trichotomy(a.skip(1), b.skip(1));
        if a.skip(1) == b.skip(1) {
            assert forall|i: int| 0 <= i < a.len() implies a[i] == b[i] by {
                if i > 0 {
                    assert(a[i] == a.skip(1)[i - 1]);
                    assert(b[i] == b.skip(1)[i - 1]);
                }
            }
            assert(a =~= b);
        }
        if a == b {
            assert(a.skip(1) =~= b.skip(1));
        }
    } else if a == b {
        assert(a.len() == b.len());
    }
}

pub proof fn lemma_lex_transitive(a: Seq<char>, b: Seq<char>, c: Seq<char>)
    requires
        lex_lt(a, b),
        lex_lt(b, c),
    ensures
        lex_lt(a, c),
    decreases a.len(),
{
    if a.len() > 0 && b.len() > 0 && c.len() > 0 {
        if a[0] == b[0] && b[0] == c[0] {
            lemma_lex_transitive(a.skip(1), b.skip(1), c.skip(1));
        }
    }
}

/// One bound parameter: a placeholder name and its coerced value.
#[derive(Debug, PartialEq)]
pub struct Param {
    pub name: String,
    pub value: Scalar,
}

impl View for Param {
    type V = (Seq<char>, ValueModel);

    open spec fn view(&self) -> (Seq<char>, ValueModel) {
        (self.name@, self.value@)
    }
}

impl DeepView for Param {
    type V = (Seq<char>, ValueModel);

    open spec fn deep_view(&self) -> (Seq<char>, ValueModel) {
        self@
    }
}

impl Clone for Param {
    fn clone(&self) -> (r: Self)
        ensures
            r@ == self@,
    {
        Param { name: self.name.clone(), value: self.value.clone() }
    }
}

/// Keys strictly ascending: each name appears at most once, in order.
pub open spec fn sorted_params(s: Seq<(Seq<char>, ValueModel)>) -> bool {
    forall|i: int, j: int| 0 <= i < j < s.len() ==> lex_lt(s[i].0, s[j].0)
}

/// Insertion into a name-sorted association sequence; an existing binding of
/// the same name is overwritten (last write wins).
pub open spec fn sorted_insert(
    s: Seq<(Seq<char>, ValueModel)>,
    k: Seq<char>,
    v: ValueModel,
) -> Seq<(Seq<char>, ValueModel)>
    decreases s.len(),
{
    if s.len() == 0 {
        seq![(k, v)]
    } else if lex_lt(k, s[0].0) {
        seq![(k, v)] + s
    } else if k == s[0].0 {
        seq![(k, v)] + s.skip(1)
    } else {
        seq![s[0]] + sorted_insert(s.skip(1), k, v)
    }
}

/// Insertion keeps the strict ascending order.
pub proof fn lemma_sorted_insert_sorted(s: Seq<(Seq<char>, ValueModel)>, k: Seq<char>, v: ValueModel)
    requires
        sorted_params(s),
    ensures
        sorted_params(sorted_insert(s, k, v)),
    decreases s.len(),
{
    lemma_lex_trichotomy(k, if s.len() > 0 { s[0].0 } else { k });
    if s.len() == 0 {
    } else if lex_lt(k, s[0].0) {
        let r = seq![(k, v)] + s;
        assert forall|i: int, j: int| 0 <= i < j < r.len() implies lex_lt(r[i].0, r[j].0) by {
            if i == 0 {
                assert(r[j].0 == s[j - 1].0);
                if j > 1 {
                    lemma_lex_transitive(k, s[0].0, s[j - 1].0);
                }
            } else {
                assert(r[i].0 == s[i - 1].0 && r[j].0 == s[j - 1].0);
            }
        }
    } else if k == s[0].0 {
        let r = seq![(k, v)] + s.skip(1);
        assert forall|i: int, j: int| 0 <= i < j < r.len() implies lex_lt(r[i].0, r[j].0) by {
            if i == 0 {
                assert(r[j].0 == s[j].0);
            } else {
                assert(r[i].0 == s[i].0 && r[j].0 == s[j].0);
            }
        }
    } else {
        assert(lex_lt(s[0].0, k));
        let t = s.skip(1);
        assert(forall|i: int| 0 <= i < t.len() ==> t[i] == s[i + 1]);
        assert(sorted_params(t));
        lemma_sorted_insert_sorted(t, k, v);
        let rest = sorted_insert(t, k, v);
        // the head is below everything in the inserted tail
        assert(forall|i: int| 0 <= i < t.len() ==> lex_lt(s[0].0, t[i].0));
        lemma_sorted_insert_head_bound(t, k, v, s[0].0);
        let r = seq![s[0]] + rest;
        assert forall|i: int, j: int| 0 <= i < j < r.len() implies lex_lt(r[i].0, r[j].0) by {
            if i > 0 {
                assert(r[i].0 == rest[i - 1].0 && r[j].0 == rest[j - 1].0);
            } else {
                assert(r[j].0 == rest[j - 1].0);
            }
        }
    }
}

/// A bound strictly below `k` and below every key of `s` is strictly below
/// every key of the insertion.
pub proof fn lemma_sorted_insert_head_bound(
    s: Seq<(Seq<char>, ValueModel)>,
    k: Seq<char>,
    v: ValueModel,
    lo: Seq<char>,
)
    requires
        lex_lt(lo, k),
        forall|i: int| 0 <= i < s.len() ==> lex_lt(lo, s[i].0),
    ensures
        forall|i: int|
            0 <= i < sorted_insert(s, k, v).len() ==> lex_lt(lo, sorted_insert(s, k, v)[i].0),
    decreases s.len(),
{
    if s.len() == 0 {
    } else if lex_lt(k, s[0].0) {
    } else if k == s[0].0 {
    } else {
        assert(forall|i: int| 0 <= i < s.skip(1).len() ==> lex_lt(lo, s.skip(1)[i].0));
        lemma_sorted_insert_head_bound(s.skip(1), k, v, lo);
        let r = seq![s[0]] + sorted_insert(s.skip(1), k, v);
        assert(sorted_insert(s, k, v) == r);
        assert forall|i: int| 0 <= i < r.len() implies lex_lt(lo, r[i].0) by {
            if i > 0 {
                assert(r[i].0 == sorted_insert(s.skip(1), k, v)[i - 1].0);
            }
        }
    }
}

/// The value bound to `k`, scanned left to right.
pub open spec fn lookup(s: Seq<(Seq<char>, ValueModel)>, k: Seq<char>) -> Option<ValueModel>
    decreases s.len(),
{
    if s.len() == 0 {
        None
    } else if s[0].0 == k {
        Some(s[0].1)
    } else {
        lookup(s.skip(1), k)
    }
}

/// The parameter set of one successful match: names bound to scalars, held
/// in strictly ascending name order.
#[derive(Debug, PartialEq)]
pub struct ParamSet {
    entries: Vec<Param>,
}

impl View for ParamSet {
    type V = Seq<(Seq<char>, ValueModel)>;

    closed spec fn view(&self) -> Seq<(Seq<char>, ValueModel)> {
        self.entries.deep_view()
    }
}

impl Clone for ParamSet {
    fn clone(&self) -> (r: Self)
        ensures
            r@ == self@,
    {
        let mut entries: Vec<Param> = Vec::new();
        let mut i: usize = 0;
        proof {
            assert(entries.deep_view() =~= self.entries.deep_view().take(0));
        }
        while i < self.entries.len()
            invariant
                i <= self.entries.len(),
                entries.deep_view() == self.entries.deep_view().take(i as int),
            decreases self.entries.len() - i,
        {
            let ghost before = entries.deep_view();
            entries.push(self.entries[i].clone());
            proof {
                assert(before.len() == i as int);
                assert(entries@.len() == before.len() + 1);
                assert(entries@.len() == i + 1);
                assert forall|k: int| 0 <= k < i + 1 implies entries.deep_view()[k]
                    == self.entries.deep_view()[k] by {
                    assert(entries.deep_view()[k] == entries@[k].deep_view());
                    if k < i {
                        assert(entries@[k].deep_view() == before[k]);
                        assert(before[k] == self.entries.deep_view().take(i as int)[k]);
                    } else {
                        assert(entries@[k]@ == self.entries@[k]@);
                    }
                }
                assert(entries.deep_view() =~= self.entries.deep_view().take(i as int + 1));
            }
            i = i + 1;
        }
        proof {
            assert(self.entries.deep_view().take(i as int) =~= self.entries.deep_view());
        }
        ParamSet { entries }
    }
}

impl ParamSet {
    /// The well-formedness every set this library hands out has: names
    /// strictly ascending.
    pub open spec fn wf(&self) -> bool {
        sorted_params(self@)
    }

    /// An empty set.
    pub fn new() -> (r: ParamSet)
        ensures
            r@ == Seq::<(Seq<char>, ValueModel)>::empty(),
            r.wf(),
    {
        let r = ParamSet { entries: Vec::new() };
        proof {
            assert(r@ =~= Seq::<(Seq<char>, ValueModel)>::empty());
        }
        r
    }

    /// How many parameters are bound.
    pub fn len(&self) -> (n: usize)
        ensures
            n == self@.len(),
    {
        self.entries.len()
    }

    /// The parameter at position `i` in ascending name order.
    pub fn entry(&self, i: usize) -> (p: &Param)
        requires
            i < self@.len(),
        ensures
            p@ == self@[i as int],
    {
        &self.entries[i]
    }

    /// Binds `name` to `value`, overwriting any earlier binding of the same
    /// name and keeping the ascending order.
    pub fn insert(&mut self, name: String, value: Scalar)
        requires
            old(self).wf(),
        ensures
            final(self)@ == sorted_insert(old(self)@, name@, value@),
            final(self).wf(),
    {
        let mut i: usize = 0;
        while i < self.entries.len() && lt_str(&self.entries[i].name, &name)
            invariant
                self.wf(),
                self@ == old(self)@,
                i <= self@.len(),
                forall|k: int| 0 <= k < i ==> lex_lt(self@[k].0, name@),
            decreases self@.len() - i,
        {
            i = i + 1;
        }
        let replace = i < self.entries.len() && self.entries[i].name == name;
        proof {
            if i < self@.len() {
                lemma_lex_trichotomy(name@, self@[i as int].0);
            }
            lemma_sorted_insert_at(self@, name@, value@, i as int, replace);
        }
        if replace {
            self.entries.remove(i);
        }
        self.entries.insert(i, Param { name, value });
        proof {
            let s = old(self)@;
            let kept = if replace {
                s.remove(i as int)
            } else {
                s
            };
            assert(self@ =~= kept.insert(i as int, (name@, value@)));
            lemma_sorted_insert_sorted(s, name@, value@);
        }
    }

    /// Appends a parameter whose name comes strictly after every name
    /// already bound, keeping the ascending order.
    pub fn push_max(&mut self, p: Param)
        requires
            old(self).wf(),
            forall|t: int| 0 <= t < old(self)@.len() ==> lex_lt(old(self)@[t].0, p@.0),
        ensures
            final(self)@ == old(self)@.push(p@),
            final(self).wf(),
    {
        let ghost before = self@;
        self.entries.push(p);
        proof {
            assert(self@ =~= before.push(p@));
            assert forall|i: int, j: int| 0 <= i < j < self@.len() implies lex_lt(
                self@[i].0,
                self@[j].0,
            ) by {
                if j < before.len() {
                    assert(self@[i] == before[i] && self@[j] == before[j]);
                } else {
                    assert(self@[i] == before[i] && self@[j] == p@);
                }
            }
        }
    }

    /// The value bound to `name`, if any.
    pub fn get(&self, name: &str) -> (r: Option<&Scalar>)
        ensures
            match r {
                Some(v) => lookup(self@, name@) == Some(v@),
                None => lookup(self@, name@) is None,
            },
    {
        let key = String::from_str(name);
        let mut i: usize = 0;
        while i < self.entries.len()
            invariant
                i <= self@.len(),
                key@ == name@,
                forall|k: int| 0 <= k < i ==> self@[k].0 != name@,
            decreases self@.len() - i,
        {
            if self.entries[i].name == key {
                proof {
                    lemma_lookup_at(self@, name@, i as int);
                }
                return Some(&self.entries[i].value);
            }
            i = i + 1;
        }
        proof {
            lemma_lookup_none(self@, name@);
        }
        None
    }
}

/// Where the scan that `insert` makes stops, the spec insertion splits.
proof fn lemma_sorted_insert_at(
    s: Seq<(Seq<char>, ValueModel)>,
    k: Seq<char>,
    v: ValueModel,
    i: int,
    replace: bool,
)
    requires
        sorted_params(s),
        0 <= i <= s.len(),
        forall|j: int| 0 <= j < i ==> lex_lt(s[j].0, k),
        i < s.len() ==> (replace <==> k == s[i as int].0),
        i < s.len() && !replace ==> lex_lt(k, s[i as int].0),
        i == s.len() ==> !replace,
    ensures
        replace ==> sorted_insert(s, k, v) == s.remove(i).insert(i, (k, v)),
        !replace ==> sorted_insert(s, k, v) == s.insert(i, (k, v)),
    decreases s.len(),
{
    if s.len() == 0 {
        assert(sorted_insert(s, k, v) =~= s.insert(0, (k, v)));
    } else if i == 0 {
        lemma_lex_trichotomy(k, s[0].0);
        if replace {
            assert(sorted_insert(s, k, v) == seq![(k, v)] + s.skip(1));
            assert(sorted_insert(s, k, v) =~= s.remove(0).insert(0, (k, v)));
        } else {
            assert(sorted_insert(s, k, v) =~= s.insert(0, (k, v)));
        }
    } else {
        assert(lex_lt(s[0].0, k));
        lemma_lex_trichotomy(k, s[0].0);
        let t = s.skip(1);
        assert(sorted_params(t));
        assert(forall|j: int| 0 <= j < i - 1 ==> t[j] == s[j + 1] && lex_lt(s[j + 1].0, k));
        lemma_sorted_insert_at(t, k, v, i - 1, replace);
        if replace {
            assert(sorted_insert(s, k, v) =~= s.remove(i).insert(i, (k, v)));
        } else {
            assert(sorted_insert(s, k, v) =~= s.insert(i, (k, v)));
        }
    }
}

proof fn lemma_lookup_at(s: Seq<(Seq<char>, ValueModel)>, k: Seq<char>, i: int)
    requires
        0 <= i < s.len(),
        s[i].0 == k,
        forall|j: int| 0 <= j < i ==> s[j].0 != k,
    ensures
        lookup(s, k) == Some(s[i].1),
    decreases i,
{
    if i > 0 {
        let t = s.skip(1);
        assert(forall|j: int| 0 <= j < i - 1 ==> t[j] == s[j + 1]);
        lemma_lookup_at(t, k, i - 1);
    }
}

proof fn lemma_lookup_none(s: Seq<(Seq<char>, ValueModel)>, k: Seq<char>)
    requires
        forall|j: int| 0 <= j < s.len() ==> s[j].0 != k,
    ensures
        lookup(s, k) is None,
    decreases s.len(),
{
    if s.len() > 0 {
        let t = s.skip(1);
        assert(forall|j: int| 0 <= j < t.len() ==> t[j] == s[j + 1]);
        lemma_lookup_none(t, k);
    }
}

/// Whether `a` comes strictly before `b` in lexicographic order.
fn lt_str(a: &String, b: &String) -> (r: bool)
    ensures
        r == lex_lt(a@, b@),
{
    let s = a.as_str();
    let t = b.as_str();
    let ns = s.unicode_len();
    let nt = t.unicode_len();
    let mut i: usize = 0;
    proof {
        assert(s@.skip(0) =~= s@);
        assert(t@.skip(0) =~= t@);
    }
    loop
        invariant
            ns == s@.len(),
            nt == t@.len(),
            s@ == a@,
            t@ == b@,
            i <= ns,
            i <= nt,
            forall|k: int| 0 <= k < i ==> s@[k] == t@[k],
            lex_lt(a@, b@) == lex_lt(s@.skip(i as int), t@.skip(i as int)),
        ensures
            ({
                let r = lex_lt(a@, b@);
                (i == ns || i == nt || s@[i as int] != t@[i as int]) && (if i >= nt {
                    !r
                } else if i >= ns {
                    r
                } else if s@[i as int] != t@[i as int] {
                    r == ((s@[i as int] as u32) < (t@[i as int] as u32))
                } else {
                    true
                })
            }),
        decreases ns - i,
    {
        if i >= ns || i >= nt {
            break;
        }
        let cs = s.get_char(i);
        let ct = t.get_char(i);
        if cs != ct {
            break;
        }
        proof {
            let x = s@.skip(i as int);
            let y = t@.skip(i as int);
            assert(x[0] == y[0]);
            assert(x.skip(1) =~= s@.skip(i as int + 1));
            assert(y.skip(1) =~= t@.skip(i as int + 1));
        }
        i = i + 1;
    }
    if i < ns && i < nt {
        let cs = s.get_char(i);
        let ct = t.get_char(i);
        (cs as u32) < (ct as u32)
    } else {
        ns < nt
    }
}

} // verus!
