//! Scalar values and the coercion rule table.
//!
//! Each placeholder's raw text is coerced to exactly one scalar, by an
//! explicitly ordered, total rule table: base-10 signed 64-bit integer first;
//! then, when the text contains a `.`, a decimal number; then the booleans
//! `true` and `false`; else the raw text itself. The rules never fail: text
//! that looks numeric but does not parse falls through to [`Scalar::Text`].

use vstd::prelude::*;

verus! {

/// The value bound to one placeholder, as the contracts see it.
pub enum ValueModel {
    Integer(int),
    /// The source text of a decimal number, kept exactly as written.
    Float(Seq<char>),
    Boolean(bool),
    Text(Seq<char>),
}

/// A typed scalar extracted from one candidate segment.
///
/// A decimal number keeps its source text: the component never rounds it to a
/// binary floating-point value, so callers decide how to read it.
#[derive(Debug, PartialEq)]
pub enum Scalar {
    Integer(i64),
    Float(String),
    Boolean(bool),
    Text(String),
}

impl View for Scalar {
    type V = ValueModel;

    open spec fn view(&self) -> ValueModel {
        match self {
            Scalar::Integer(n) => ValueModel::Integer(*n as int),
            Scalar::Float(t) => ValueModel::Float(t@),
            Scalar::Boolean(b) => ValueModel::Boolean(*b),
            Scalar::Text(t) => ValueModel::Text(t@),
        }
    }
}

impl DeepView for Scalar {
    type V = ValueModel;

    open spec fn deep_view(&self) -> ValueModel {
        self@
    }
}

impl Clone for Scalar {
    fn clone(&self) -> (r: Self)
        ensures
            r@ == self@,
    {
        match self {
            Scalar::Integer(n) => Scalar::Integer(*n),
            Scalar::Float(t) => Scalar::Float(t.clone()),
            Scalar::Boolean(b) => Scalar::Boolean(*b),
            Scalar::Text(t) => Scalar::Text(t.clone()),
        }
    }
}

/// The kind a target shape declares for a field or a tuple position.
#[derive(Clone, Copy, Debug, PartialEq, Eq, Structural)]
pub enum ScalarKind {
    Integer,
    Float,
    Boolean,
    Text,
}

/// The kind a bound value actually has.
pub open spec fn kind_of(v: ValueModel) -> ScalarKind {
    match v {
        ValueModel::Integer(_) => ScalarKind::Integer,
        ValueModel::Float(_) => ScalarKind::Float,
        ValueModel::Boolean(_) => ScalarKind::Boolean,
        ValueModel::Text(_) => ScalarKind::Text,
    }
}

impl Scalar {
    /// The kind of this scalar.
    pub fn kind(&self) -> (k: ScalarKind)
        ensures
            k == kind_of(self@),
    {
        match self {
            Scalar::Integer(_) => ScalarKind::Integer,
            Scalar::Float(_) => ScalarKind::Float,
            Scalar::Boolean(_) => ScalarKind::Boolean,
            Scalar::Text(_) => ScalarKind::Text,
        }
    }
}

pub open spec fn is_digit(c: char) -> bool {
    '0' <= c && c <= '9'
}

pub open spec fn all_digits(s: Seq<char>) -> bool {
    forall|i: int| 0 <= i < s.len() ==> is_digit(s[i])
}

pub open spec fn digit_val(c: char) -> int {
    c as int - '0' as int
}

/// The base-10 value of a digit string.
pub open spec fn digits_val(s: Seq<char>) -> int
    decreases s.len(),
{
    if s.len() == 0 {
        0
    } else {
        digits_val(s.drop_last()) * 10 + digit_val(s.last())
    }
}

pub proof fn lemma_digits_val_nonneg(s: Seq<char>)
    requires
        all_digits(s),
    ensures
        digits_val(s) >= 0,
    decreases s.len(),
{
    if s.len() > 0 {
        assert(all_digits(s.drop_last()));
        lemma_digits_val_nonneg(s.drop_last());
    }
}

/// A digit string is worth at least any of its prefixes.
pub proof fn lemma_digits_val_prefix(s: Seq<char>, i: int)
    requires
        all_digits(s),
        0 <= i <= s.len(),
    ensures
        digits_val(s.take(i)) <= digits_val(s),
    decreases s.len(),
{
    if i == s.len() {
        assert(s.take(i) =~= s);
    } else {
        assert(all_digits(s.drop_last()));
        assert(s.take(i) =~= s.drop_last().take(i));
        lemma_digits_val_prefix(s.drop_last(), i);
        lemma_digits_val_nonneg(s.drop_last());
    }
}

/// The digit part of an integer literal: what follows the optional leading `-`.
pub open spec fn int_digits(s: Seq<char>) -> Seq<char> {
    if s.len() > 0 && s[0] == '-' {
        s.skip(1)
    } else {
        s
    }
}

pub open spec fn int_negative(s: Seq<char>) -> bool {
    s.len() > 0 && s[0] == '-'
}

/// The value an integer literal denotes.
pub open spec fn int_value(s: Seq<char>) -> int {
    if int_negative(s) {
        -digits_val(int_digits(s))
    } else {
        digits_val(int_digits(s))
    }
}

/// The integer rule: an optional leading `-`, then one or more base-10
/// digits, denoting a value a signed 64-bit integer can hold.
pub open spec fn int_text(s: Seq<char>) -> bool {
    &&& int_digits(s).len() >= 1
    &&& all_digits(int_digits(s))
    &&& i64::MIN <= int_value(s) <= i64::MAX
}

/// Parses `s` under the integer rule.
pub fn parse_int(s: &str) -> (r: Option<i64>)
    ensures
        r is Some <==> int_text(s@),
        match r {
            Some(n) => n as int == int_value(s@),
            None => true,
        },
{
    let n = s.unicode_len();
    if n == 0 {
        return None;
    }
    let neg = s.get_char(0) == '-';
    let start: usize = if neg {
        1
    } else {
        0
    };
    if start == n {
        // a bare "-" has no digits
        assert(int_digits(s@).len() == 0);
        return None;
    }
    let ghost digits = int_digits(s@);
    proof {
        assert(digits =~= s@.skip(start as int));
    }
    let mut i = start;
    let mut acc: u128 = 0;
    proof {
        assert(s@.subrange(start as int, start as int) =~= Seq::<char>::empty());
    }
    while i < n
        invariant
            n == s@.len(),
            start <= i <= n,
            start < n,
            start <= 1,
            neg == int_negative(s@),
            digits == int_digits(s@),
            digits == s@.skip(start as int),
            forall|k: int| start <= k < i ==> is_digit(s@[k]),
            acc == digits_val(s@.subrange(start as int, i as int)),
            acc <= 0x8000_0000_0000_0000,
        decreases n - i,
    {
        let c = s.get_char(i);
        let cu = c as u32;
        proof {
            assert(c == s@[i as int]);
            assert(is_digit(c) == (48 <= cu && cu <= 57));
            assert(is_digit(c) ==> digit_val(c) == cu - 48);
        }
        if !(48 <= cu && cu <= 57) {
            proof {
                assert(digits[i - start] == s@[i as int]);
                assert(!is_digit(digits[i - start]));
            }
            return None;
        }
        let d = cu - 48;
        acc = acc * 10 + (d as u128);
        proof {
            let pre = s@.subrange(start as int, i as int);
            let cur = s@.subrange(start as int, i as int + 1);
            assert(cur.drop_last() =~= pre);
            assert(cur.last() == s@[i as int]);
        }
        if acc > 0x8000_0000_0000_0000 {
            proof {
                if all_digits(digits) {
                    let cur = s@.subrange(start as int, i as int + 1);
                    assert(cur =~= digits.take(i + 1 - start));
                    lemma_digits_val_prefix(digits, i + 1 - start);
                }
            }
            return None;
        }
        i = i + 1;
    }
    proof {
        assert(s@.subrange(start as int, n as int) =~= digits);
        assert(forall|k: int| 0 <= k < digits.len() ==> digits[k] == s@[k + start]);
    }
    if neg {
        if acc == 0x8000_0000_0000_0000 {
            Some(i64::MIN)
        } else {
            Some(-(acc as i64))
        }
    } else {
        if acc > 0x7fff_ffff_ffff_ffff {
            None
        } else {
            Some(acc as i64)
        }
    }
}

/// Index of the first `.` in `s`, or `s.len()` when there is none.
pub open spec fn dot_pos(s: Seq<char>) -> nat
    decreases s.len(),
{
    if s.len() == 0 {
        0
    } else if s[0] == '.' {
        0
    } else {
        (1 + dot_pos(s.skip(1))) as nat
    }
}

pub proof fn lemma_dot_pos_at(s: Seq<char>, k: int)
    requires
        0 <= k <= s.len(),
        forall|i: int| 0 <= i < k ==> s[i] != '.',
        k == s.len() || s[k] == '.',
    ensures
        dot_pos(s) == k,
    decreases s.len(),
{
    if s.len() > 0 && s[0] != '.' {
        let t = s.skip(1);
        assert(forall|i: int| 0 <= i < k - 1 ==> t[i] == s[i + 1] && s[i + 1] != '.');
        lemma_dot_pos_at(t, k - 1);
    }
}

pub open spec fn has_dot(s: Seq<char>) -> bool {
    dot_pos(s) < s.len()
}

/// Index of the first exponent mark (`e` or `E`) in `s`, or `s.len()`.
pub open spec fn exp_mark_pos(s: Seq<char>) -> nat
    decreases s.len(),
{
    if s.len() == 0 {
        0
    } else if s[0] == 'e' || s[0] == 'E' {
        0
    } else {
        (1 + exp_mark_pos(s.skip(1))) as nat
    }
}

pub proof fn lemma_exp_mark_pos_at(s: Seq<char>, k: int)
    requires
        0 <= k <= s.len(),
        forall|i: int| 0 <= i < k ==> s[i] != 'e' && s[i] != 'E',
        k == s.len() || s[k] == 'e' || s[k] == 'E',
    ensures
        exp_mark_pos(s) == k,
    decreases s.len(),
{
    if s.len() > 0 && !(s[0] == 'e' || s[0] == 'E') {
        let t = s.skip(1);
        assert(forall|i: int| 0 <= i < k - 1 ==> t[i] == s[i + 1]);
        lemma_exp_mark_pos_at(t, k - 1);
    }
}

/// `s` without its optional leading sign.
pub open spec fn sign_stripped(s: Seq<char>) -> Seq<char> {
    if s.len() > 0 && (s[0] == '+' || s[0] == '-') {
        s.skip(1)
    } else {
        s
    }
}

/// A mantissa: digits with at most one `.` among them, and at least one
/// digit in all (`12`, `1.2`, `.5`, `5.`).
pub open spec fn mantissa_text(m: Seq<char>) -> bool {
    let d = dot_pos(m) as int;
    if d == m.len() {
        m.len() >= 1 && all_digits(m)
    } else {
        m.len() >= 2 && all_digits(m.take(d)) && all_digits(m.skip(d + 1))
    }
}

/// An exponent part: `e` or `E`, an optional sign, then one or more digits.
pub open spec fn exponent_text(x: Seq<char>) -> bool {
    &&& x.len() >= 2
    &&& (x[0] == 'e' || x[0] == 'E')
    &&& {
        let t = sign_stripped(x.skip(1));
        t.len() >= 1 && all_digits(t)
    }
}

/// An unsigned decimal number: a mantissa, then an optional exponent part.
pub open spec fn number_text(t: Seq<char>) -> bool {
    let e = exp_mark_pos(t) as int;
    if e == t.len() {
        mantissa_text(t)
    } else {
        mantissa_text(t.take(e)) && exponent_text(t.skip(e))
    }
}

/// The decimal-number rule: an optional sign, a mantissa, an optional
/// exponent. The coercion applies it only to text that contains a `.`.
pub open spec fn float_text(s: Seq<char>) -> bool {
    number_text(sign_stripped(s))
}

/// Whether every character of `s` in `[from, to)` is a digit.
fn all_digits_range(s: &str, from: usize, to: usize) -> (b: bool)
    requires
        from <= to <= s@.len(),
    ensures
        b == all_digits(s@.subrange(from as int, to as int)),
{
    let ghost sub = s@.subrange(from as int, to as int);
    let mut i = from;
    while i < to
        invariant
            from <= i <= to <= s@.len(),
            sub == s@.subrange(from as int, to as int),
            forall|k: int| 0 <= k < i - from ==> is_digit(sub[k]),
        decreases to - i,
    {
        let c = s.get_char(i);
        let cu = c as u32;
        proof {
            assert(sub[i - from] == s@[i as int]);
            assert(is_digit(c) == (48 <= cu && cu <= 57));
        }
        if !(48 <= cu && cu <= 57) {
            return false;
        }
        i = i + 1;
    }
    true
}

/// Whether `s@.subrange(from, to)` is a mantissa.
fn mantissa_range(s: &str, from: usize, to: usize) -> (b: bool)
    requires
        from <= to <= s@.len(),
    ensures
        b == mantissa_text(s@.subrange(from as int, to as int)),
{
    let ghost m = s@.subrange(from as int, to as int);
    // find the first '.' in [from, to)
    let mut k = from;
    while k < to && s.get_char(k) != '.'
        invariant
            from <= k <= to <= s@.len(),
            forall|j: int| from <= j < k ==> s@[j] != '.',
        decreases to - k,
    {
        k = k + 1;
    }
    proof {
        assert(forall|j: int| 0 <= j < k - from ==> m[j] == s@[j + from] && s@[j + from] != '.');
        if k < to {
            assert(m[k - from] == s@[k as int]);
        }
        lemma_dot_pos_at(m, k - from);
    }
    if k == to {
        if to - from < 1 {
            return false;
        }
        all_digits_range(s, from, to)
    } else {
        if to - from < 2 {
            return false;
        }
        let before = all_digits_range(s, from, k);
        let after = all_digits_range(s, k + 1, to);
        proof {
            assert(m.take(k - from) =~= s@.subrange(from as int, k as int));
            assert(m.skip(k - from + 1) =~= s@.subrange(k as int + 1, to as int));
        }
        before && after
    }
}

/// Whether `s` is a decimal number under the rule table's grammar.
pub fn is_float(s: &str) -> (b: bool)
    ensures
        b == float_text(s@),
{
    let n = s.unicode_len();
    let mut start: usize = 0;
    if n > 0 {
        let c = s.get_char(0);
        if c == '+' || c == '-' {
            start = 1;
        }
    }
    let ghost t = sign_stripped(s@);
    proof {
        assert(t =~= s@.skip(start as int));
    }
    // find the first exponent mark in [start, n)
    let mut j = start;
    while j < n && s.get_char(j) != 'e' && s.get_char(j) != 'E'
        invariant
            start <= j <= n,
            n == s@.len(),
            forall|k: int| start <= k < j ==> s@[k] != 'e' && s@[k] != 'E',
        decreases n - j,
    {
        j = j + 1;
    }
    proof {
        assert(forall|k: int| 0 <= k < j - start ==> t[k] == s@[k + start]);
        if j < n {
            assert(t[j - start] == s@[j as int]);
        }
        lemma_exp_mark_pos_at(t, j - start);
    }
    let mant = mantissa_range(s, start, j);
    proof {
        assert(t.take(j - start) =~= s@.subrange(start as int, j as int));
    }
    if j == n {
        proof {
            assert(t =~= s@.subrange(start as int, n as int));
        }
        mant
    } else {
        // the exponent part t.skip(j - start): its mark, an optional sign,
        // then at least one digit
        let ghost x = t.skip(j - start);
        if n - j < 2 {
            return false;
        }
        let mut m = j + 1;
        let c = s.get_char(m);
        if c == '+' || c == '-' {
            m = m + 1;
        }
        proof {
            assert(x[0] == s@[j as int]);
            assert(x.skip(1) =~= s@.skip(j as int + 1));
            assert(sign_stripped(x.skip(1)) =~= s@.skip(m as int));
            assert(s@.skip(m as int) =~= s@.subrange(m as int, n as int));
        }
        if m == n {
            return false;
        }
        let digits_ok = all_digits_range(s, m, n);
        mant && digits_ok
    }
}

/// One coercion, by the rule table, first match wins: integer; decimal
/// number, asked only of text that contains a `.`; boolean; raw text.
pub open spec fn coerce(s: Seq<char>) -> ValueModel {
    if int_text(s) {
        ValueModel::Integer(int_value(s))
    } else if has_dot(s) && float_text(s) {
        ValueModel::Float(s)
    } else if s == seq!['t', 'r', 'u', 'e'] {
        ValueModel::Boolean(true)
    } else if s == seq!['f', 'a', 'l', 's', 'e'] {
        ValueModel::Boolean(false)
    } else {
        ValueModel::Text(s)
    }
}

/// Whether `s` contains a `.`.
fn contains_dot(s: &str) -> (b: bool)
    ensures
        b == has_dot(s@),
{
    let n = s.unicode_len();
    let mut i: usize = 0;
    while i < n && s.get_char(i) != '.'
        invariant
            i <= n,
            n == s@.len(),
            forall|k: int| 0 <= k < i ==> s@[k] != '.',
        decreases n - i,
    {
        i = i + 1;
    }
    proof {
        lemma_dot_pos_at(s@, i as int);
    }
    i < n
}

/// Coerces one candidate segment's raw text to a scalar. Total: text that
/// fails every other rule becomes [`Scalar::Text`].
pub fn coerce_segment(s: &str) -> (v: Scalar)
    ensures
        v@ == coerce(s@),
{
    if let Some(n) = parse_int(s) {
        return Scalar::Integer(n);
    }
    if contains_dot(s) {
        if is_float(s) {
            return Scalar::Float(String::from_str(s));
        }
    }
    let owned = String::from_str(s);
    proof {
        reveal_strlit("true");
        reveal_strlit("false");
        assert("true"@ =~= seq!['t', 'r', 'u', 'e']);
        assert("false"@ =~= seq!['f', 'a', 'l', 's', 'e']);
    }
    if owned == String::from_str("true") {
        return Scalar::Boolean(true);
    }
    if owned == String::from_str("false") {
        return Scalar::Boolean(false);
    }
    Scalar::Text(owned)
}

} // verus!
