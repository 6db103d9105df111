//! Splitting a path-like string into its non-empty `/`-separated segments,
//! and telling placeholder segments (`{name}`) from literal ones.

use vstd::prelude::*;

verus! {

/// Length of the longest slash-free prefix of `s`.
pub open spec fn seg_len(s: Seq<char>) -> nat
    decreases s.len(),
{
    if s.len() == 0 || s[0] == '/' {
        0
    } else {
        (1 + seg_len(s.skip(1))) as nat
    }
}

pub proof fn lemma_seg_len_le(s: Seq<char>)
    ensures
        seg_len(s) <= s.len(),
    decreases s.len(),
{
    if s.len() > 0 && s[0] != '/' {
        lemma_seg_len_le(s.skip(1));
    }
}

/// `seg_len(s)` is exactly the position of the first slash (or the length of
/// `s` when there is none).
pub proof fn lemma_seg_len_at(s: Seq<char>, k: int)
    requires
        0 <= k <= s.len(),
        forall|i: int| 0 <= i < k ==> s[i] != '/',
        k == s.len() || s[k] == '/',
    ensures
        seg_len(s) == k,
    decreases s.len(),
{
    if s.len() > 0 && s[0] != '/' {
        let t = s.skip(1);
        assert(forall|i: int| 0 <= i < k - 1 ==> t[i] == s[i + 1] && s[i + 1] != '/');
        lemma_seg_len_at(t, k - 1);
    }
}

/// The ordered non-empty segments of `s`, split on `/`. Leading, trailing and
/// repeated slashes are insignificant.
pub open spec fn split_segments(s: Seq<char>) -> Seq<Seq<char>>
    decreases s.len(),
    via split_segments_decreases
{
    if s.len() == 0 {
        Seq::empty()
    } else if s[0] == '/' {
        split_segments(s.skip(1))
    } else {
        seq![s.take(seg_len(s) as int)] + split_segments(s.skip(seg_len(s) as int))
    }
}

#[via_fn]
proof fn split_segments_decreases(s: Seq<char>) {
    if s.len() > 0 && s[0] != '/' {
        lemma_seg_len_le(s);
        assert(seg_len(s) >= 1);
    }
}

/// Every segment the split yields is non-empty.
pub proof fn lemma_split_segments_nonempty(s: Seq<char>)
    ensures
        forall|i: int| 0 <= i < split_segments(s).len() ==> split_segments(s)[i].len() > 0,
    decreases s.len(),
{
    if s.len() == 0 {
        assert(split_segments(s).len() == 0);
    } else if s[0] == '/' {
        lemma_split_segments_nonempty(s.skip(1));
        assert(split_segments(s) == split_segments(s.skip(1)));
    } else {
        lemma_seg_len_le(s);
        lemma_split_segments_nonempty(s.skip(seg_len(s) as int));
        assert(seg_len(s) >= 1);
        let head = seq![s.take(seg_len(s) as int)];
        let tail = split_segments(s.skip(seg_len(s) as int));
        assert(split_segments(s) == head + tail);
        assert forall|i: int| 0 <= i < split_segments(s).len() implies split_segments(s)[i].len()
            > 0 by {
            if i == 0 {
                assert((head + tail)[0] == s.take(seg_len(s) as int));
                assert(s.take(seg_len(s) as int).len() == seg_len(s));
            } else {
                assert((head + tail)[i] == tail[i - 1]);
            }
        }
    }
}

/// A pattern segment is a placeholder when its very first character is `{`
/// and its very last is `}`.
pub open spec fn is_placeholder(seg: Seq<char>) -> bool {
    seg.len() >= 2 && seg[0] == '{' && seg[seg.len() - 1] == '}'
}

/// The parameter name of a placeholder segment: the text between the braces.
pub open spec fn placeholder_name(seg: Seq<char>) -> Seq<char> {
    seg.subrange(1, seg.len() - 1)
}

/// Splits `s` on `/`, dropping empty segments, so that segment indices of a
/// candidate and a pattern line up.
pub fn split(s: &str) -> (segs: Vec<String>)
    ensures
        segs.deep_view() == split_segments(s@),
{
    let n = s.unicode_len();
    let mut segs: Vec<String> = Vec::new();
    let mut i: usize = 0;
    proof {
        assert(s@.skip(0) =~= s@);
        assert(segs.deep_view() =~~= Seq::<Seq<char>>::empty());
        assert(segs.deep_view() + split_segments(s@) =~~= split_segments(s@));
    }
    while i < n
        invariant
            n == s@.len(),
            i <= n,
            split_segments(s@) == segs.deep_view() + split_segments(s@.skip(i as int)),
        decreases n - i,
    {
        let c = s.get_char(i);
        if c == '/' {
            proof {
                let rest = s@.skip(i as int);
                assert(rest[0] == '/');
                assert(rest.skip(1) =~= s@.skip(i as int + 1));
            }
            i = i + 1;
        } else {
            let start = i;
            let mut j = i + 1;
            while j < n && s.get_char(j) != '/'
                invariant
                    n == s@.len(),
                    start < j <= n,
                    forall|k: int| start <= k < j ==> s@[k] != '/',
                decreases n - j,
            {
                j = j + 1;
            }
            let seg = String::from_str(s.substring_char(start, j));
            let ghost old_dv = segs.deep_view();
            segs.push(seg);
            proof {
                let rest = s@.skip(start as int);
                lemma_seg_len_at(rest, j - start);
                assert(rest.take(j - start) =~= s@.subrange(start as int, j as int));
                assert(rest.skip(j - start) =~= s@.skip(j as int));
                assert(segs.deep_view() =~~= old_dv + seq![seg@]);
                assert(segs.deep_view() + split_segments(s@.skip(j as int)) =~~= old_dv
                    + split_segments(s@.skip(start as int)));
            }
            i = j;
        }
    }
    proof {
        assert(s@.skip(n as int) =~= Seq::<char>::empty());
        assert(segs.deep_view() + split_segments(s@.skip(n as int)) =~~= segs.deep_view());
    }
    segs
}

} // verus!
