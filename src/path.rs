//! Relative paths as sequences of segments, ordered segment by segment.
use vstd::prelude::*;
use crate::text::{text_lt, text_less, text_chars, text_from_chars, lemma_text_lt_asymmetric, lemma_text_lt_transitive, lemma_text_lt_total};

verus! {

/// The segments of a path, as character sequences.
pub open spec fn path_model(p: Seq<String>) -> Seq<Seq<char>> {
    p.map_values(|s: String| s@)
}

/// Strict order on paths: lexicographic over segments, each segment in
/// character order (a directory's own path comes before everything under it).
pub open spec fn path_lt(a: Seq<Seq<char>>, b: Seq<Seq<char>>) -> bool
    decreases a.len(),
{
    if b.len() == 0 {
        false
    } else if a.len() == 0 {
        true
    } else if a[0] != b[0] {
        text_lt(a[0], b[0])
    } else {
        path_lt(a.drop_first(), b.drop_first())
    }
}

pub proof fn lemma_path_lt_irreflexive(a: Seq<Seq<char>>)
    ensures
        !path_lt(a, a),
    decreases a.len(),
{
    if a.len() > 0 {
        lemma_path_lt_irreflexive(a.drop_first());
    }
}

pub proof fn lemma_path_lt_asymmetric(a: Seq<Seq<char>>, b: Seq<Seq<char>>)
    ensures
        path_lt(a, b) ==> !path_lt(b, a),
    decreases a.len(),
{
    if a.len() > 0 && b.len() > 0 {
        if a[0] == b[0] {
            lemma_path_lt_asymmetric(a.drop_first(), b.drop_first());
        } else {
            lemma_text_lt_asymmetric(a[0], b[0]);
        }
    }
}

pub proof fn lemma_path_lt_transitive(a: Seq<Seq<char>>, b: Seq<Seq<char>>, c: Seq<Seq<char>>)
    requires
        path_lt(a, b),
        path_lt(b, c),
    ensures
        path_lt(a, c),
    decreases a.len(),
{
    if a.len() > 0 {
        if a[0] == b[0] && b[0] == c[0] {
            lemma_path_lt_transitive(a.drop_first(), b.drop_first(), c.drop_first());
        } else if a[0] != b[0] && b[0] != c[0] {
            lemma_text_lt_transitive(a[0], b[0], c[0]);
            if a[0] == c[0] {
                lemma_text_lt_asymmetric(a[0], b[0]);
            }
        }
    }
}

pub proof fn lemma_path_lt_total(a: Seq<Seq<char>>, b: Seq<Seq<char>>)
    ensures
        a == b || path_lt(a, b) || path_lt(b, a),
    decreases a.len(),
{
    if a.len() > 0 && b.len() > 0 {
        if a[0] == b[0] {
            lemma_path_lt_total(a.drop_first(), b.drop_first());
            if a.drop_first() == b.drop_first() {
                assert(a == seq![a[0]] + a.drop_first());
                assert(b == seq![b[0]] + b.drop_first());
            }
        } else {
            lemma_text_lt_total(a[0], b[0]);
        }
    } else if a.len() == 0 && b.len() == 0 {
        assert(a =~= b);
    }
}

/// Putting the same prefix before two paths keeps their order.
pub proof fn lemma_path_lt_prefix(q: Seq<Seq<char>>, a: Seq<Seq<char>>, b: Seq<Seq<char>>)
    ensures
        path_lt(q + a, q + b) == path_lt(a, b),
    decreases q.len(),
{
    if q.len() > 0 {
        assert((q + a).drop_first() =~= q.drop_first() + a);
        assert((q + b).drop_first() =~= q.drop_first() + b);
        lemma_path_lt_prefix(q.drop_first(), a, b);
    } else {
        assert(q + a =~= a);
        assert(q + b =~= b);
    }
}

/// Whether two paths are equal.
pub fn path_equal(a: &Vec<String>, b: &Vec<String>) -> (r: bool)
    ensures
        r == (path_model(a@) == path_model(b@)),
{
    if a.len() != b.len() {
        assert(path_model(a@).len() != path_model(b@).len());
        return false;
    }
    let mut i: usize = 0;
    while i < a.len()
        invariant
            a.len() == b.len(),
            i <= a.len(),
            forall|j: int| 0 <= j < i ==> a@[j]@ == b@[j]@,
        decreases a.len() - i,
    {
        if a[i] != b[i] {
            assert(path_model(a@)[i as int] != path_model(b@)[i as int]);
            return false;
        }
        i = i + 1;
    }
    assert(path_model(a@) =~= path_model(b@));
    true
}

/// Whether path `a` comes strictly before path `b`.
pub fn path_less(a: &Vec<String>, b: &Vec<String>) -> (r: bool)
    ensures
        r == path_lt(path_model(a@), path_model(b@)),
{
    let ghost pa = path_model(a@);
    let ghost pb = path_model(b@);
    let mut i: usize = 0;
    assert(pa.subrange(0, pa.len() as int) =~= pa);
    assert(pb.subrange(0, pb.len() as int) =~= pb);
    while i < a.len() && i < b.len() && a[i] == b[i]
        invariant
            i <= a.len(),
            i <= b.len(),
            pa == path_model(a@),
            pb == path_model(b@),
            path_lt(pa, pb) == path_lt(pa.subrange(i as int, pa.len() as int), pb.subrange(i as int, pb.len() as int)),
        decreases a.len() - i,
    {
        assert(pa.subrange(i as int, pa.len() as int).drop_first() =~= pa.subrange(i + 1, pa.len() as int));
        assert(pb.subrange(i as int, pb.len() as int).drop_first() =~= pb.subrange(i + 1, pb.len() as int));
        i = i + 1;
    }
    if i == b.len() {
        false
    } else if i == a.len() {
        true
    } else {
        text_less(a[i].as_str(), b[i].as_str())
    }
}

/// A segment is kept unless it is empty or the current-directory marker.
pub open spec fn keep_segment(c: Seq<char>) -> Seq<Seq<char>> {
    if c.len() == 0 || c == seq!['.'] {
        Seq::empty()
    } else {
        seq![c]
    }
}

/// The segments of `s` split at '/', where `cur` is the segment being read.
pub open spec fn segments_from(s: Seq<char>, cur: Seq<char>) -> Seq<Seq<char>>
    decreases s.len(),
{
    if s.len() == 0 {
        keep_segment(cur)
    } else if s[0] == '/' {
        keep_segment(cur) + segments_from(s.drop_first(), Seq::empty())
    } else {
        segments_from(s.drop_first(), cur.push(s[0]))
    }
}

/// The relative path of an absolute path: its segments after the root, with
/// empty and "." segments dropped.
pub open spec fn clean_segments(s: Seq<char>) -> Seq<Seq<char>> {
    segments_from(s, Seq::empty())
}

/// The segments of an absolute path (one that starts with '/'), relative to
/// the root; `None` for a path that is not absolute.
pub fn clean_path(path: &str) -> (r: Option<Vec<String>>)
    ensures
        match r {
            Some(p) => path@.len() > 0 && path@[0] == '/' && path_model(p@) == clean_segments(path@),
            None => !(path@.len() > 0 && path@[0] == '/'),
        },
{
    let chars = text_chars(path);
    if chars.len() == 0 || chars[0] != '/' {
        return None;
    }
    let mut out: Vec<String> = Vec::new();
    let mut cur: Vec<char> = Vec::new();
    let mut i: usize = 0;
    assert(chars@.subrange(0, chars@.len() as int) =~= chars@);
    assert(path_model(out@) =~= Seq::<Seq<char>>::empty());
    assert(cur@ =~= Seq::<char>::empty());
    assert(Seq::<Seq<char>>::empty() + clean_segments(path@) =~= clean_segments(path@));
    while i < chars.len()
        invariant
            chars@ == path@,
            i <= chars.len(),
            path_model(out@) + segments_from(chars@.subrange(i as int, chars@.len() as int), cur@) == clean_segments(path@),
        decreases chars.len() - i,
    {
        let ghost rest = chars@.subrange(i as int, chars@.len() as int);
        assert(rest.drop_first() =~= chars@.subrange(i + 1, chars@.len() as int));
        let c = chars[i];
        if c == '/' {
            let ghost before = path_model(out@);
            if cur.len() > 0 && !(cur.len() == 1 && cur[0] == '.') {
                let seg = text_from_chars(&cur);
                out.push(seg);
                assert(keep_segment(cur@) =~= seq![cur@]);
            } else {
                assert(keep_segment(cur@) =~= Seq::empty()) by {
                    if cur.len() == 1 {
                        assert(cur@ =~= seq!['.']);
                    }
                }
            }
            assert(path_model(out@) =~= before + keep_segment(cur@));
            assert(before + keep_segment(cur@) + segments_from(rest.drop_first(), Seq::empty()) =~= before + (keep_segment(cur@) + segments_from(rest.drop_first(), Seq::empty())));
            cur = Vec::new();
            assert(cur@ =~= Seq::<char>::empty());
        } else {
            cur.push(c);
        }
        i = i + 1;
    }
    let ghost before = path_model(out@);
    assert(chars@.subrange(i as int, chars@.len() as int) =~= Seq::<char>::empty());
    if cur.len() > 0 && !(cur.len() == 1 && cur[0] == '.') {
        let seg = text_from_chars(&cur);
        out.push(seg);
        assert(keep_segment(cur@) =~= seq![cur@]);
    } else {
        assert(keep_segment(cur@) =~= Seq::empty()) by {
            if cur.len() == 1 {
                assert(cur@ =~= seq!['.']);
            }
        }
    }
    assert(path_model(out@) =~= before + keep_segment(cur@));
    Some(out)
}

} // verus!
