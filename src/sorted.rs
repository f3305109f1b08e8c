//! Sequences of (path, value) pairs in strictly increasing path order.
use vstd::prelude::*;
use crate::assoc::{keys_unique, to_map, lemma_to_map_facts, lemma_to_map_keys};
use crate::path::{path_lt, lemma_path_lt_irreflexive, lemma_path_lt_transitive};

verus! {

pub type PathModel = Seq<Seq<char>>;

pub open spec fn sorted_keys<V>(s: Seq<(PathModel, V)>) -> bool {
    forall|a: int, b: int| 0 <= a < b < s.len() ==> path_lt(#[trigger] s[a].0, #[trigger] s[b].0)
}

/// The value under `q` in the map a list describes, if any.
pub open spec fn lookup<V>(s: Seq<(PathModel, V)>, q: PathModel) -> Option<V> {
    if to_map(s).contains_key(q) {
        Some(to_map(s)[q])
    } else {
        None
    }
}

pub proof fn lemma_sorted_unique<V>(s: Seq<(PathModel, V)>)
    requires
        sorted_keys(s),
    ensures
        keys_unique(s),
{
    assert forall|a: int, b: int| 0 <= a < s.len() && 0 <= b < s.len() && a != b implies s[a].0 != s[b].0 by {
        if a < b {
            assert(path_lt(s[a].0, s[b].0));
        } else {
            assert(path_lt(s[b].0, s[a].0));
        }
        lemma_path_lt_irreflexive(s[a].0);
    }
}

/// The value at index `i` is what the list gives for its key.
pub proof fn lemma_lookup_at<V>(s: Seq<(PathModel, V)>, i: int)
    requires
        sorted_keys(s),
        0 <= i < s.len(),
    ensures
        lookup(s, s[i].0) == Some(s[i].1),
{
    lemma_sorted_unique(s);
    lemma_to_map_facts(s);
}

/// A key strictly between the first `j` keys and the rest is absent.
pub proof fn lemma_lookup_absent<V>(s: Seq<(PathModel, V)>, j: int, q: PathModel)
    requires
        sorted_keys(s),
        0 <= j <= s.len(),
        forall|b: int| 0 <= b < j ==> path_lt(#[trigger] s[b].0, q),
        j < s.len() ==> path_lt(q, s[j].0),
    ensures
        lookup(s, q) is None,
{
    lemma_to_map_keys(s);
    if to_map(s).contains_key(q) {
        let b = choose|b: int| 0 <= b < s.len() && s[b].0 == q;
        if b < j {
            assert(path_lt(s[b].0, q));
            lemma_path_lt_irreflexive(q);
        } else if b == j {
            lemma_path_lt_irreflexive(q);
        } else {
            assert(path_lt(s[j].0, s[b].0));
            lemma_path_lt_transitive(q, s[j].0, s[b].0);
            lemma_path_lt_irreflexive(q);
        }
    }
}

/// Appending a pair whose key is above every key keeps the list sorted and
/// adds that key to its map.
pub proof fn lemma_sorted_push<V>(s: Seq<(PathModel, V)>, k: PathModel, v: V)
    requires
        sorted_keys(s),
        forall|a: int| 0 <= a < s.len() ==> path_lt(#[trigger] s[a].0, k),
    ensures
        sorted_keys(s.push((k, v))),
        to_map(s.push((k, v))) == to_map(s).insert(k, v),
        forall|q: PathModel| #[trigger] lookup(s.push((k, v)), q) == if q == k { Some(v) } else { lookup(s, q) },
{
    let t = s.push((k, v));
    assert(t.drop_last() =~= s);
    assert forall|a: int, b: int| 0 <= a < b < t.len() implies path_lt(#[trigger] t[a].0, #[trigger] t[b].0) by {
        if b < s.len() {
            assert(t[a] == s[a] && t[b] == s[b]);
        } else {
            assert(t[a] == s[a]);
        }
    }
}

/// A key lies before the current heads of a two-way merge.
pub open spec fn before_heads<A, B>(s: Seq<(PathModel, A)>, i: int, f: Seq<(PathModel, B)>, j: int, q: PathModel) -> bool {
    &&& (i < s.len() ==> path_lt(q, s[i].0))
    &&& (j < f.len() ==> path_lt(q, f[j].0))
}

/// The state of a merge walk over two sorted lists: everything consumed on one
/// side lies below the head of the other.
pub open spec fn merge_inv<A, B>(s: Seq<(PathModel, A)>, i: int, f: Seq<(PathModel, B)>, j: int) -> bool {
    &&& sorted_keys(s)
    &&& sorted_keys(f)
    &&& 0 <= i <= s.len()
    &&& 0 <= j <= f.len()
    &&& forall|a: int| 0 <= a < i && j < f.len() ==> path_lt(#[trigger] s[a].0, f[j].0)
    &&& forall|b: int| 0 <= b < j && i < s.len() ==> path_lt(#[trigger] f[b].0, s[i].0)
}

pub proof fn lemma_index_of<V>(s: Seq<(PathModel, V)>, q: PathModel) -> (a: int)
    requires
        lookup(s, q) is Some,
    ensures
        0 <= a < s.len(),
        s[a].0 == q,
{
    lemma_to_map_keys(s);
    choose|a: int| 0 <= a < s.len() && s[a].0 == q
}

/// Below the head `s[i]` of a sorted list lie exactly the keys of indices under `i`.
pub proof fn lemma_below_head<V>(s: Seq<(PathModel, V)>, i: int, a: int)
    requires
        sorted_keys(s),
        0 <= i < s.len(),
        0 <= a < s.len(),
    ensures
        path_lt(s[a].0, s[i].0) <==> a < i,
{
    if a >= i && path_lt(s[a].0, s[i].0) {
        if a == i {
            lemma_path_lt_irreflexive(s[i].0);
        } else {
            assert(path_lt(s[i].0, s[a].0));
            crate::path::lemma_path_lt_asymmetric(s[i].0, s[a].0);
        }
    }
}

/// Taking the head of the left list alone, when it is below the right head.
pub proof fn lemma_advance_left<A, B>(s: Seq<(PathModel, A)>, i: int, f: Seq<(PathModel, B)>, j: int)
    requires
        merge_inv(s, i, f, j),
        i < s.len(),
        j < f.len() ==> path_lt(s[i].0, f[j].0),
    ensures
        merge_inv(s, i + 1, f, j),
        !before_heads(s, i, f, j, s[i].0),
        lookup(s, s[i].0) == Some(s[i].1),
        lookup(f, s[i].0) is None,
        forall|q: PathModel| (lookup(s, q) is Some || lookup(f, q) is Some) ==>
            (#[trigger] before_heads(s, i + 1, f, j, q) == (before_heads(s, i, f, j, q) || q == s[i].0)),
{
    let p = s[i].0;
    lemma_path_lt_irreflexive(p);
    lemma_lookup_at(s, i);
    assert forall|b: int| 0 <= b < j implies path_lt(#[trigger] f[b].0, p) by {}
    lemma_lookup_absent(f, j, p);
    assert forall|b: int| 0 <= b < j && i + 1 < s.len() implies path_lt(#[trigger] f[b].0, s[i + 1].0) by {
        assert(path_lt(s[i].0, s[i + 1].0));
        lemma_path_lt_transitive(f[b].0, s[i].0, s[i + 1].0);
    }
    assert forall|q: PathModel| (lookup(s, q) is Some || lookup(f, q) is Some) implies
        (#[trigger] before_heads(s, i + 1, f, j, q) == (before_heads(s, i, f, j, q) || q == p)) by {
        if q == p {
            if i + 1 < s.len() {
                assert(path_lt(s[i].0, s[i + 1].0));
            }
        } else if lookup(s, q) is Some {
            let a = lemma_index_of(s, q);
            lemma_below_head(s, i, a);
            if i + 1 < s.len() {
                lemma_below_head(s, i + 1, a);
                if a < i {
                    assert(path_lt(s[i].0, s[i + 1].0));
                }
            }
            if a < i && j < f.len() {
                assert(path_lt(s[a].0, f[j].0));
            }
        } else {
            let b = lemma_index_of(f, q);
            if j < f.len() {
                lemma_below_head(f, j, b);
            }
            if b < j {
                assert(path_lt(f[b].0, s[i].0));
                if i + 1 < s.len() {
                    assert(path_lt(s[i].0, s[i + 1].0));
                    lemma_path_lt_transitive(f[b].0, s[i].0, s[i + 1].0);
                }
            } else if j < f.len() {
                assert(!path_lt(q, f[j].0)) by {
                    lemma_below_head(f, j, b);
                    if b > j {
                        assert(path_lt(f[j].0, f[b].0));
                        crate::path::lemma_path_lt_asymmetric(f[j].0, f[b].0);
                    } else {
                        lemma_path_lt_irreflexive(q);
                    }
                }
            }
        }
    }
}

/// Taking the head of the right list alone, when it is below the left head.
pub proof fn lemma_advance_right<A, B>(s: Seq<(PathModel, A)>, i: int, f: Seq<(PathModel, B)>, j: int)
    requires
        merge_inv(s, i, f, j),
        j < f.len(),
        i < s.len() ==> path_lt(f[j].0, s[i].0),
    ensures
        merge_inv(s, i, f, j + 1),
        !before_heads(s, i, f, j, f[j].0),
        lookup(f, f[j].0) == Some(f[j].1),
        lookup(s, f[j].0) is None,
        forall|q: PathModel| (lookup(s, q) is Some || lookup(f, q) is Some) ==>
            (#[trigger] before_heads(s, i, f, j + 1, q) == (before_heads(s, i, f, j, q) || q == f[j].0)),
{
    lemma_advance_left(f, j, s, i);
    assert forall|q: PathModel| (lookup(s, q) is Some || lookup(f, q) is Some) implies
        (#[trigger] before_heads(s, i, f, j + 1, q) == (before_heads(s, i, f, j, q) || q == f[j].0)) by {
        assert(before_heads(f, j + 1, s, i, q) == before_heads(s, i, f, j + 1, q));
        assert(before_heads(f, j, s, i, q) == before_heads(s, i, f, j, q));
    }
}

/// Taking both heads, when they are the same key.
pub proof fn lemma_advance_both<A, B>(s: Seq<(PathModel, A)>, i: int, f: Seq<(PathModel, B)>, j: int)
    requires
        merge_inv(s, i, f, j),
        i < s.len(),
        j < f.len(),
        s[i].0 == f[j].0,
    ensures
        merge_inv(s, i + 1, f, j + 1),
        !before_heads(s, i, f, j, s[i].0),
        lookup(s, s[i].0) == Some(s[i].1),
        lookup(f, s[i].0) == Some(f[j].1),
        forall|q: PathModel| (lookup(s, q) is Some || lookup(f, q) is Some) ==>
            (#[trigger] before_heads(s, i + 1, f, j + 1, q) == (before_heads(s, i, f, j, q) || q == s[i].0)),
{
    let p = s[i].0;
    lemma_path_lt_irreflexive(p);
    lemma_lookup_at(s, i);
    lemma_lookup_at(f, j);
    assert forall|a: int| 0 <= a < i + 1 && j + 1 < f.len() implies path_lt(#[trigger] s[a].0, f[j + 1].0) by {
        assert(path_lt(f[j].0, f[j + 1].0));
        if a < i {
            lemma_path_lt_transitive(s[a].0, f[j].0, f[j + 1].0);
        }
    }
    assert forall|b: int| 0 <= b < j + 1 && i + 1 < s.len() implies path_lt(#[trigger] f[b].0, s[i + 1].0) by {
        assert(path_lt(s[i].0, s[i + 1].0));
        if b < j {
            lemma_path_lt_transitive(f[b].0, s[i].0, s[i + 1].0);
        }
    }
    assert forall|q: PathModel| (lookup(s, q) is Some || lookup(f, q) is Some) implies
        (#[trigger] before_heads(s, i + 1, f, j + 1, q) == (before_heads(s, i, f, j, q) || q == p)) by {
        if q == p {
            if i + 1 < s.len() {
                assert(path_lt(s[i].0, s[i + 1].0));
            }
            if j + 1 < f.len() {
                assert(path_lt(f[j].0, f[j + 1].0));
            }
        } else if lookup(s, q) is Some {
            let a = lemma_index_of(s, q);
            lemma_below_head(s, i, a);
            if i + 1 < s.len() {
                lemma_below_head(s, i + 1, a);
            }
            if a < i {
                if i + 1 < s.len() {
                    assert(path_lt(s[i].0, s[i + 1].0));
                }
                if j + 1 < f.len() {
                    assert(path_lt(f[j].0, f[j + 1].0));
                    lemma_path_lt_transitive(s[a].0, f[j].0, f[j + 1].0);
                }
            } else {
                assert(a > i);
                if i + 1 < s.len() {
                    lemma_below_head(s, i + 1, a);
                }
            }
        } else {
            let b = lemma_index_of(f, q);
            lemma_below_head(f, j, b);
            if j + 1 < f.len() {
                lemma_below_head(f, j + 1, b);
            }
            if b < j {
                if j + 1 < f.len() {
                    assert(path_lt(f[j].0, f[j + 1].0));
                }
                if i + 1 < s.len() {
                    assert(path_lt(s[i].0, s[i + 1].0));
                    lemma_path_lt_transitive(f[b].0, s[i].0, s[i + 1].0);
                }
            }
        }
    }
}

/// At the start of a merge walk no key of either list lies before the heads.
pub proof fn lemma_nothing_before_start<A, B>(s: Seq<(PathModel, A)>, f: Seq<(PathModel, B)>)
    requires
        sorted_keys(s),
        sorted_keys(f),
    ensures
        forall|q: PathModel| (lookup(s, q) is Some || lookup(f, q) is Some) ==> !#[trigger] before_heads(s, 0, f, 0, q),
{
    assert forall|q: PathModel| (lookup(s, q) is Some || lookup(f, q) is Some) implies !#[trigger] before_heads(s, 0, f, 0, q) by {
        if lookup(s, q) is Some {
            let a = lemma_index_of(s, q);
            lemma_below_head(s, 0, a);
        } else {
            let b = lemma_index_of(f, q);
            lemma_below_head(f, 0, b);
        }
    }
}

} // verus!
