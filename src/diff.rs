//! The two sorted-merge diffs: the working tree against the change log (used
//! when staging changes), and the remote tree against the working tree (used
//! when pulling).
use vstd::prelude::*;
use crate::change_log::{ChangeLog, ChangeType, LogEntry, log_models, copy_path};
use crate::cid::{Cid, tombstone_bytes};
use crate::path::{path_model, path_less, path_lt};
use crate::sorted::{PathModel, sorted_keys, lookup, before_heads, merge_inv, lemma_advance_left, lemma_advance_right, lemma_advance_both, lemma_nothing_before_start, lemma_sorted_push, lemma_lookup_at};

verus! {

/// One entry of a snapshot of the working tree: a file with the CID of its
/// content, or a directory (no CID).
#[derive(Debug, Clone)]
pub struct FsEntry {
    pub path: Vec<String>,
    pub hash: Option<Cid>,
}

pub open spec fn opt_cid(h: Option<Cid>) -> Option<Seq<u8>> {
    match h {
        Some(c) => Some(c@),
        None => None,
    }
}

pub open spec fn fs_models(s: Seq<FsEntry>) -> Seq<(PathModel, Option<Seq<u8>>)> {
    s.map_values(|e: FsEntry| (path_model(e.path@), opt_cid(e.hash)))
}

/// What the change log records for one path, given its previous record and
/// what the working tree holds there (a file with its CID, a directory, or nothing).
pub open spec fn diff_entry(
    prev: Option<(Seq<u8>, ChangeType)>,
    now: Option<Option<Seq<u8>>>,
) -> Option<(Seq<u8>, ChangeType)> {
    match (prev, now) {
        (None, Some(Some(h))) => Some((h, ChangeType::Added { modified: true })),
        (None, _) => None,
        (Some(e), None) => if e.1 is Added {
            None
        } else {
            Some((tombstone_bytes(), ChangeType::Removed))
        },
        (Some(e), Some(None)) => if e.1 is Added {
            None
        } else {
            Some((tombstone_bytes(), ChangeType::Removed))
        },
        (Some(e), Some(Some(h))) => if h != e.0 {
            if e.1 is Added {
                Some((h, ChangeType::Added { modified: true }))
            } else {
                Some((h, ChangeType::Modified))
            }
        } else if e.1 is Added {
            Some((h, ChangeType::Added { modified: false }))
        } else {
            Some(e)
        },
    }
}

/// The change log after a diff of the snapshot `now` against the log `prev`.
pub open spec fn diff_spec(
    prev: Seq<(PathModel, (Seq<u8>, ChangeType))>,
    now: Seq<(PathModel, Option<Seq<u8>>)>,
) -> Map<PathModel, (Seq<u8>, ChangeType)> {
    Map::new(
        |q: PathModel| diff_entry(lookup(prev, q), lookup(now, q)) is Some,
        |q: PathModel| diff_entry(lookup(prev, q), lookup(now, q)).unwrap(),
    )
}

/// Classifies the working tree `next` (in path order) against the change log
/// `base`: removed, added and modified files. Directories are walked but
/// never recorded.
pub fn diff(base: &ChangeLog, next: &Vec<FsEntry>) -> (r: ChangeLog)
    requires
        base.wf(),
        sorted_keys(fs_models(next@)),
    ensures
        r.wf(),
        r@ == diff_spec(base.entry_seq(), fs_models(next@)),
{
    let b = base.entries();
    let ghost s = log_models(b@);
    let ghost f = fs_models(next@);
    let mut out = ChangeLog::new();
    let mut i: usize = 0;
    let mut j: usize = 0;
    proof {
        base.lemma_view();
        lemma_nothing_before_start(s, f);
    }
    while i < b.len() || j < next.len()
        invariant
            s == log_models(b@),
            s == base.entry_seq(),
            f == fs_models(next@),
            merge_inv(s, i as int, f, j as int),
            out.wf(),
            forall|q: PathModel| #[trigger] out@.contains_key(q) <==>
                (before_heads(s, i as int, f, j as int, q) && diff_entry(lookup(s, q), lookup(f, q)) is Some),
            forall|q: PathModel| #[trigger] out@.contains_key(q) ==> out@[q] == diff_entry(lookup(s, q), lookup(f, q)).unwrap(),
        decreases b.len() + next.len() - i - j,
    {
        let ghost old_out = out@;
        let ghost (i0, j0) = (i as int, j as int);
        let take_base = j >= next.len() || (i < b.len() && path_less(&b[i].0, &next[j].path));
        if take_base {
            let ghost p = s[i0].0;
            proof {
                lemma_advance_left(s, i0, f, j0);
            }
            let e: &LogEntry = &b[i];
            match e.2 {
                ChangeType::Added { .. } => {},
                _ => {
                    let ok = out.push_back(copy_path(&e.0), Cid::tombstone(), ChangeType::Removed);
                    assert(ok);
                },
            }
            i = i + 1;
            proof {
                assert forall|q: PathModel| #[trigger] out@.contains_key(q) <==>
                    (before_heads(s, i as int, f, j as int, q) && diff_entry(lookup(s, q), lookup(f, q)) is Some) by {
                    if diff_entry(lookup(s, q), lookup(f, q)) is Some {
                        assert(lookup(s, q) is Some || lookup(f, q) is Some);
                    }
                }
            }
        } else if i >= b.len() || path_less(&next[j].path, &b[i].0) {
            let ghost p = f[j0].0;
            proof {
                lemma_advance_right(s, i0, f, j0);
            }
            let e: &FsEntry = &next[j];
            match &e.hash {
                Some(h) => {
                    let ok = out.push_back(copy_path(&e.path), h.duplicate(), ChangeType::Added { modified: true });
                    assert(ok);
                },
                None => {},
            }
            j = j + 1;
            proof {
                assert forall|q: PathModel| #[trigger] out@.contains_key(q) <==>
                    (before_heads(s, i as int, f, j as int, q) && diff_entry(lookup(s, q), lookup(f, q)) is Some) by {
                    if diff_entry(lookup(s, q), lookup(f, q)) is Some {
                        assert(lookup(s, q) is Some || lookup(f, q) is Some);
                    }
                }
            }
        } else {
            proof {
                crate::path::lemma_path_lt_total(s[i0].0, f[j0].0);
                lemma_advance_both(s, i0, f, j0);
            }
            let e: &LogEntry = &b[i];
            let path = copy_path(&e.0);
            let ok = match &next[j].hash {
                None => match e.2 {
                    ChangeType::Added { .. } => true,
                    _ => out.push_back(path, Cid::tombstone(), ChangeType::Removed),
                },
                Some(h) => {
                    if *h != e.1 {
                        match e.2 {
                            ChangeType::Added { .. } => out.push_back(path, h.duplicate(), ChangeType::Added { modified: true }),
                            _ => out.push_back(path, h.duplicate(), ChangeType::Modified),
                        }
                    } else {
                        match e.2 {
                            ChangeType::Added { .. } => out.push_back(path, h.duplicate(), ChangeType::Added { modified: false }),
                            _ => out.push_back(path, e.1.duplicate(), e.2),
                        }
                    }
                },
            };
            assert(ok);
            i = i + 1;
            j = j + 1;
            proof {
                assert forall|q: PathModel| #[trigger] out@.contains_key(q) <==>
                    (before_heads(s, i as int, f, j as int, q) && diff_entry(lookup(s, q), lookup(f, q)) is Some) by {
                    if diff_entry(lookup(s, q), lookup(f, q)) is Some {
                        assert(lookup(s, q) is Some || lookup(f, q) is Some);
                    }
                }
            }
        }
    }
    assert(out@ =~= diff_spec(s, f));
    out
}

pub open spec fn item_models(s: Seq<(Vec<String>, Cid)>) -> Seq<(PathModel, Seq<u8>)> {
    s.map_values(|e: (Vec<String>, Cid)| (path_model(e.0@), e.1@))
}

pub open spec fn prune_models(s: Seq<Vec<String>>) -> Seq<(PathModel, ())> {
    s.map_values(|p: Vec<String>| (path_model(p@), ()))
}

/// A remote file is fetched when it is no tombstone and the working tree has
/// no file with that content at its path.
pub open spec fn needs_pull(remote: Option<Seq<u8>>, local: Option<Option<Seq<u8>>>) -> bool {
    match remote {
        Some(k) => k != tombstone_bytes() && local != Some(Some(k)),
        None => false,
    }
}

/// A local file is deleted when the remote tree has nothing at its path.
pub open spec fn needs_prune(remote: Option<Seq<u8>>, local: Option<Option<Seq<u8>>>) -> bool {
    remote is None && local matches Some(Some(_))
}

/// Plans a pull: which remote files (path, CID) to fetch, and which local files
/// to delete. Both inputs are in path order; so are both results. Nothing is
/// applied here.
pub fn pull_plan(remote: &Vec<(Vec<String>, Cid)>, local: &Vec<FsEntry>) -> (r: (Vec<(Vec<String>, Cid)>, Vec<Vec<String>>))
    requires
        sorted_keys(item_models(remote@)),
        sorted_keys(fs_models(local@)),
    ensures
        sorted_keys(item_models(r.0@)),
        sorted_keys(prune_models(r.1@)),
        forall|q: PathModel| #[trigger] lookup(item_models(r.0@), q) == if needs_pull(lookup(item_models(remote@), q), lookup(fs_models(local@), q)) {
            lookup(item_models(remote@), q)
        } else {
            None
        },
        forall|q: PathModel| #[trigger] lookup(prune_models(r.1@), q) is Some
            <==> needs_prune(lookup(item_models(remote@), q), lookup(fs_models(local@), q)),
{
    let ghost s = item_models(remote@);
    let ghost f = fs_models(local@);
    let mut to_pull: Vec<(Vec<String>, Cid)> = Vec::new();
    let mut to_prune: Vec<Vec<String>> = Vec::new();
    let mut i: usize = 0;
    let mut j: usize = 0;
    proof {
        lemma_nothing_before_start(s, f);
        assert(item_models(to_pull@) =~= Seq::empty());
        assert(prune_models(to_prune@) =~= Seq::empty());
    }
    while i < remote.len() || j < local.len()
        invariant
            s == item_models(remote@),
            f == fs_models(local@),
            merge_inv(s, i as int, f, j as int),
            sorted_keys(item_models(to_pull@)),
            sorted_keys(prune_models(to_prune@)),
            forall|q: PathModel| #[trigger] lookup(item_models(to_pull@), q) == if before_heads(s, i as int, f, j as int, q) && needs_pull(lookup(s, q), lookup(f, q)) {
                lookup(s, q)
            } else {
                None
            },
            forall|q: PathModel| #[trigger] lookup(prune_models(to_prune@), q) is Some
                <==> before_heads(s, i as int, f, j as int, q) && needs_prune(lookup(s, q), lookup(f, q)),
        decreases remote.len() + local.len() - i - j,
    {
        let ghost (i0, j0) = (i as int, j as int);
        let ghost pull0 = item_models(to_pull@);
        let ghost prune0 = prune_models(to_prune@);
        let take_remote = j >= local.len() || (i < remote.len() && path_less(&remote[i].0, &local[j].path));
        if take_remote {
            let ghost p = s[i0].0;
            proof {
                lemma_advance_left(s, i0, f, j0);
            }
            if !remote[i].1.is_tombstone() {
                proof {
                    assert forall|a: int| 0 <= a < pull0.len() implies path_lt(#[trigger] pull0[a].0, p) by {
                        lemma_lookup_at(pull0, a);
                    }
                    lemma_sorted_push(pull0, p, s[i0].1);
                }
                to_pull.push((copy_path(&remote[i].0), remote[i].1.duplicate()));
                assert(item_models(to_pull@) =~= pull0.push((p, s[i0].1)));
            }
            i = i + 1;
        } else if i >= remote.len() || path_less(&local[j].path, &remote[i].0) {
            let ghost p = f[j0].0;
            proof {
                lemma_advance_right(s, i0, f, j0);
            }
            if local[j].hash.is_some() {
                proof {
                    assert forall|a: int| 0 <= a < prune0.len() implies path_lt(#[trigger] prune0[a].0, p) by {
                        lemma_lookup_at(prune0, a);
                    }
                    lemma_sorted_push(prune0, p, ());
                }
                to_prune.push(copy_path(&local[j].path));
                assert(prune_models(to_prune@) =~= prune0.push((p, ())));
            }
            j = j + 1;
        } else {
            let ghost p = s[i0].0;
            proof {
                crate::path::lemma_path_lt_total(s[i0].0, f[j0].0);
                lemma_advance_both(s, i0, f, j0);
            }
            let same = match &local[j].hash {
                Some(h) => *h == remote[i].1,
                None => false,
            };
            if !same && !remote[i].1.is_tombstone() {
                proof {
                    assert forall|a: int| 0 <= a < pull0.len() implies path_lt(#[trigger] pull0[a].0, p) by {
                        lemma_lookup_at(pull0, a);
                    }
                    lemma_sorted_push(pull0, p, s[i0].1);
                }
                to_pull.push((copy_path(&remote[i].0), remote[i].1.duplicate()));
                assert(item_models(to_pull@) =~= pull0.push((p, s[i0].1)));
            }
            i = i + 1;
            j = j + 1;
        }
        proof {
            assert forall|q: PathModel| #[trigger] lookup(item_models(to_pull@), q) == if before_heads(s, i as int, f, j as int, q) && needs_pull(lookup(s, q), lookup(f, q)) {
                lookup(s, q)
            } else {
                None
            } by {
                if needs_pull(lookup(s, q), lookup(f, q)) {
                    assert(lookup(s, q) is Some);
                }
            }
            assert forall|q: PathModel| #[trigger] lookup(prune_models(to_prune@), q) is Some
                <==> before_heads(s, i as int, f, j as int, q) && needs_prune(lookup(s, q), lookup(f, q)) by {
                if needs_prune(lookup(s, q), lookup(f, q)) {
                    assert(lookup(f, q) is Some);
                }
            }
        }
    }
    (to_pull, to_prune)
}

} // verus!
