//! Laws of the tree engine and of the working-tree diff.
use vstd::prelude::*;
use crate::cache::stored_cid;
use crate::change_log::ChangeType;
use crate::diff::diff_spec;
use crate::node::{NodeModel, merged_object};
use crate::sorted::{PathModel, lookup};
use crate::text::metadata_key;
use crate::cid::tombstone_bytes;
use crate::leaky::{LeakyModel, mutate_spec, commit_spec};
use crate::tree::{upsert_spec, ascend_spec, UpsertModel, node_updated, node_without, node_with_link, empty_node};
use libipld::Ipld;
use crate::node::{node_record, record_is_node, record_node};
use crate::tree::{dir_at, file_at, LookupModel};
use crate::manifest::{ManifestModel, manifest_record, record_version, record_link, version_key, previous_key, data_key};

verus! {

/// Merging the same metadata twice is merging it once.
proof fn lemma_node_updated_idempotent(n: NodeModel, name: Seq<char>, l: Seq<u8>, meta: Option<Map<Seq<char>, Ipld>>)
    ensures
        node_updated(node_updated(n, name, Some(l), meta), name, Some(l), meta) == node_updated(n, name, Some(l), meta),
{
    let n1 = node_updated(n, name, Some(l), meta);
    let n2 = node_updated(n1, name, Some(l), meta);
    assert(n2.links =~= n1.links);
    let o1 = merged_object(n.objects, name, meta);
    assert(merged_object(n1.objects, name, meta) =~= o1) by {
        assert(n1.objects[name] == o1);
        match meta {
            Some(m) => {
                assert(o1.union_prefer_right(m) =~= o1);
            },
            None => {},
        }
    }
    assert(n2.objects =~= n1.objects);
}

/// Removing the only entry of a directory removes that directory from its
/// parent: the parent is rewritten without it (or is emptied in turn).
pub proof fn law_remove_last_entry_removes_dir(c: Map<Seq<u8>, NodeModel>, cid: Seq<u8>, dir: Seq<char>, name: Seq<char>)
    requires
        c.contains_key(cid),
        dir != metadata_key(),
        name != metadata_key(),
        c[cid].links.contains_key(dir),
        c.contains_key(c[cid].links[dir]),
        c[c[cid].links[dir]].links.dom() == set![name],
    ensures
        upsert_spec(c, cid, seq![dir, name], 0, None, None) == ascend_spec(UpsertModel::Emptied, c, c[cid], cid, dir),
{
    let path = seq![dir, name];
    let child = c[cid].links[dir];
    let n = c[child];
    assert(n.links.contains_key(name));
    assert(n.links.remove(name).dom() =~= Set::<Seq<char>>::empty());
    assert(node_without(n, name).links.len() == 0);
    assert(upsert_spec(c, child, path, 1, None, None) == (UpsertModel::Emptied, c));
}

/// Below `cid`, each node on `path[i..]` holds exactly one entry, the next segment.
pub open spec fn single_chain(c: Map<Seq<u8>, NodeModel>, cid: Seq<u8>, path: Seq<Seq<char>>, i: int) -> bool
    decreases path.len() - i,
{
    if i < 0 || i >= path.len() {
        false
    } else {
        &&& c.contains_key(cid)
        &&& path[i] != metadata_key()
        &&& c[cid].links.dom() == set![path[i]]
        &&& (i + 1 < path.len() ==> single_chain(c, c[cid].links[path[i]], path, i + 1))
    }
}

proof fn lemma_chain_empties(c: Map<Seq<u8>, NodeModel>, cid: Seq<u8>, path: Seq<Seq<char>>, i: int)
    requires
        single_chain(c, cid, path, i),
    ensures
        upsert_spec(c, cid, path, i, None, None) == (UpsertModel::Emptied, c),
    decreases path.len() - i,
{
    let n = c[cid];
    assert(n.links.contains_key(path[i]));
    assert(n.links.remove(path[i]).dom() =~= Set::<Seq<char>>::empty());
    assert(node_without(n, path[i]).links.len() == 0);
    if i + 1 < path.len() {
        lemma_chain_empties(c, n.links[path[i]], path, i + 1);
    }
}

/// Removing the only file of a tree, where every directory on its path holds
/// just the next segment, removes all those directories and leaves a tree whose
/// root node is the empty node that a freshly initialized tree starts from.
pub proof fn law_remove_last_file(s: LeakyModel, path: Seq<Seq<char>>)
    requires
        s.manifest is Some,
        single_chain(s.cache, s.manifest.unwrap().data, path, 0),
        stored_cid(empty_node()) is Some,
    ensures
        ({
            let k0 = stored_cid(empty_node()).unwrap();
            &&& mutate_spec(s, path, None, None) == commit_spec(s, k0, s.cache.insert(k0, empty_node()))
            &&& (mutate_spec(s, path, None, None) matches Some(s2) ==> s2.manifest.unwrap().data == k0)
        }),
{
    lemma_chain_empties(s.cache, s.manifest.unwrap().data, path, 0);
}

/// Diffing a working tree against a change log of synced files (all `Base`)
/// records exactly the working tree's files and contents: files only in the
/// working tree are `Added`, files only in the log are `Removed`, and files
/// whose content changed are `Modified`. It holds where no file's CID is the
/// tombstone.
pub proof fn law_diff_complete(
    prev: Seq<(PathModel, (Seq<u8>, ChangeType))>,
    now: Seq<(PathModel, Option<Seq<u8>>)>,
)
    requires
        forall|q: PathModel| #[trigger] lookup(prev, q) matches Some(e) ==> e.1 == ChangeType::Base,
        forall|q: PathModel| #[trigger] lookup(now, q) matches Some(Some(h)) ==> h != tombstone_bytes(),
    ensures
        forall|q: PathModel| #[trigger] diff_spec(prev, now).contains_key(q) && diff_spec(prev, now)[q].1 != ChangeType::Removed
            <==> lookup(now, q) matches Some(Some(_)),
        forall|q: PathModel| #[trigger] lookup(now, q) matches Some(Some(h)) ==> diff_spec(prev, now).contains_key(q) && diff_spec(prev, now)[q].0 == h,
        forall|q: PathModel| #[trigger] lookup(now, q) matches Some(Some(_)) && lookup(prev, q) is None
            ==> diff_spec(prev, now)[q].1 is Added,
        forall|q: PathModel| #[trigger] lookup(prev, q) is Some && !(lookup(now, q) matches Some(Some(_)))
            ==> diff_spec(prev, now).contains_key(q) && diff_spec(prev, now)[q].1 == ChangeType::Removed,
        forall|q: PathModel| #[trigger] lookup(prev, q) matches Some(e) && lookup(now, q) matches Some(Some(h)) && h != e.0
            ==> diff_spec(prev, now)[q].1 == ChangeType::Modified,
{
    assert forall|q: PathModel| #[trigger] diff_spec(prev, now).contains_key(q) && diff_spec(prev, now)[q].1 != ChangeType::Removed
        <==> lookup(now, q) matches Some(Some(_)) by {
        let _ = lookup(prev, q);
    }
}

/// Writing a node as a record and reading it back gives the same node.
pub proof fn law_node_record_round_trip(n: NodeModel)
    requires
        !n.links.contains_key(metadata_key()),
        !n.objects.contains_key(metadata_key()),
    ensures
        record_is_node(node_record(n)),
        record_node(node_record(n)) == n,
{
    let r = node_record(n);
    assert(record_node(r).links =~= n.links);
    assert(record_node(r).objects =~= n.objects);
}

/// Writing a manifest as a record and reading it back gives the same fields.
pub proof fn law_manifest_record_round_trip(m: ManifestModel)
    ensures
        record_version(manifest_record(m)) == Some(m.version),
        record_link(manifest_record(m), previous_key()) == Some(m.previous),
        record_link(manifest_record(m), data_key()) == Some(m.data),
{
    assert(version_key().len() != previous_key().len());
    assert(version_key().len() != data_key().len());
    assert(previous_key().len() != data_key().len());
    assert(version_key() != previous_key());
    assert(version_key() != data_key());
    assert(previous_key() != data_key());
}

/// The nodes an operation writes into the cache, as (CID, node) in order.
pub type Writes = Seq<(Seq<u8>, NodeModel)>;

/// The cache after the writes, each replacing what was under its CID.
pub open spec fn apply_writes(c: Map<Seq<u8>, NodeModel>, ws: Writes) -> Map<Seq<u8>, NodeModel>
    decreases ws.len(),
{
    if ws.len() == 0 {
        c
    } else {
        apply_writes(c, ws.drop_last()).insert(ws.last().0, ws.last().1)
    }
}

/// No collision among the nodes involved: writes under one CID are the same
/// node, and a write under a CID the cache holds is the node cached there.
pub open spec fn collision_free(c: Map<Seq<u8>, NodeModel>, ws: Writes) -> bool {
    &&& forall|a: int, b: int| 0 <= a < ws.len() && 0 <= b < ws.len() && #[trigger] ws[a].0 == #[trigger] ws[b].0 ==> ws[a].1 == ws[b].1
    &&& forall|a: int| 0 <= a < ws.len() && c.contains_key(#[trigger] ws[a].0) ==> c[ws[a].0] == ws[a].1
}

/// Every entry of `c` is in `d`, with the same node.
pub open spec fn agrees(c: Map<Seq<u8>, NodeModel>, d: Map<Seq<u8>, NodeModel>) -> bool {
    forall|k: Seq<u8>| #[trigger] c.contains_key(k) ==> d.contains_key(k) && d[k] == c[k]
}

pub open spec fn write_writes(n: NodeModel) -> Writes {
    match stored_cid(n) {
        Some(k) => seq![(k, n)],
        None => Seq::empty(),
    }
}

pub open spec fn ascend_writes(r: UpsertModel, node: NodeModel, name: Seq<char>) -> Writes {
    match r {
        UpsertModel::Emptied => if node_without(node, name).links.len() == 0 {
            Seq::empty()
        } else {
            write_writes(node_without(node, name))
        },
        UpsertModel::Updated(k) => write_writes(node_with_link(node, name, k)),
        _ => Seq::empty(),
    }
}

/// The nodes that [`upsert_spec`] writes, in the order it writes them.
pub open spec fn upsert_writes(
    c: Map<Seq<u8>, NodeModel>,
    cid: Seq<u8>,
    path: Seq<Seq<char>>,
    i: int,
    link: Option<Seq<u8>>,
    meta: Option<Map<Seq<char>, Ipld>>,
) -> Writes
    decreases path.len() - i,
{
    if i < 0 || i >= path.len() || !c.contains_key(cid) || path[i] == metadata_key() {
        Seq::empty()
    } else {
        let node = c[cid];
        let name = path[i];
        let is_rm = link is None && meta is None;
        if i + 1 == path.len() {
            if is_rm {
                if !node.links.contains_key(name) || node_without(node, name).links.len() == 0 {
                    Seq::empty()
                } else {
                    write_writes(node_without(node, name))
                }
            } else {
                write_writes(node_updated(node, name, link, meta))
            }
        } else if node.links.contains_key(name) {
            let r = upsert_spec(c, node.links[name], path, i + 1, link, meta).0;
            upsert_writes(c, node.links[name], path, i + 1, link, meta) + ascend_writes(r, node, name)
        } else if is_rm {
            Seq::empty()
        } else {
            match stored_cid(empty_node()) {
                None => Seq::empty(),
                Some(k) => {
                    let ce = c.insert(k, empty_node());
                    let r = upsert_spec(ce, k, path, i + 1, link, meta).0;
                    seq![(k, empty_node())] + upsert_writes(ce, k, path, i + 1, link, meta) + ascend_writes(r, node, name)
                },
            }
        }
    }
}

proof fn lemma_apply_concat(c: Map<Seq<u8>, NodeModel>, a: Writes, b: Writes)
    ensures
        apply_writes(c, a + b) == apply_writes(apply_writes(c, a), b),
    decreases b.len(),
{
    if b.len() == 0 {
        assert(a + b =~= a);
    } else {
        assert((a + b).drop_last() =~= a + b.drop_last());
        assert((a + b).last() == b.last());
        lemma_apply_concat(c, a, b.drop_last());
    }
}

proof fn lemma_apply_one(c: Map<Seq<u8>, NodeModel>, k: Seq<u8>, n: NodeModel)
    ensures
        apply_writes(c, seq![(k, n)]) == c.insert(k, n),
{
    let w = seq![(k, n)];
    assert(w.drop_last() =~= Seq::<(Seq<u8>, NodeModel)>::empty());
    assert(apply_writes(c, w.drop_last()) == c);
    assert(w.last() == (k, n));
}

/// Under no collision, applying writes keeps every cached node and leaves
/// each written node under its CID.
proof fn lemma_apply_agrees(c: Map<Seq<u8>, NodeModel>, ws: Writes)
    requires
        collision_free(c, ws),
    ensures
        agrees(c, apply_writes(c, ws)),
        forall|a: int| 0 <= a < ws.len() ==> apply_writes(c, ws).contains_key(#[trigger] ws[a].0)
            && apply_writes(c, ws)[ws[a].0] == ws[a].1,
    decreases ws.len(),
{
    if ws.len() > 0 {
        let t = ws.drop_last();
        assert(collision_free(c, t)) by {
            assert forall|a: int, b: int| 0 <= a < t.len() && 0 <= b < t.len() && #[trigger] t[a].0 == #[trigger] t[b].0 implies t[a].1 == t[b].1 by {
                assert(t[a] == ws[a] && t[b] == ws[b]);
            }
            assert forall|a: int| 0 <= a < t.len() && c.contains_key(#[trigger] t[a].0) implies c[t[a].0] == t[a].1 by {
                assert(t[a] == ws[a]);
            }
        }
        lemma_apply_agrees(c, t);
        let last = ws.len() - 1;
        assert forall|k: Seq<u8>| #[trigger] c.contains_key(k) implies apply_writes(c, ws).contains_key(k) && apply_writes(c, ws)[k] == c[k] by {
            if k == ws[last].0 {
                assert(c[ws[last].0] == ws[last].1);
            }
        }
        assert forall|a: int| 0 <= a < ws.len() implies apply_writes(c, ws).contains_key(#[trigger] ws[a].0)
            && apply_writes(c, ws)[ws[a].0] == ws[a].1 by {
            if a < last {
                assert(t[a] == ws[a]);
                if ws[a].0 == ws[last].0 {
                    assert(ws[a].1 == ws[last].1);
                }
            }
        }
    }
}

/// Splitting writes: the first part is collision-free against the cache, and
/// the second against the cache after the first.
proof fn lemma_collision_free_split(c: Map<Seq<u8>, NodeModel>, a: Writes, b: Writes)
    requires
        collision_free(c, a + b),
    ensures
        collision_free(c, a),
        collision_free(apply_writes(c, a), b),
        agrees(c, apply_writes(c, a)),
{
    let w = a + b;
    assert(collision_free(c, a)) by {
        assert forall|x: int, y: int| 0 <= x < a.len() && 0 <= y < a.len() && #[trigger] a[x].0 == #[trigger] a[y].0 implies a[x].1 == a[y].1 by {
            assert(w[x] == a[x] && w[y] == a[y]);
        }
        assert forall|x: int| 0 <= x < a.len() && c.contains_key(#[trigger] a[x].0) implies c[a[x].0] == a[x].1 by {
            assert(w[x] == a[x]);
        }
    }
    lemma_apply_agrees(c, a);
    let ca = apply_writes(c, a);
    assert forall|x: int, y: int| 0 <= x < b.len() && 0 <= y < b.len() && #[trigger] b[x].0 == #[trigger] b[y].0 implies b[x].1 == b[y].1 by {
        assert(w[a.len() + x] == b[x] && w[a.len() + y] == b[y]);
    }
    assert forall|x: int| 0 <= x < b.len() && ca.contains_key(#[trigger] b[x].0) implies ca[b[x].0] == b[x].1 by {
        assert(w[a.len() + x] == b[x]);
        lemma_apply_keys(c, a, b[x].0);
        if c.contains_key(b[x].0) {
            assert(ca[b[x].0] == c[b[x].0]);
        } else {
            let y = choose|y: int| 0 <= y < a.len() && a[y].0 == b[x].0;
            assert(w[y] == a[y]);
            assert(ca[a[y].0] == a[y].1);
        }
    }
}

/// A key of the cache after writes was cached before or written.
proof fn lemma_apply_keys(c: Map<Seq<u8>, NodeModel>, ws: Writes, k: Seq<u8>)
    ensures
        apply_writes(c, ws).contains_key(k) ==> c.contains_key(k) || exists|y: int| 0 <= y < ws.len() && ws[y].0 == k,
    decreases ws.len(),
{
    if ws.len() > 0 {
        lemma_apply_keys(c, ws.drop_last(), k);
        if apply_writes(c, ws).contains_key(k) && !c.contains_key(k) && k != ws.last().0 {
            let y = choose|y: int| 0 <= y < ws.drop_last().len() && ws.drop_last()[y].0 == k;
            assert(ws[y] == ws.drop_last()[y]);
        } else if k == ws.last().0 {
            assert(ws[ws.len() - 1].0 == k);
        }
    }
}

/// The cache an upsert leaves is the cache with its writes applied.
proof fn lemma_upsert_cache(
    c: Map<Seq<u8>, NodeModel>,
    cid: Seq<u8>,
    path: Seq<Seq<char>>,
    i: int,
    link: Option<Seq<u8>>,
    meta: Option<Map<Seq<char>, Ipld>>,
)
    ensures
        upsert_spec(c, cid, path, i, link, meta).1 == apply_writes(c, upsert_writes(c, cid, path, i, link, meta)),
    decreases path.len() - i,
{
    assert(apply_writes(c, Seq::empty()) == c);
    if i < 0 || i >= path.len() || !c.contains_key(cid) || path[i] == metadata_key() {
        return;
    }
    let node = c[cid];
    let name = path[i];
    let is_rm = link is None && meta is None;
    if i + 1 == path.len() {
        let n2 = if is_rm { node_without(node, name) } else { node_updated(node, name, link, meta) };
        if let Some(k) = stored_cid(n2) {
            lemma_apply_one(c, k, n2);
        }
        return;
    }
    if node.links.contains_key(name) {
        let child = node.links[name];
        lemma_upsert_cache(c, child, path, i + 1, link, meta);
        let (rc, c2) = upsert_spec(c, child, path, i + 1, link, meta);
        let wc = upsert_writes(c, child, path, i + 1, link, meta);
        lemma_apply_concat(c, wc, ascend_writes(rc, node, name));
        lemma_ascend_cache(rc, c2, node, cid, name);
    } else if !is_rm {
        if let Some(k0) = stored_cid(empty_node()) {
            let ce = c.insert(k0, empty_node());
            lemma_upsert_cache(ce, k0, path, i + 1, link, meta);
            let (rc, c2) = upsert_spec(ce, k0, path, i + 1, link, meta);
            let wc = upsert_writes(ce, k0, path, i + 1, link, meta);
            lemma_apply_one(c, k0, empty_node());
            lemma_apply_concat(c, seq![(k0, empty_node())], wc);
            lemma_apply_concat(c, seq![(k0, empty_node())] + wc, ascend_writes(rc, node, name));
            lemma_ascend_cache(rc, c2, node, cid, name);
        }
    }
}

proof fn lemma_ascend_cache(r: UpsertModel, c: Map<Seq<u8>, NodeModel>, node: NodeModel, cid: Seq<u8>, name: Seq<char>)
    ensures
        ascend_spec(r, c, node, cid, name).1 == apply_writes(c, ascend_writes(r, node, name)),
{
    assert(apply_writes(c, Seq::empty()) == c);
    match r {
        UpsertModel::Emptied => {
            if let Some(k) = stored_cid(node_without(node, name)) {
                lemma_apply_one(c, k, node_without(node, name));
            }
        },
        UpsertModel::Updated(kc) => {
            if let Some(k) = stored_cid(node_with_link(node, name, kc)) {
                lemma_apply_one(c, k, node_with_link(node, name, kc));
            }
        },
        _ => {},
    }
}

/// The entry `path[i..]` below `t` in `d` resolves to a file with link `l`.
pub open spec fn file_below(d: Map<Seq<u8>, NodeModel>, t: Seq<u8>, path: Seq<Seq<char>>, i: int, l: Seq<u8>) -> bool {
    d.contains_key(t) && match dir_at(d, d[t], path, i, path.len() - 1) {
        LookupModel::Found(m) => m.links.contains_key(path.last()) && m.links[path.last()] == l
            && m.objects.contains_key(path.last()),
        _ => false,
    }
}

proof fn lemma_agrees_trans(a: Map<Seq<u8>, NodeModel>, b: Map<Seq<u8>, NodeModel>, c: Map<Seq<u8>, NodeModel>)
    requires
        agrees(a, b),
        agrees(b, c),
    ensures
        agrees(a, c),
{
}

/// An upsert of a file keeps the cache's nodes, and on any cache that holds
/// what it left, the same upsert again changes nothing and the path leads to
/// the file.
proof fn lemma_upsert_twice(
    c: Map<Seq<u8>, NodeModel>,
    cid: Seq<u8>,
    path: Seq<Seq<char>>,
    i: int,
    l: Seq<u8>,
    meta: Option<Map<Seq<char>, Ipld>>,
    d: Map<Seq<u8>, NodeModel>,
)
    requires
        0 <= i,
        collision_free(c, upsert_writes(c, cid, path, i, Some(l), meta)),
    ensures
        ({
            let (r, c1) = upsert_spec(c, cid, path, i, Some(l), meta);
            &&& agrees(c, c1)
            &&& !(r is Emptied)
            &&& (r is Unchanged ==> c.contains_key(cid) && i < path.len() && c[cid].links.contains_key(path[i]))
            &&& (r matches UpsertModel::Updated(k) ==> c1.contains_key(k))
            &&& (agrees(c1, d) ==> match r {
                UpsertModel::Unchanged => upsert_spec(d, cid, path, i, Some(l), meta).0 is Unchanged
                    && file_below(d, cid, path, i, l),
                UpsertModel::Updated(k) => upsert_spec(d, k, path, i, Some(l), meta).0 is Unchanged
                    && file_below(d, k, path, i, l),
                _ => true,
            })
        }),
    decreases path.len() - i,
{
    let w = upsert_writes(c, cid, path, i, Some(l), meta);
    lemma_upsert_cache(c, cid, path, i, Some(l), meta);
    lemma_apply_agrees(c, w);
    let (r, c1) = upsert_spec(c, cid, path, i, Some(l), meta);
    if i >= path.len() || !c.contains_key(cid) || path[i] == metadata_key() {
        return;
    }
    let node = c[cid];
    let name = path[i];
    if i + 1 == path.len() {
        let n2 = node_updated(node, name, Some(l), meta);
        lemma_node_updated_idempotent(node, name, l, meta);
        if let Some(k) = stored_cid(n2) {
            assert(w[0] == (k, n2));
            if k == cid {
                assert(c[w[0].0] == w[0].1);
            }
            if agrees(c1, d) {
                assert(c1[k] == n2);
                assert(d[k] == n2);
                assert(path.last() == name);
                assert(dir_at(d, n2, path, i, i) == LookupModel::Found(n2));
            }
        }
        return;
    }
    if node.links.contains_key(name) {
        let child = node.links[name];
        let wc = upsert_writes(c, child, path, i + 1, Some(l), meta);
        let (rc, c2) = upsert_spec(c, child, path, i + 1, Some(l), meta);
        let aw = ascend_writes(rc, node, name);
        lemma_upsert_cache(c, child, path, i + 1, Some(l), meta);
        lemma_collision_free_split(c, wc, aw);
        lemma_upsert_twice(c, child, path, i + 1, l, meta, d);
        lemma_ascend_cache(rc, c2, node, cid, name);
        lemma_apply_agrees(c2, aw);
        match rc {
            UpsertModel::Updated(kc) => {
                let n2 = node_with_link(node, name, kc);
                if let Some(k) = stored_cid(n2) {
                    assert(aw[0] == (k, n2));
                    if k == cid {
                        assert(c2.contains_key(cid));
                        assert(c2[aw[0].0] == aw[0].1);
                    }
                    if agrees(c1, d) {
                        lemma_agrees_trans(c2, c1, d);
                        lemma_upsert_twice(c, child, path, i + 1, l, meta, d);
                        assert(d[k] == n2);
                        assert(n2.links[name] == kc);
                    }
                }
            },
            UpsertModel::Unchanged => {
                if agrees(c1, d) {
                    assert(d[cid] == node);
                }
            },
            _ => {},
        }
    } else {
        if let Some(k0) = stored_cid(empty_node()) {
            let ce = c.insert(k0, empty_node());
            let wc = upsert_writes(ce, k0, path, i + 1, Some(l), meta);
            let (rc, c2) = upsert_spec(ce, k0, path, i + 1, Some(l), meta);
            let aw = ascend_writes(rc, node, name);
            let first = seq![(k0, empty_node())];
            assert(w =~= first + (wc + aw));
            lemma_apply_one(c, k0, empty_node());
            lemma_collision_free_split(c, first, wc + aw);
            lemma_upsert_cache(ce, k0, path, i + 1, Some(l), meta);
            lemma_collision_free_split(ce, wc, aw);
            lemma_upsert_twice(ce, k0, path, i + 1, l, meta, d);
            lemma_ascend_cache(rc, c2, node, cid, name);
            lemma_apply_agrees(c2, aw);
            lemma_agrees_trans(c, ce, c2);
            match rc {
                UpsertModel::Updated(kc) => {
                    let n2 = node_with_link(node, name, kc);
                    if let Some(k) = stored_cid(n2) {
                        assert(aw[0] == (k, n2));
                        if k == cid {
                            assert(c2.contains_key(cid));
                            assert(c2[aw[0].0] == aw[0].1);
                            assert(n2.links.contains_key(name));
                        }
                        if agrees(c1, d) {
                            lemma_agrees_trans(c2, c1, d);
                            lemma_upsert_twice(ce, k0, path, i + 1, l, meta, d);
                            assert(d[k] == n2);
                            assert(n2.links[name] == kc);
                        }
                    }
                },
                UpsertModel::Unchanged => {
                    assert(ce[k0] == empty_node());
                },
                _ => {},
            }
        }
    }
}

/// Upserting the same link and metadata at the same path twice gives the
/// root of upserting once: the second upsert is a no-op. It holds where the
/// nodes the first upsert writes collide neither with each other nor with the
/// cached nodes.
pub proof fn law_upsert_idempotent(
    c: Map<Seq<u8>, NodeModel>,
    root: Seq<u8>,
    path: Seq<Seq<char>>,
    link: Seq<u8>,
    meta: Option<Map<Seq<char>, Ipld>>,
)
    requires
        collision_free(c, upsert_writes(c, root, path, 0, Some(link), meta)),
    ensures
        ({
            let (r, c1) = upsert_spec(c, root, path, 0, Some(link), meta);
            match r {
                UpsertModel::Unchanged => upsert_spec(c1, root, path, 0, Some(link), meta).0 is Unchanged,
                UpsertModel::Updated(k) => upsert_spec(c1, k, path, 0, Some(link), meta).0 is Unchanged,
                _ => true,
            }
        }),
{
    let (r, c1) = upsert_spec(c, root, path, 0, Some(link), meta);
    lemma_upsert_twice(c, root, path, 0, link, meta, c1);
}

/// After an upsert of a file at `path` succeeds, the path from the new root
/// resolves to that file with the given link, and every node cached before is
/// still cached. It holds under the same absence of collisions.
pub proof fn law_upsert_places_file(
    c: Map<Seq<u8>, NodeModel>,
    root: Seq<u8>,
    path: Seq<Seq<char>>,
    link: Seq<u8>,
    meta: Option<Map<Seq<char>, Ipld>>,
)
    requires
        collision_free(c, upsert_writes(c, root, path, 0, Some(link), meta)),
    ensures
        ({
            let (r, c1) = upsert_spec(c, root, path, 0, Some(link), meta);
            &&& agrees(c, c1)
            &&& match r {
                UpsertModel::Unchanged => file_at(c1, root, path) == Some(link),
                UpsertModel::Updated(k) => file_at(c1, k, path) == Some(link),
                _ => true,
            }
        }),
{
    let (r, c1) = upsert_spec(c, root, path, 0, Some(link), meta);
    lemma_upsert_twice(c, root, path, 0, link, meta, c1);
}

/// Adding the same content CID and metadata at the same path twice leaves the
/// revision of adding it once: the second add changes neither the manifest nor
/// its CID. It holds where the nodes the first add writes collide neither with
/// each other nor with the cached nodes.
pub proof fn law_add_twice_is_noop(
    s: LeakyModel,
    path: Seq<Seq<char>>,
    link: Seq<u8>,
    meta: Option<Map<Seq<char>, Ipld>>,
)
    requires
        s.manifest is Some,
        s.cid is Some,
        collision_free(s.cache, upsert_writes(s.cache, s.manifest.unwrap().data, path, 0, Some(link), meta)),
    ensures
        mutate_spec(s, path, Some(link), meta) matches Some(s1) ==> (mutate_spec(s1, path, Some(link), meta) matches Some(s2)
            && s2.cid == s1.cid && s2.manifest == s1.manifest),
{
    let root = s.manifest.unwrap().data;
    let (r, c1) = upsert_spec(s.cache, root, path, 0, Some(link), meta);
    lemma_upsert_twice(s.cache, root, path, 0, link, meta, c1);
    match r {
        UpsertModel::Updated(k) => {
            if mutate_spec(s, path, Some(link), meta) is Some {
                let s1 = mutate_spec(s, path, Some(link), meta).unwrap();
                assert(s1.manifest.unwrap().data == k);
                assert(s1.cache == c1);
            }
        },
        _ => {},
    }
}

} // verus!
