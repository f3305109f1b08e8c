use leaky::{
    clean_path, diff, pull_plan, push_root, BlockCache, ChangeLog, ChangeType, Cid, FsEntry, Leaky, LeakyError, Manifest,
    ManifestError, Node, Object, RootError, RootRecord, TreeError,
};
use leaky::tree::{upsert_at, Upserted};
use libipld::block::Block;
use libipld::cbor::DagCborCodec;
use libipld::codec::Codec;
use libipld::multihash::{Code, MultihashDigest};
use libipld::store::DefaultParams;
use libipld::Ipld;

fn raw_cid(data: &[u8]) -> Cid {
    Cid::from_bytes(libipld::Cid::new_v1(0x55, Code::Blake3_256.digest(data)).to_bytes())
}

fn p(parts: &[&str]) -> Vec<String> {
    parts.iter().map(|s| s.to_string()).collect()
}

fn file(parts: &[&str], data: &[u8]) -> FsEntry {
    FsEntry { path: p(parts), hash: Some(raw_cid(data)) }
}

fn dir(parts: &[&str]) -> FsEntry {
    FsEntry { path: p(parts), hash: None }
}

fn sample_node() -> Node {
    let mut node = Node::new();
    node.put_link("b.txt", &raw_cid(b"b"));
    node.put_link("a.txt", &raw_cid(b"a"));
    let mut meta = Object::empty();
    meta.insert("n".to_string(), Ipld::Integer(7));
    meta.insert("s".to_string(), Ipld::String("x".to_string()));
    node.put_object("a.txt", Some(&meta));
    node
}

#[test]
fn node_encoding_round_trips() {
    let node = sample_node();
    let (cid, bytes) = node.encode().unwrap();
    let lib_cid = libipld::Cid::try_from(cid.to_bytes()).unwrap();
    let block = Block::<DefaultParams>::new(lib_cid, bytes.clone()).unwrap();
    let ipld: Ipld = block.decode::<DagCborCodec, Ipld>().unwrap();
    let again = DagCborCodec.encode(&ipld).unwrap();
    assert_eq!(again, bytes);
    match ipld {
        Ipld::StringMap(m) => {
            assert_eq!(m.len(), 3);
            assert_eq!(m["a.txt"], Ipld::Link(libipld::Cid::try_from(raw_cid(b"a").to_bytes()).unwrap()));
            assert!(m.contains_key(".metadata"));
        }
        _ => panic!("node is not a map"),
    }
}

#[test]
fn manifest_encoding_round_trips() {
    let mut manifest = Manifest::new();
    assert!(manifest.previous().is_tombstone());
    manifest.set_data(raw_cid(b"root"));
    manifest.set_previous(raw_cid(b"prev"));
    let (cid, bytes) = manifest.encode().unwrap();
    assert_eq!(cid.to_bytes()[1], 0x71);
    let decoded: Ipld = DagCborCodec.decode(&bytes).unwrap();
    let map = match decoded {
        Ipld::StringMap(m) => m,
        _ => panic!("manifest is not a map"),
    };
    let link = |k: &str| match &map[k] {
        Ipld::Link(c) => Some(Cid::from_bytes(c.to_bytes())),
        _ => None,
    };
    let version = match map["version"] {
        Ipld::Integer(v) => Some(v as u64),
        _ => None,
    };
    let back = Manifest::from_parts(version, link("previous"), link("data")).unwrap();
    assert_eq!(back.data(), &raw_cid(b"root"));
    assert_eq!(back.previous(), &raw_cid(b"prev"));
    assert_eq!(back.version(), 1);
    assert_eq!(back.encode().unwrap().0, cid);
}

#[test]
fn equal_nodes_have_equal_cids() {
    let mut a = Node::new();
    a.put_link("x", &raw_cid(b"1"));
    a.put_link("y", &raw_cid(b"2"));
    let mut b = Node::new();
    b.put_link("y", &raw_cid(b"2"));
    b.put_link("x", &raw_cid(b"1"));
    assert_eq!(a.block_cid(), b.block_cid());
    b.put_link("x", &raw_cid(b"3"));
    assert_ne!(a.block_cid(), b.block_cid());
}

#[test]
fn node_links_stay_sorted_and_del_removes() {
    let mut node = sample_node();
    node.put_link("0", &raw_cid(b"0"));
    let names: Vec<String> = node.get_links().into_iter().map(|(n, _)| n).collect();
    assert_eq!(names, vec!["0", "a.txt", "b.txt"]);
    assert_eq!(node.size(), 3);
    let (link, object) = node.del("a.txt");
    assert_eq!(link, Some(raw_cid(b"a")));
    assert_eq!(object.unwrap().get("n"), Some(Ipld::Integer(7)));
    assert_eq!(node.size(), 2);
    assert_eq!(node.get_link("a.txt"), None);
    assert!(node.get_object("a.txt").is_none());
    let (link, object) = node.del("missing");
    assert_eq!(link, None);
    assert!(object.is_none());
}

#[test]
fn object_update_merges() {
    let mut base = Object::empty();
    base.insert("a".to_string(), Ipld::Integer(1));
    base.insert("b".to_string(), Ipld::Integer(2));
    let mut more = Object::empty();
    more.insert("b".to_string(), Ipld::Integer(3));
    more.insert("c".to_string(), Ipld::Bool(true));
    base.update(Some(&more));
    assert_eq!(base.get("a"), Some(Ipld::Integer(1)));
    assert_eq!(base.get("b"), Some(Ipld::Integer(3)));
    assert_eq!(base.get("c"), Some(Ipld::Bool(true)));
    assert_eq!(base.entries().len(), 3);
}

#[test]
fn clean_path_splits_absolute_paths() {
    assert_eq!(clean_path("/foo/bar"), Some(p(&["foo", "bar"])));
    assert_eq!(clean_path("/"), Some(p(&[])));
    assert_eq!(clean_path("//a/./b/"), Some(p(&["a", "b"])));
    assert_eq!(clean_path("foo"), None);
    assert_eq!(clean_path(""), None);
}

#[test]
fn upsert_twice_is_a_noop() {
    let mut cache = BlockCache::new();
    let root = cache.put(Node::new()).unwrap();
    let path = p(&["d", "f"]);
    let link = raw_cid(b"content");
    let mut meta = Object::empty();
    meta.insert("k".to_string(), Ipld::String("v".to_string()));
    let first = upsert_at(&mut cache, &root, &path, 0, Some(&link), Some(&meta)).unwrap();
    let new_root = match first {
        Upserted::Updated(c) => c,
        other => panic!("expected an update, got {:?}", other),
    };
    let second = upsert_at(&mut cache, &new_root, &path, 0, Some(&link), Some(&meta)).unwrap();
    assert!(matches!(second, Upserted::Unchanged));
}

#[test]
fn removing_last_entry_cascades_to_empty_root() {
    let mut fresh = Leaky::new();
    fresh.init().unwrap();
    let empty_root = fresh.manifest().unwrap().data().clone();

    let mut leaky = Leaky::new();
    leaky.init().unwrap();
    leaky.add("/keep", &raw_cid(b"k"), None).unwrap();
    leaky.add("/dir/only", &raw_cid(b"o"), None).unwrap();
    leaky.rm("/dir/only").unwrap();
    let names: Vec<String> = leaky.ls("/").unwrap().into_iter().map(|e| e.0).collect();
    assert_eq!(names, vec!["keep"]);
    leaky.rm("/keep").unwrap();
    assert_eq!(leaky.manifest().unwrap().data(), &empty_root);
    assert_eq!(leaky.ls("/").unwrap().len(), 0);
}

#[test]
fn rm_of_missing_entry_changes_nothing() {
    let mut leaky = Leaky::new();
    leaky.init().unwrap();
    leaky.add("/a", &raw_cid(b"a"), None).unwrap();
    let cid = leaky.cid().unwrap();
    leaky.rm("/b").unwrap();
    leaky.rm("/x/y").unwrap();
    assert_eq!(leaky.cid().unwrap(), cid);
}

#[test]
fn tree_errors() {
    let mut leaky = Leaky::new();
    assert!(matches!(leaky.add("/a", &raw_cid(b"a"), None), Err(LeakyError::NotInitialized)));
    assert!(matches!(leaky.ls("/"), Err(LeakyError::NotInitialized)));
    leaky.init().unwrap();
    assert!(matches!(leaky.init(), Err(LeakyError::AlreadyInitialized)));
    assert!(matches!(leaky.add("a", &raw_cid(b"a"), None), Err(LeakyError::NotAbsolute)));
    assert!(matches!(leaky.add("/", &raw_cid(b"a"), None), Err(LeakyError::Tree(TreeError::EmptyPath))));
    assert!(matches!(leaky.add("/.metadata", &raw_cid(b"a"), None), Err(LeakyError::Tree(TreeError::ReservedName))));
    leaky.add("/f", &raw_cid(b"f"), None).unwrap();
    assert!(matches!(leaky.ls("/f"), Err(LeakyError::Tree(TreeError::NotADirectory))));
    assert!(matches!(leaky.ls("/nope"), Err(LeakyError::Tree(TreeError::NotFound))));
    assert!(matches!(leaky.add("/f/g", &raw_cid(b"g"), None), Err(LeakyError::Tree(TreeError::CacheMiss(_)))));
    assert!(matches!(leaky.cat("/nope"), Err(LeakyError::Tree(TreeError::NotFound))));
    assert_eq!(leaky.cat("/f").unwrap(), raw_cid(b"f"));
}

#[test]
fn diff_classifies_changes_against_synced_log() {
    let mut base = ChangeLog::new();
    assert!(base.push_back(p(&["a"]), raw_cid(b"a1"), ChangeType::Base));
    assert!(base.push_back(p(&["b"]), raw_cid(b"b1"), ChangeType::Base));
    assert!(base.push_back(p(&["e"]), raw_cid(b"e1"), ChangeType::Base));
    assert!(!base.push_back(p(&["c"]), raw_cid(b"c1"), ChangeType::Base));
    let now = vec![file(&["a"], b"a2"), file(&["c"], b"c1"), dir(&["d"]), file(&["d", "x"], b"x"), file(&["e"], b"e1")];
    let out = diff(&base, &now);
    assert_eq!(out.get(&p(&["a"])), Some((raw_cid(b"a2"), ChangeType::Modified)));
    assert_eq!(out.get(&p(&["b"])), Some((Cid::tombstone(), ChangeType::Removed)));
    assert_eq!(out.get(&p(&["c"])), Some((raw_cid(b"c1"), ChangeType::Added { modified: true })));
    assert_eq!(out.get(&p(&["d"])), None);
    assert_eq!(out.get(&p(&["d", "x"])), Some((raw_cid(b"x"), ChangeType::Added { modified: true })));
    assert_eq!(out.get(&p(&["e"])), Some((raw_cid(b"e1"), ChangeType::Base)));
    assert_eq!(out.entries().len(), 5);
}

#[test]
fn diff_settles_and_drops_added_files() {
    let mut base = ChangeLog::new();
    base.push_back(p(&["n"]), raw_cid(b"n"), ChangeType::Added { modified: true });
    base.push_back(p(&["o"]), raw_cid(b"o"), ChangeType::Added { modified: true });
    base.push_back(p(&["q"]), raw_cid(b"q"), ChangeType::Added { modified: false });
    let now = vec![file(&["n"], b"n"), file(&["q"], b"q2")];
    let out = diff(&base, &now);
    assert_eq!(out.get(&p(&["n"])), Some((raw_cid(b"n"), ChangeType::Added { modified: false })));
    assert_eq!(out.get(&p(&["o"])), None);
    assert_eq!(out.get(&p(&["q"])), Some((raw_cid(b"q2"), ChangeType::Added { modified: true })));
}

#[test]
fn pull_plan_fetches_missing_and_prunes_extra() {
    let remote = vec![
        (p(&["a"]), raw_cid(b"a")),
        (p(&["b"]), raw_cid(b"b")),
        (p(&["c"]), raw_cid(b"c")),
        (p(&["t"]), Cid::tombstone()),
    ];
    let local = vec![file(&["a"], b"a"), file(&["b"], b"old"), dir(&["d"]), file(&["d", "z"], b"z"), file(&["e"], b"e")];
    let (to_pull, to_prune) = pull_plan(&remote, &local);
    assert_eq!(to_pull, vec![(p(&["b"]), raw_cid(b"b")), (p(&["c"]), raw_cid(b"c"))]);
    assert_eq!(to_prune, vec![p(&["d", "z"]), p(&["e"])]);
}

#[test]
fn root_conflict_rejects_second_pusher() {
    let start = RootRecord { cid: raw_cid(b"r0"), previous: Cid::tombstone() };
    let first = push_root(&Some(start.clone()), raw_cid(b"r1"), raw_cid(b"r0")).unwrap();
    assert_eq!(first.cid, raw_cid(b"r1"));
    let second = push_root(&Some(first), raw_cid(b"r2"), raw_cid(b"r0"));
    assert!(matches!(second, Err(RootError::Conflict(_, _))));
    assert!(push_root(&None, raw_cid(b"r0"), Cid::tombstone()).is_ok());
}

#[test]
fn manifest_missing_fields() {
    assert_eq!(Manifest::from_parts(None, None, None).unwrap_err(), ManifestError::MissingField("version".to_string()));
    assert_eq!(
        Manifest::from_parts(Some(1), None, Some(raw_cid(b"d"))).unwrap_err(),
        ManifestError::MissingField("previous link".to_string())
    );
    assert_eq!(
        Manifest::from_parts(Some(1), Some(Cid::tombstone()), None).unwrap_err(),
        ManifestError::MissingField("data link".to_string())
    );
}

#[test]
fn cid_kinds() {
    assert!(raw_cid(b"x").is_raw());
    assert!(!Cid::tombstone().is_raw());
    assert!(Cid::tombstone().is_tombstone());
    assert!(!Node::new().block_cid().unwrap().is_tombstone());
}

#[test]
fn items_come_in_path_order() {
    let mut leaky = Leaky::new();
    leaky.init().unwrap();
    leaky.add("/b", &raw_cid(b"b"), None).unwrap();
    leaky.add("/a.txt", &raw_cid(b"t"), None).unwrap();
    leaky.add("/a/x", &raw_cid(b"x"), None).unwrap();
    let items = leaky.items(16).unwrap();
    let paths: Vec<Vec<String>> = items.iter().map(|(p, _)| p.clone()).collect();
    assert_eq!(paths, vec![p(&["a", "x"]), p(&["a.txt"]), p(&["b"])]);
    assert_eq!(items[0].1, raw_cid(b"x"));
    assert!(matches!(leaky.items(0), Err(LeakyError::Tree(TreeError::TooDeep))));
    assert_eq!(leaky.items(1).unwrap().len(), 3);
}

#[test]
fn stage_applies_a_diff_to_the_tree() {
    let mut leaky = Leaky::new();
    leaky.init().unwrap();
    let base = ChangeLog::new();
    let now = vec![file(&["a"], b"a"), dir(&["d"]), file(&["d", "e"], b"e")];
    let updates = diff(&base, &now);
    leaky.stage(&updates).unwrap();
    let items = leaky.items(8).unwrap();
    assert_eq!(items, vec![(p(&["a"]), raw_cid(b"a")), (p(&["d", "e"]), raw_cid(b"e"))]);
    let (settled, changed) = updates.settle();
    assert!(changed);
    assert_eq!(settled.get(&p(&["a"])), Some((raw_cid(b"a"), ChangeType::Base)));
    let later = diff(&settled, &vec![file(&["a"], b"a")]);
    leaky.stage(&later).unwrap();
    assert_eq!(leaky.items(8).unwrap(), vec![(p(&["a"]), raw_cid(b"a"))]);
    let (_, unchanged) = ChangeLog::from_items(&leaky.items(8).unwrap()).settle();
    assert!(!unchanged);
}

#[test]
fn change_log_marks_and_uploads() {
    let mut log = ChangeLog::new();
    log.push_back(p(&["a"]), raw_cid(b"a"), ChangeType::Base);
    log.push_back(p(&["b"]), raw_cid(b"b"), ChangeType::Added { modified: false });
    log.push_back(p(&["c"]), Cid::tombstone(), ChangeType::Removed);
    log.mark_tagged(&p(&["a"]));
    log.mark_tagged(&p(&["b"]));
    log.mark_tagged(&p(&["c"]));
    assert_eq!(log.get(&p(&["a"])), Some((raw_cid(b"a"), ChangeType::Modified)));
    assert_eq!(log.get(&p(&["b"])), Some((raw_cid(b"b"), ChangeType::Added { modified: true })));
    assert_eq!(log.get(&p(&["c"])), Some((Cid::tombstone(), ChangeType::Removed)));
    let uploads: Vec<Vec<String>> = log.pending_uploads().into_iter().map(|e| e.0).collect();
    assert_eq!(uploads, vec![p(&["a"]), p(&["b"])]);
    assert_eq!(log.pending_changes().len(), 3);
    let (settled, _) = log.settle();
    assert!(settled.pending_changes().is_empty());
}

#[test]
fn from_items_records_synced_files() {
    let items = vec![(p(&["a"]), raw_cid(b"a")), (p(&["a", "b"]), raw_cid(b"ab"))];
    let log = ChangeLog::from_items(&items);
    assert_eq!(log.entries().len(), 2);
    assert_eq!(log.get(&p(&["a", "b"])), Some((raw_cid(b"ab"), ChangeType::Base)));
}

#[test]
fn links_to_fetch_skips_raw_blocks() {
    let mut cache = BlockCache::new();
    let child = cache.put(Node::new()).unwrap();
    let mut node = Node::new();
    node.put_link("dir", &child);
    node.put_link("file", &raw_cid(b"f"));
    assert_eq!(leaky::links_to_fetch(&node), vec![child]);
}

#[test]
fn invalid_link_makes_node_unencodable() {
    let mut leaky = Leaky::new();
    leaky.init().unwrap();
    let cid = leaky.cid().unwrap();
    let bad = Cid::from_bytes(vec![0xff, 0xff]);
    assert!(matches!(leaky.add("/a", &bad, None), Err(LeakyError::Tree(TreeError::Unencodable))));
    assert_eq!(leaky.cid().unwrap(), cid);
    let mut node = Node::new();
    node.put_link("a", &bad);
    assert!(node.block_cid().is_none());
}

#[test]
fn node_decodes_to_itself() {
    let node = sample_node();
    let (_, bytes) = node.encode().unwrap();
    let back = Node::decode(&bytes).unwrap();
    assert_eq!(back.block_cid(), node.block_cid());
    assert_eq!(back.get_links(), node.get_links());
    assert_eq!(back.get_object("a.txt").unwrap().get("n"), Some(Ipld::Integer(7)));
    assert!(Node::decode(&vec![1, 2, 3]).is_none());
}

#[test]
fn manifest_decodes_to_itself() {
    let mut manifest = Manifest::new();
    manifest.set_data(raw_cid(b"d"));
    manifest.set_previous(raw_cid(b"p"));
    let (cid, bytes) = manifest.encode().unwrap();
    let back = Manifest::decode(&bytes).unwrap();
    assert_eq!(back.encode().unwrap().0, cid);
    assert!(Manifest::decode(&vec![0]).is_err());
}

#[test]
fn diff_removes_file_replaced_by_directory() {
    let mut base = ChangeLog::new();
    base.push_back(p(&["a"]), raw_cid(b"a"), ChangeType::Base);
    base.push_back(p(&["b"]), raw_cid(b"b"), ChangeType::Added { modified: false });
    let now = vec![dir(&["a"]), file(&["a", "x"], b"x"), dir(&["b"])];
    let out = diff(&base, &now);
    assert_eq!(out.get(&p(&["a"])), Some((Cid::tombstone(), ChangeType::Removed)));
    assert_eq!(out.get(&p(&["b"])), None);
    assert_eq!(out.get(&p(&["a", "x"])), Some((raw_cid(b"x"), ChangeType::Added { modified: true })));
}

#[test]
fn cat_of_directory_is_refused() {
    let mut leaky = Leaky::new();
    leaky.init().unwrap();
    leaky.add("/d/f", &raw_cid(b"f"), None).unwrap();
    assert!(matches!(leaky.cat("/d"), Err(LeakyError::Tree(TreeError::NotAFile))));
    assert!(matches!(leaky.cat("/"), Err(LeakyError::Tree(TreeError::EmptyPath))));
}

#[test]
fn del_of_orphan_metadata_keeps_node() {
    let mut node = Node::new();
    let mut meta = Object::empty();
    meta.insert("k".to_string(), Ipld::Bool(true));
    node.put_object("ghost", Some(&meta));
    let (link, object) = node.del("ghost");
    assert!(link.is_none() && object.is_none());
    assert!(node.get_object("ghost").is_some());
}

#[test]
fn malformed_blocks_are_refused_before_decoding() {
    let huge_bytes = vec![0x5b, 0xff, 0xff, 0xff, 0xff, 0xff, 0xff, 0xff, 0xff];
    assert!(Node::decode(&huge_bytes).is_none());
    let huge_array = vec![0x9b, 0xff, 0xff, 0xff, 0xff, 0xff, 0xff, 0xff, 0xff];
    assert!(Node::decode(&huge_array).is_none());
    let mut deep = vec![0x81u8; 100_000];
    deep.push(0x00);
    assert!(Node::decode(&deep).is_none());
    assert!(Manifest::decode(&deep).is_err());
}

#[test]
fn items_reports_uncached_directory() {
    let mut leaky = Leaky::new();
    leaky.init().unwrap();
    leaky.add("/d/f", &raw_cid(b"f"), None).unwrap();
    let manifest = leaky.manifest().unwrap();
    let cid = leaky.cid().unwrap();
    let mut cache = BlockCache::new();
    for (c, n) in leaky.block_cache().blocks() {
        if n.get_link("d").is_some() {
            cache.insert(c, n);
        }
    }
    let mut partial = Leaky::new();
    partial.load(cid, manifest, cache).unwrap();
    assert!(matches!(partial.items(8), Err(LeakyError::Tree(TreeError::CacheMiss(_)))));
}
