use std::collections::HashMap;

use leaky::{links_to_fetch, Cid, Leaky, LeakyError, Manifest, Node, Object};
use libipld::multihash::{Code, MultihashDigest};
use libipld::Ipld;

/// A content-addressed block store kept in memory, standing in for the remote one.
#[derive(Default)]
struct Store {
    blocks: HashMap<Vec<u8>, Vec<u8>>,
    root: Option<Cid>,
}

fn raw_cid(data: &[u8]) -> Cid {
    Cid::from_bytes(libipld::Cid::new_v1(0x55, Code::Blake3_256.digest(data)).to_bytes())
}

fn node_from_block(bytes: &[u8]) -> Node {
    Node::decode(&bytes.to_vec()).unwrap()
}

fn manifest_from_block(bytes: &[u8]) -> Manifest {
    Manifest::decode(&bytes.to_vec()).unwrap()
}

fn put_data(store: &mut Store, data: &[u8]) -> Cid {
    let cid = raw_cid(data);
    store.blocks.insert(cid.to_bytes(), data.to_vec());
    cid
}

fn push(leaky: &mut Leaky, store: &mut Store) {
    let plan = leaky.prepare_push().unwrap();
    for (cid, bytes) in plan.blocks.iter() {
        store.blocks.insert(cid.to_bytes(), bytes.clone());
    }
    store.blocks.insert(plan.cid.to_bytes(), plan.block.clone());
    store.root = Some(plan.cid.clone());
    leaky.commit_push(plan).unwrap();
}

fn pull(store: &Store, cid: &Cid) -> Leaky {
    let manifest = manifest_from_block(&store.blocks[&cid.to_bytes()]);
    let mut queue = vec![manifest.data().clone()];
    let mut nodes = Vec::new();
    while let Some(c) = queue.pop() {
        let node = node_from_block(&store.blocks[&c.to_bytes()]);
        queue.extend(links_to_fetch(&node));
        nodes.push((c, node));
    }
    let mut leaky = Leaky::new();
    leaky.pull(cid.clone(), manifest, nodes).unwrap();
    leaky
}

fn empty_leaky_cid(store: &mut Store) -> Cid {
    let mut leaky = Leaky::new();
    leaky.init().unwrap();
    push(&mut leaky, store);
    leaky.cid().unwrap()
}

#[test]
fn pull_empty() {
    let mut store = Store::default();
    let cid = empty_leaky_cid(&mut store);
    let leaky = pull(&store, &cid);
    assert_eq!(leaky.cid().unwrap(), cid);
}

#[test]
fn add() {
    let mut store = Store::default();
    let cid = empty_leaky_cid(&mut store);
    let mut leaky = pull(&store, &cid);
    let data = raw_cid("foo".as_bytes());
    leaky.add("/foo", &data, None).unwrap();
}

#[test]
fn add_with_metadata() {
    let mut store = Store::default();
    let cid = empty_leaky_cid(&mut store);
    let mut leaky = pull(&store, &cid);
    let data = raw_cid("foo".as_bytes());
    let mut metadata = Object::empty();
    metadata.insert("foo".to_string(), Ipld::String("bar".to_string()));
    leaky.add("/foo", &data, Some(&metadata)).unwrap();
    let links = leaky.ls("/").unwrap();
    assert_eq!(links[0].2.as_ref().unwrap().get("foo"), Some(Ipld::String("bar".to_string())));
}

#[test]
fn add_cat() {
    let mut store = Store::default();
    let cid = empty_leaky_cid(&mut store);
    let mut leaky = pull(&store, &cid);
    let data = "foo".as_bytes();
    let data_cid = put_data(&mut store, data);
    leaky.add("/bar", &data_cid, None).unwrap();
    let link = leaky.cat("/bar").unwrap();
    let get_data = store.blocks[&link.to_bytes()].clone();
    assert_eq!(data, get_data.as_slice());
}

#[test]
fn add_ls() {
    let mut store = Store::default();
    let cid = empty_leaky_cid(&mut store);
    let mut leaky = pull(&store, &cid);
    let data = raw_cid("foo".as_bytes());
    leaky.add("/bar", &data, None).unwrap();
    let links = leaky.ls("/").unwrap();
    assert_eq!(links.len(), 1);
}

#[test]
fn add_deep() {
    let mut store = Store::default();
    let cid = empty_leaky_cid(&mut store);
    let mut leaky = pull(&store, &cid);
    let data = raw_cid("foo".as_bytes());
    leaky.add("/foo/bar/buzz", &data, None).unwrap();
    assert_eq!(leaky.ls("/foo/bar").unwrap()[0].0, "buzz");
}

#[test]
fn add_rm() {
    let mut store = Store::default();
    let cid = empty_leaky_cid(&mut store);
    let mut leaky = pull(&store, &cid);
    let data = raw_cid("foo".as_bytes());
    leaky.add("/foo/bar", &data, None).unwrap();
    leaky.rm("/foo/bar").unwrap();
}

#[test]
fn add_pull_ls() {
    let mut store = Store::default();
    let cid = empty_leaky_cid(&mut store);
    let mut leaky = pull(&store, &cid);
    let data = raw_cid("foo".as_bytes());
    leaky.add("/bar", &data, None).unwrap();
    push(&mut leaky, &mut store);
    let cid = leaky.cid().unwrap();
    let leaky = pull(&store, &cid);
    assert_eq!(leaky.ls("/").unwrap().len(), 1);
}

#[test]
fn add_add_deep() {
    let mut store = Store::default();
    let cid = empty_leaky_cid(&mut store);
    let mut leaky = pull(&store, &cid);
    let data = raw_cid("foo".as_bytes());
    leaky.add("/foo/bar", &data, None).unwrap();
    let data = raw_cid("bang".as_bytes());
    leaky.add("/foo/bug", &data, None).unwrap();
    assert_eq!(leaky.ls("/foo").unwrap().len(), 2);
}

#[test]
fn init_push_add_tag_push_pull_scenario() {
    let mut store = Store::default();
    let mut leaky = Leaky::new();
    leaky.init().unwrap();
    let data = put_data(&mut store, "hi".as_bytes());
    leaky.add("/a.txt", &data, None).unwrap();
    let mut tag = Object::empty();
    tag.insert("k".to_string(), Ipld::String("v".to_string()));
    leaky.tag("/a.txt", &tag).unwrap();
    push(&mut leaky, &mut store);
    let root = store.root.clone().unwrap();
    let fresh = pull(&store, &root);
    let entries = fresh.ls("/").unwrap();
    assert_eq!(entries.len(), 1);
    assert_eq!(entries[0].0, "a.txt");
    let object = entries[0].2.as_ref().unwrap();
    assert_eq!(object.get("k"), Some(Ipld::String("v".to_string())));
    let link = fresh.cat("/a.txt").unwrap();
    assert_eq!(store.blocks[&link.to_bytes()], "hi".as_bytes().to_vec());
}

#[test]
fn push_links_manifest_to_previous_root() {
    let mut store = Store::default();
    let mut leaky = Leaky::new();
    leaky.init().unwrap();
    let before = leaky.cid().unwrap();
    push(&mut leaky, &mut store);
    assert_eq!(leaky.manifest().unwrap().previous(), &before);
    for (cid, node) in leaky.block_cache().blocks() {
        let fetched = node_from_block(&store.blocks[&cid.to_bytes()]);
        assert_eq!(fetched.block_cid(), node.block_cid());
    }
}

#[test]
fn stale_push_is_refused_and_state_kept() {
    let mut leaky = Leaky::new();
    leaky.init().unwrap();
    let plan = leaky.prepare_push().unwrap();
    leaky.add("/x", &raw_cid(b"x"), None).unwrap();
    let cid = leaky.cid().unwrap();
    assert!(matches!(leaky.commit_push(plan), Err(LeakyError::StalePush)));
    assert_eq!(leaky.cid().unwrap(), cid);
}

#[test]
fn pull_rejects_node_under_wrong_cid() {
    let mut leaky = Leaky::new();
    leaky.init().unwrap();
    let manifest = leaky.manifest().unwrap();
    let cid = leaky.cid().unwrap();
    let mut other = Node::new();
    other.put_link("x", &raw_cid(b"x"));
    let mut fresh = Leaky::new();
    let r = fresh.pull(cid, manifest, vec![(raw_cid(b"y"), other)]);
    assert!(matches!(r, Err(LeakyError::CidMismatch(_, _))));
    assert!(fresh.cid().is_err());
}

#[test]
fn load_checks_recorded_cid() {
    let mut leaky = Leaky::new();
    leaky.init().unwrap();
    let manifest = leaky.manifest().unwrap();
    let cid = leaky.cid().unwrap();
    let cache = leaky.block_cache().clone();
    let mut loaded = Leaky::new();
    assert!(matches!(loaded.load(raw_cid(b"z"), manifest.clone(), cache.clone()), Err(LeakyError::CidMismatch(_, _))));
    loaded.load(cid.clone(), manifest, cache).unwrap();
    assert_eq!(loaded.cid().unwrap(), cid);
}
