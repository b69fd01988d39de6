use gnew::object::{Blob, Tree, Commit, CommitInfo};
use gnew::serialize::{serialize_blob, deserialize_blob, serialize_tree, deserialize_tree,
    serialize_commit, deserialize_commit};
use gnew::store::Store;
use gnew::repository::Repository;

#[test]
fn serde_blob() {
    let mut b1 = Blob::new(b"hello world".to_vec());
    let obj = serialize_blob(&mut b1);
    assert_eq!(obj, b"blob\0hello world".to_vec());
    let b2 = deserialize_blob(&obj).unwrap();
    assert_eq!(b1, b2);
}

#[test]
fn serde_tree() {
    let mut t1 = Tree::new();
    let mut bar = Blob::new(b"bar".to_vec());
    let mut foo = Blob::new(b"foo".to_vec());
    serialize_blob(&mut foo);
    serialize_blob(&mut bar);
    t1.add_blob(bar.hash(), b"bar.txt".to_vec());
    t1.add_blob(foo.hash(), b"foo.txt".to_vec());
    let obj = serialize_tree(&mut t1);
    let mut expected = b"tree\0blob bar.txt\0".to_vec();
    expected.extend_from_slice(&bar.hash().to_hex());
    expected.extend_from_slice(b"blob foo.txt\0");
    expected.extend_from_slice(&foo.hash().to_hex());
    assert_eq!(obj, expected);
    let t2 = deserialize_tree(&obj).unwrap();
    assert_eq!(t1, t2);
}

#[test]
fn serde_tree_sorts_either_order() {
    let mut bar = Blob::new(b"bar".to_vec());
    let mut foo = Blob::new(b"foo".to_vec());
    serialize_blob(&mut foo);
    serialize_blob(&mut bar);
    let mut t1 = Tree::new();
    t1.add_blob(bar.hash(), b"bar.txt".to_vec());
    t1.add_blob(foo.hash(), b"foo.txt".to_vec());
    let mut t2 = Tree::new();
    t2.add_blob(foo.hash(), b"foo.txt".to_vec());
    t2.add_blob(bar.hash(), b"bar.txt".to_vec());
    assert_eq!(serialize_tree(&mut t1), serialize_tree(&mut t2));
    assert_eq!(t1.hash(), t2.hash());
}

#[test]
fn serde_commit() {
    let mut c1 = Commit::new(CommitInfo {
        tree: gnew::object::Hash::new(),
        parent: Some(gnew::object::Hash::new()),
        author: b"paul".to_vec(),
        time: 1637385703000,
        msg: b"write some code".to_vec(),
    });
    let obj = serialize_commit(&mut c1);
    let mut expected = b"commit\0tree ".to_vec();
    expected.extend_from_slice(&gnew::object::Hash::new().to_hex());
    expected.extend_from_slice(b"\nparent ");
    expected.extend_from_slice(&gnew::object::Hash::new().to_hex());
    expected.extend_from_slice(b"\nauthor paul\ntime 1637385703000\n\nwrite some code\n");
    assert_eq!(obj, expected);
    let c2 = deserialize_commit(&obj).unwrap();
    assert_eq!(c1, c2);
}

#[test]
fn serde_commit_no_parent() {
    let mut c1 = Commit::new(CommitInfo {
        tree: gnew::object::Hash::new(),
        parent: None,
        author: b"paul".to_vec(),
        time: 1637385703000,
        msg: b"write some code".to_vec(),
    });
    let obj = serialize_commit(&mut c1);
    let c2 = deserialize_commit(&obj).unwrap();
    assert_eq!(c1, c2);
}

#[test]
fn read_write_blob() {
    let mut s = Store::new();
    let b1 = s.write_blob(b"test content".to_vec());
    let b2 = s.read_blob(&b1.hash()).unwrap();
    assert_eq!(b1, b2);
}

#[test]
fn store_write_twice_is_idempotent() {
    let mut s = Store::new();
    let b1 = s.write_blob(b"same".to_vec());
    let _b2 = s.write_blob(b"same".to_vec());
    let back = s.read_blob(&b1.hash()).unwrap();
    assert_eq!(back.content, b"same".to_vec());
}

#[test]
fn init_repo_test() {
    let _a1 = Repository::init();
}

#[test]
fn hash_hex_is_forty_lowercase_digits() {
    let mut s = Store::new();
    let b = s.write_blob(b"A".to_vec());
    let hex = b.hash().to_hex();
    assert_eq!(hex.len(), 40);
    for c in hex {
        assert!((b'0'..=b'9').contains(&c) || (b'a'..=b'f').contains(&c));
    }
}

#[test]
fn init_add_commit_moves_main() {
    let mut r = Repository::init();
    r.workdir.insert(b"a.txt".to_vec(), b"A".to_vec());
    r.add(&vec![b"a.txt".to_vec()]).unwrap();
    let c = r.commit(b"x".to_vec(), b"paul".to_vec(), 7).unwrap();
    let tip = r.branch(&b"main".to_vec()).unwrap();
    assert_eq!(tip, c.hash());
    let tree = r.store.read_tree(&c.tree_hash()).unwrap();
    let entries = tree.entries();
    assert_eq!(entries.len(), 1);
    assert_eq!(entries[0].name(), &b"a.txt".to_vec());
}

#[test]
fn checkout_refuses_modified_then_forces() {
    let mut r = Repository::init();
    r.workdir.insert(b"a.txt".to_vec(), b"A".to_vec());
    r.add(&vec![b"a.txt".to_vec()]).unwrap();
    let c1 = r.commit(b"x".to_vec(), b"paul".to_vec(), 7).unwrap();
    r.workdir.insert(b"a.txt".to_vec(), b"B".to_vec());
    let err = r.checkout(gnew::object::Reference::Hash(c1.hash()), false);
    assert!(matches!(err, Err(gnew::object::Error::CheckoutFailed)));
    r.checkout(gnew::object::Reference::Hash(c1.hash()), true).unwrap();
    assert_eq!(r.workdir.get(&b"a.txt".to_vec()).unwrap(), &b"A".to_vec());
}

#[test]
fn remove_untracks_by_directory_prefix() {
    let mut r = Repository::init();
    r.workdir.insert(b"src/a".to_vec(), b"1".to_vec());
    r.workdir.insert(b"source.txt".to_vec(), b"2".to_vec());
    r.add(&vec![b"src/a".to_vec(), b"source.txt".to_vec()]).unwrap();
    r.remove(&vec![b"src".to_vec()]).unwrap();
    assert!(!r.is_tracked(&b"src/a".to_vec()));
    assert!(r.is_tracked(&b"source.txt".to_vec()));
}

#[test]
fn deserialize_tree_rejects_missing_space() {
    let mut bar = Blob::new(b"bar".to_vec());
    serialize_blob(&mut bar);
    let mut good = b"tree\0blob a\0".to_vec();
    good.extend_from_slice(&bar.hash().to_hex());
    assert!(deserialize_tree(&good).is_some());
    let mut bad = b"tree\0blobXa\0".to_vec();
    bad.extend_from_slice(&bar.hash().to_hex());
    assert!(deserialize_tree(&bad).is_none());
}

#[test]
fn rev_parse_prefers_hex_over_branch() {
    let mut r = Repository::init();
    r.workdir.insert(b"a.txt".to_vec(), b"A".to_vec());
    r.add(&vec![b"a.txt".to_vec()]).unwrap();
    let c = r.commit(b"x".to_vec(), b"paul".to_vec(), 7).unwrap();
    let hex = c.hash().to_hex();
    let by_hex = r.rev_parse(&hex).unwrap();
    assert_eq!(by_hex, c.hash());
    let by_branch = r.rev_parse(&b"main".to_vec()).unwrap();
    assert_eq!(by_branch, c.hash());
    assert!(r.rev_parse(&b"nosuch".to_vec()).is_err());
}

#[test]
fn checkout_succeeds_on_clean_worktree() {
    let mut r = Repository::init();
    r.workdir.insert(b"a.txt".to_vec(), b"A".to_vec());
    r.add(&vec![b"a.txt".to_vec()]).unwrap();
    let c1 = r.commit(b"x".to_vec(), b"paul".to_vec(), 7).unwrap();
    r.checkout(gnew::object::Reference::Hash(c1.hash()), false).unwrap();
    assert_eq!(r.workdir.get(&b"a.txt".to_vec()).unwrap(), &b"A".to_vec());
    assert!(r.is_tracked(&b"a.txt".to_vec()));
}
