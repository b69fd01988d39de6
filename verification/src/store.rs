//! The write-once, content-addressed object store, modelled as a map from
//! digest to serialized bytes.  Reads are validated: the bytes must parse
//! and re-hash to the requested name.

use vstd::prelude::*;
use crate::bytemap::ByteMap;
use crate::bytes::copy_range;
use crate::digest::digest_of;
use crate::object::{Blob, Tree, Commit, Error, TreeEntryV};
use vstd::seq_lib::group_to_multiset_ensures;
use crate::serialize::{
    entry_bytes,
    entry_bytes_fn,
    entry_le_fn,
    lemma_entry_le_total_ordering,
    lemma_parse_entries_of_concat_pub,
    lemma_commit_round_trip,
    tree_prefix,
    commit_prefix,
    spec_commit_payload,
    CommitFields,
    serialize_blob,
    serialize_tree,
    serialize_commit,
    deserialize_blob,
    deserialize_tree,
    deserialize_commit,
    spec_parse_blob,
    spec_parse_tree,
    spec_parse_commit,
    spec_serialize_blob,
    spec_serialize_tree,
    spec_serialize_commit,
};

verus! {

/// What an object names: the hashes a stored byte string refers to.
/// A tree refers to each entry's hash; a commit to its tree and parent.
pub open spec fn object_refs(bytes: Seq<u8>) -> Set<Seq<u8>> {
    match spec_parse_tree(bytes) {
        Some(es) => Set::new(
            |h: Seq<u8>| exists|i: int| 0 <= i < es.len() && (#[trigger] es[i]).hash == h,
        ),
        None => match spec_parse_commit(bytes) {
            Some(f) => match f.parent {
                Some(p) => Set::empty().insert(f.tree).insert(p),
                None => Set::empty().insert(f.tree),
            },
            None => Set::empty(),
        },
    }
}

/// Every object in the store names only objects in the store.
pub open spec fn store_closed(m: Map<Seq<u8>, Seq<u8>>) -> bool {
    forall|k: Seq<u8>|
        m.contains_key(k) ==> (#[trigger] object_refs(m[k])).subset_of(m.dom())
}

/// `to` is reachable from `from` in at most `n` reference steps.
pub open spec fn reaches(m: Map<Seq<u8>, Seq<u8>>, from: Seq<u8>, to: Seq<u8>, n: nat) -> bool
    decreases n,
{
    from == to || (n > 0 && m.contains_key(from) && exists|mid: Seq<u8>|
        (#[trigger] object_refs(m[from]).contains(mid)) && reaches(m, mid, to, (n - 1) as nat))
}

/// In a closed store, everything reachable from a present object is present.
pub proof fn lemma_closed_reachable(m: Map<Seq<u8>, Seq<u8>>, from: Seq<u8>, to: Seq<u8>, n: nat)
    requires
        store_closed(m),
        m.contains_key(from),
        reaches(m, from, to, n),
    ensures
        m.contains_key(to),
    decreases n,
{
    if from != to {
        let mid = choose|mid: Seq<u8>|
            (#[trigger] object_refs(m[from]).contains(mid)) && reaches(m, mid, to, (n - 1) as nat);
        assert(m.dom().contains(mid));
        lemma_closed_reachable(m, mid, to, (n - 1) as nat);
    }
}

/// The store a single write leaves behind: a no-op when the name exists.
pub open spec fn store_after_write(
    m: Map<Seq<u8>, Seq<u8>>,
    h: Seq<u8>,
    bytes: Seq<u8>,
) -> Map<Seq<u8>, Seq<u8>> {
    if m.contains_key(h) {
        m
    } else {
        m.insert(h, bytes)
    }
}

/// Writing the same object twice leaves exactly the store one write leaves.
pub proof fn lemma_store_write_idempotent(m: Map<Seq<u8>, Seq<u8>>, h: Seq<u8>, bytes: Seq<u8>)
    ensures
        store_after_write(store_after_write(m, h, bytes), h, bytes) == store_after_write(
            m,
            h,
            bytes,
        ),
{
}

/// A serialized blob names nothing.
pub proof fn lemma_blob_obj_refs(content: Seq<u8>)
    ensures
        object_refs(spec_serialize_blob(content)) == Set::<Seq<u8>>::empty(),
{
    let bytes = spec_serialize_blob(content);
    assert(!tree_prefix().is_prefix_of(bytes)) by {
        assert(bytes[0] == 98);
        assert(tree_prefix()[0] == 116);
        if tree_prefix().is_prefix_of(bytes) {
            assert(bytes.subrange(0, 5)[0] == bytes[0]);
        }
    }
    assert(!commit_prefix().is_prefix_of(bytes)) by {
        assert(commit_prefix()[0] == 99);
        if commit_prefix().is_prefix_of(bytes) {
            assert(bytes.subrange(0, 7)[0] == bytes[0]);
        }
    }
}

/// A serialized tree of well-formed entries names only its entries' hashes.
pub proof fn lemma_tree_obj_refs(es: Seq<TreeEntryV>)
    requires
        forall|k: int| 0 <= k < es.len() ==> crate::object::tree_entry_wf(#[trigger] es[k]),
    ensures
        forall|h: Seq<u8>|
            object_refs(spec_serialize_tree(es)).contains(h) ==> exists|i: int|
                0 <= i < es.len() && (#[trigger] es[i]).hash == h,
{
    broadcast use group_to_multiset_ensures;

    let bs0 = es.map_values(entry_bytes_fn());
    lemma_entry_le_total_ordering();
    bs0.lemma_sort_by_ensures(entry_le_fn());
    let bs = bs0.sort_by(entry_le_fn());
    let es2 = Seq::new(
        bs.len(),
        |i: int|
            {
                let j = choose|j: int| 0 <= j < es.len() && entry_bytes(#[trigger] es[j]) == bs[i];
                es[j]
            },
    );
    assert forall|i: int| #![trigger bs[i]] 0 <= i < bs.len() implies exists|j: int|
        0 <= j < es.len() && entry_bytes(#[trigger] es[j]) == bs[i] by {
        assert(bs.to_multiset().contains(bs[i]));
        assert(bs0.to_multiset().contains(bs[i]));
        assert(bs0.contains(bs[i]));
        let j = choose|j: int| 0 <= j < bs0.len() && bs0[j] == bs[i];
        assert(entry_bytes(es[j]) == bs[i]);
    }
    assert forall|i: int|
        0 <= i < es2.len() implies crate::object::tree_entry_wf(#[trigger] es2[i]) && (exists|
        j: int,
    | 0 <= j < es.len() && #[trigger] es[j] == es2[i]) && entry_bytes(es2[i]) == bs[i] by {
        let j = choose|j: int| 0 <= j < es.len() && entry_bytes(#[trigger] es[j]) == bs[i];
        assert(es2[i] == es[j]);
    }
    assert(es2.map_values(entry_bytes_fn()) =~= bs);
    lemma_parse_entries_of_concat_pub(es2);
    let obj = spec_serialize_tree(es);
    assert(obj == tree_prefix() + bs.flatten());
    assert(tree_prefix().is_prefix_of(obj)) by {
        assert(obj.subrange(0, 5) =~= tree_prefix());
    }
    assert(obj.skip(5) =~= bs.flatten());
    assert(spec_parse_tree(obj) == Some(es2));
    assert forall|h: Seq<u8>| object_refs(obj).contains(h) implies exists|i: int|
        0 <= i < es.len() && (#[trigger] es[i]).hash == h by {
        let i = choose|i: int| 0 <= i < es2.len() && (#[trigger] es2[i]).hash == h;
        let j = choose|j: int| 0 <= j < es.len() && #[trigger] es[j] == es2[i];
    }
}

/// A serialized commit names only its tree and parent hashes.
pub proof fn lemma_commit_obj_refs(c: crate::object::CommitV)
    requires
        c.tree.len() == 20,
        c.parent matches Some(p) ==> p.len() == 20,
        !c.author.contains(10u8),
        !c.msg.contains(10u8),
        i64::MIN <= c.time <= i64::MAX,
    ensures
        forall|h: Seq<u8>|
            object_refs(spec_serialize_commit(c)).contains(h) ==> h == c.tree || Some(h)
                == c.parent,
{
    let obj = spec_serialize_commit(c);
    lemma_commit_round_trip(c.tree, c.parent, c.author, c.time, c.msg);
    assert(spec_parse_commit(obj) == Some(
        CommitFields {
            tree: c.tree,
            parent: c.parent,
            author: c.author,
            time: c.time,
            msg: c.msg,
        },
    ));
    assert(!tree_prefix().is_prefix_of(obj)) by {
        assert(obj[0] == 99);
        assert(tree_prefix()[0] == 116);
        if tree_prefix().is_prefix_of(obj) {
            assert(obj.subrange(0, 5)[0] == obj[0]);
        }
    }
}

pub struct Store {
    pub objects: ByteMap<Vec<u8>>,
}

impl View for Store {
    type V = Map<Seq<u8>, Seq<u8>>;

    open spec fn view(&self) -> Map<Seq<u8>, Seq<u8>> {
        self.objects@
    }
}

impl Store {
    /// Names are digests of the bytes they file.
    pub open spec fn wf(&self) -> bool {
        &&& self.objects.wf()
        &&& forall|k: Seq<u8>|
            self@.contains_key(k) ==> digest_of(#[trigger] self@[k]) == k && k.len() == 20
    }

    pub fn new() -> (r: Store)
        ensures
            r@ == Map::<Seq<u8>, Seq<u8>>::empty(),
            r.wf(),
            r.objects.pairs@.len() == 0,
    {
        Store { objects: ByteMap::new() }
    }

    /// Files `obj` under its digest; a no-op when the name already exists.
    pub fn write_object(&mut self, hash: &crate::object::Hash, obj: Vec<u8>)
        requires
            old(self).wf(),
            hash.wf(),
            hash@ == digest_of(obj@),
        ensures
            final(self).wf(),
            final(self)@ == store_after_write(old(self)@, hash@, obj@),
    {
        if !self.objects.contains_key(hash.as_bytes()) {
            self.objects.insert(hash.as_bytes().clone(), obj);
            proof {
                assert forall|k: Seq<u8>|
                    self@.contains_key(k) implies digest_of(#[trigger] self@[k]) == k && k.len()
                    == 20 by {
                    if k != hash@ {
                        assert(old(self)@.contains_key(k));
                    }
                }
            }
        }
    }

    pub fn contains(&self, hash: &crate::object::Hash) -> (r: bool)
        requires
            self.wf(),
        ensures
            r == self@.contains_key(hash@),
    {
        self.objects.contains_key(hash.as_bytes())
    }

    /// The raw bytes filed under a name; `ObjectNotFound` when absent.
    pub fn read_object(&self, hash: &crate::object::Hash) -> (r: Result<Vec<u8>, Error>)
        requires
            self.wf(),
        ensures
            match r {
                Ok(b) => self@.contains_key(hash@) && b@ == self@[hash@],
                Err(e) => !self@.contains_key(hash@) && e is ObjectNotFound,
            },
    {
        match self.objects.get(hash.as_bytes()) {
            Some(b) => Ok(copy_range(b, 0, b.len())),
            None => Err(Error::ObjectNotFound),
        }
    }

    /// Serializes a blob, stamps its hash, and files it.
    pub fn write_blob(&mut self, content: Vec<u8>) -> (b: Blob)
        requires
            old(self).wf(),
        ensures
            final(self).wf(),
            b@.content == content@,
            b@.hash == digest_of(spec_serialize_blob(content@)),
            final(self)@ == store_after_write(
                old(self)@,
                b@.hash,
                spec_serialize_blob(content@),
            ),
    {
        let mut b = Blob::new(content);
        let obj = serialize_blob(&mut b);
        let h = b.hash();
        self.write_object(&h, obj);
        b
    }

    /// Serializes a tree, stamps its hash, and files it.
    pub fn write_tree_obj(&mut self, tree: &mut Tree)
        requires
            old(self).wf(),
        ensures
            final(self).wf(),
            final(tree)@.entries == old(tree)@.entries,
            final(tree)@.hash == digest_of(spec_serialize_tree(old(tree)@.entries)),
            final(self)@ == store_after_write(
                old(self)@,
                final(tree)@.hash,
                spec_serialize_tree(old(tree)@.entries),
            ),
    {
        let obj = serialize_tree(tree);
        let h = tree.hash();
        self.write_object(&h, obj);
    }

    /// Serializes a commit, stamps its hash, and files it.
    pub fn write_commit_obj(&mut self, commit: &mut Commit)
        requires
            old(self).wf(),
        ensures
            final(self).wf(),
            final(commit)@.tree == old(commit)@.tree,
            final(commit)@.parent == old(commit)@.parent,
            final(commit)@.author == old(commit)@.author,
            final(commit)@.time == old(commit)@.time,
            final(commit)@.msg == old(commit)@.msg,
            final(commit)@.hash == digest_of(spec_serialize_commit(old(commit)@)),
            final(self)@ == store_after_write(
                old(self)@,
                final(commit)@.hash,
                spec_serialize_commit(old(commit)@),
            ),
    {
        let obj = serialize_commit(commit);
        let h = commit.hash();
        self.write_object(&h, obj);
    }

    /// Reads and validates the blob filed under `hash`.
    pub fn read_blob(&self, hash: &crate::object::Hash) -> (r: Result<Blob, Error>)
        requires
            self.wf(),
        ensures
            match r {
                Ok(b) => self@.contains_key(hash@) && spec_parse_blob(self@[hash@]) == Some(
                    b@.content,
                ) && b@.hash == hash@,
                Err(e) => match e {
                    Error::ObjectNotFound => !self@.contains_key(hash@),
                    Error::ObjectCorrupted => self@.contains_key(hash@) && spec_parse_blob(
                        self@[hash@],
                    ) is None,
                    _ => false,
                },
            },
    {
        let obj = match self.read_object(hash) {
            Ok(o) => o,
            Err(e) => {
                return Err(e);
            },
        };
        match deserialize_blob(&obj) {
            Some(b) => {
                proof {
                    assert(digest_of(self@[hash@]) == hash@);
                }
                Ok(b)
            },
            None => Err(Error::ObjectCorrupted),
        }
    }

    /// Reads and validates the tree filed under `hash`.
    pub fn read_tree(&self, hash: &crate::object::Hash) -> (r: Result<Tree, Error>)
        requires
            self.wf(),
        ensures
            match r {
                Ok(t) => self@.contains_key(hash@) && spec_parse_tree(self@[hash@]) == Some(
                    t@.entries,
                ) && t@.hash == hash@,
                Err(e) => match e {
                    Error::ObjectNotFound => !self@.contains_key(hash@),
                    Error::ObjectCorrupted => self@.contains_key(hash@) && spec_parse_tree(
                        self@[hash@],
                    ) is None,
                    _ => false,
                },
            },
    {
        let obj = match self.read_object(hash) {
            Ok(o) => o,
            Err(e) => {
                return Err(e);
            },
        };
        match deserialize_tree(&obj) {
            Some(t) => {
                proof {
                    assert(digest_of(self@[hash@]) == hash@);
                }
                Ok(t)
            },
            None => Err(Error::ObjectCorrupted),
        }
    }

    /// Reads and validates the commit filed under `hash`.
    pub fn read_commit(&self, hash: &crate::object::Hash) -> (r: Result<Commit, Error>)
        requires
            self.wf(),
        ensures
            match r {
                Ok(c) => self@.contains_key(hash@) && (spec_parse_commit(
                    self@[hash@],
                ) matches Some(f) && c@.tree == f.tree && c@.parent == f.parent && c@.author
                    == f.author && c@.time == f.time && c@.msg == f.msg) && c@.hash == hash@,
                Err(e) => match e {
                    Error::ObjectNotFound => !self@.contains_key(hash@),
                    Error::ObjectCorrupted => self@.contains_key(hash@) && spec_parse_commit(
                        self@[hash@],
                    ) is None,
                    _ => false,
                },
            },
    {
        let obj = match self.read_object(hash) {
            Ok(o) => o,
            Err(e) => {
                return Err(e);
            },
        };
        match deserialize_commit(&obj) {
            Some(c) => {
                proof {
                    assert(digest_of(self@[hash@]) == hash@);
                }
                Ok(c)
            },
            None => Err(Error::ObjectCorrupted),
        }
    }

    /// The names of every stored object.
    pub fn get_objects(&self) -> (r: Vec<Vec<u8>>)
        requires
            self.wf(),
        ensures
            forall|i: int| 0 <= i < r@.len() ==> self@.contains_key((#[trigger] r@[i])@),
            forall|k: Seq<u8>|
                self@.contains_key(k) ==> exists|i: int| 0 <= i < r@.len() && (#[trigger] r@[i])@
                    == k,
    {
        proof {
            self.objects.lemma_view();
        }
        let r = self.objects.keys();
        proof {
            assert forall|i: int|
                0 <= i < r@.len() implies self@.contains_key((#[trigger] r@[i])@) by {
                assert(self@.contains_key(self.objects.pairs@[i].0@));
            }
            assert forall|k: Seq<u8>| self@.contains_key(k) implies exists|i: int|
                0 <= i < r@.len() && (#[trigger] r@[i])@ == k by {
                let j = choose|j: int|
                    0 <= j < self.objects.pairs@.len() && (#[trigger] self.objects.pairs@[j]).0@
                        == k;
                assert(r@[j]@ == k);
            }
        }
        r
    }
}

/// Whether a name list holds `k`.
pub open spec fn names_contain(s: Seq<Vec<u8>>, k: Seq<u8>) -> bool {
    exists|i: int| 0 <= i < s.len() && (#[trigger] s[i])@ == k
}

/// Copies the named objects between stores, never overwriting.
pub fn copy_objects(from: &Store, to: &mut Store, names: &Vec<Vec<u8>>)
    requires
        from.wf(),
        old(to).wf(),
        forall|i: int| 0 <= i < names@.len() ==> from@.contains_key((#[trigger] names@[i])@),
    ensures
        final(to).wf(),
        forall|k: Seq<u8>|
            final(to)@.contains_key(k) == (old(to)@.contains_key(k) || names_contain(names@, k)),
        forall|k: Seq<u8>|
            old(to)@.contains_key(k) ==> final(to)@[k] == old(to)@[k],
        forall|k: Seq<u8>|
            !old(to)@.contains_key(k) && final(to)@.contains_key(k) ==> final(to)@[k] == from@[k],
{
    let mut i: usize = 0;
    while i < names.len()
        invariant
            i <= names@.len(),
            from.wf(),
            to.wf(),
            forall|j: int| 0 <= j < names@.len() ==> from@.contains_key((#[trigger] names@[j])@),
            forall|k: Seq<u8>|
                to@.contains_key(k) == (old(to)@.contains_key(k) || names_contain(
                    names@.take(i as int),
                    k,
                )),
            forall|k: Seq<u8>| old(to)@.contains_key(k) ==> to@[k] == old(to)@[k],
            forall|k: Seq<u8>|
                !old(to)@.contains_key(k) && to@.contains_key(k) ==> to@[k] == from@[k],
        decreases names@.len() - i,
    {
        let name = &names[i];
        let h = crate::object::Hash::from_bytes(copy_range(name, 0, name.len()));
        proof {
            assert(name@.subrange(0, name@.len() as int) =~= name@);
            assert(h@ == names@[i as int]@);
            assert(from@.contains_key(h@));
            assert(from.wf());
            assert(digest_of(from@[h@]) == h@);
            assert(h@.len() == 20);
        }
        match from.objects.get(name) {
            Some(bytes) => {
                let b = copy_range(bytes, 0, bytes.len());
                proof {
                    assert(bytes@.subrange(0, bytes@.len() as int) =~= bytes@);
                    assert(b@ == from@[h@]);
                }
                to.write_object(&h, b);
            },
            None => {
                proof {
                    assert(false);
                }
            },
        }
        proof {
            assert forall|k: Seq<u8>|
                to@.contains_key(k) == (old(to)@.contains_key(k) || names_contain(
                    names@.take(i + 1),
                    k,
                )) by {
                assert(names@.take(i + 1) =~= names@.take(i as int).push(names@[i as int]));
                if names_contain(names@.take(i + 1), k) {
                    let j = choose|j: int|
                        0 <= j < names@.take(i + 1).len() && (#[trigger] names@.take(i + 1)[j])@
                            == k;
                    if j < i {
                        assert(names_contain(names@.take(i as int), k));
                    } else {
                        assert(k == names@[i as int]@);
                    }
                } else {
                    assert(!names_contain(names@.take(i as int), k)) by {
                        if names_contain(names@.take(i as int), k) {
                            let j = choose|j: int|
                                0 <= j < names@.take(i as int).len() && (#[trigger] names@.take(
                                    i as int,
                                )[j])@ == k;
                            assert(names@.take(i + 1)[j]@ == k);
                        }
                    }
                    assert(k != names@[i as int]@) by {
                        if k == names@[i as int]@ {
                            assert(names@.take(i + 1)[i as int]@ == k);
                        }
                    }
                }
            }
        }
        i = i + 1;
    }
    proof {
        assert(names@.take(names@.len() as int) =~= names@);
    }
}

} // verus!
