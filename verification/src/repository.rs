//! The repository facade: branch and HEAD state, the tracklist, the object
//! store, and a snapshot of the working directory, with every operation of
//! the engine — status, tree writing, commit, checkout, diff, merge and
//! peer synchronization.

use vstd::prelude::*;
use crate::bytemap::ByteMap;
use crate::bytes::{bytes_eq, copy_range, find_byte, match_at, hex_decode};
use crate::digest::digest_of;
use crate::files::{
    spec_files_of,
    files_map,
    files_to_map,
    hash_file,
    diff_post,
    valid_change,
    change_needed,
    entry_matches,
};
use crate::history::{
    commit_in_store,
    spec_common_ancestor,
    into_common_ancestor,
    is_ancestor,
    log_from,
};
use crate::object::{
    Blob,
    Commit,
    CommitInfo,
    CommitV,
    Change,
    ChangeEntry,
    Error,
    File,
    FileV,
    FileStatus,
    MergeStrategy,
    Reference,
    ReferenceV,
    Tree,
    TreeEntry,
    TreeEntryV,
    TreeEntryKind,
    tree_entry_wf,
    view_opt_hash,
};
use crate::serialize::{
    spec_parse_blob,
    spec_parse_tree,
    spec_parse_commit,
    spec_serialize_blob,
    spec_serialize_tree,
    spec_serialize_commit,
};
use crate::store::{Store, store_closed, store_after_write, object_refs, names_contain};

verus! {

/// A snapshot of the files the user can see: worktree-relative path to
/// content.
pub type WorkDir = ByteMap<Vec<u8>>;

/// The per-path status of the worktree against a reference tree.
pub type Status = ByteMap<FileStatus>;

pub struct Repository {
    pub head: Reference,
    pub branches: ByteMap<crate::object::Hash>,
    pub tracklist: Vec<Vec<u8>>,
    pub store: Store,
    pub workdir: WorkDir,
}

/// The mathematical state of a repository.
pub struct RepoV {
    pub head: ReferenceV,
    pub branches: Map<Seq<u8>, Seq<u8>>,
    pub tracklist: Seq<Seq<u8>>,
    pub store: Map<Seq<u8>, Seq<u8>>,
    pub workdir: Map<Seq<u8>, Seq<u8>>,
}

impl View for Repository {
    type V = RepoV;

    open spec fn view(&self) -> RepoV {
        RepoV {
            head: self.head@,
            branches: self.branches@,
            tracklist: self.tracklist@.map_values(|p: Vec<u8>| p@),
            store: self.store@,
            workdir: self.workdir@,
        }
    }
}

/// The paths of a tracklist are pairwise distinct.
pub open spec fn distinct_paths(s: Seq<Seq<u8>>) -> bool {
    forall|i: int, j: int| 0 <= i < j < s.len() ==> s[i] != s[j]
}

impl Repository {
    /// The repository invariant: a content-addressed, reference-closed
    /// store; unique branch names, tracklist paths and worktree paths; a
    /// HEAD that, when detached, names a stored object; and branch tips that
    /// name stored objects.
    pub open spec fn wf(&self) -> bool {
        &&& self.store.wf()
        &&& store_closed(self@.store)
        &&& self.branches.wf()
        &&& self.workdir.wf()
        &&& distinct_paths(self@.tracklist)
        &&& (self@.head matches ReferenceV::Hash(h) ==> self@.store.contains_key(h))
        &&& forall|b: Seq<u8>|
            self@.branches.contains_key(b) ==> self@.store.contains_key(
                #[trigger] self@.branches[b],
            )
        &&& forall|p: Seq<u8>|
            #[trigger] self@.workdir.contains_key(p) ==> !p.contains(0u8)
    }

    /// Creates an empty repository: HEAD on the newborn branch `main`, no
    /// branches, objects or tracked files.
    pub fn init() -> (r: Repository)
        ensures
            r.wf(),
            r@.head == ReferenceV::Branch(seq![109u8, 97u8, 105u8, 110u8]),
            r@.branches == Map::<Seq<u8>, Seq<u8>>::empty(),
            r@.tracklist == Seq::<Seq<u8>>::empty(),
            r@.store == Map::<Seq<u8>, Seq<u8>>::empty(),
            r@.workdir == Map::<Seq<u8>, Seq<u8>>::empty(),
    {
        let mut name: Vec<u8> = Vec::new();
        name.push(109);
        name.push(97);
        name.push(105);
        name.push(110);
        proof {
            assert(name@ =~= seq![109u8, 97u8, 105u8, 110u8]);
        }
        let r = Repository {
            head: Reference::Branch(name),
            branches: ByteMap::new(),
            tracklist: Vec::new(),
            store: Store::new(),
            workdir: ByteMap::new(),
        };
        proof {
            assert(r@.tracklist =~= Seq::<Seq<u8>>::empty());
        }
        r
    }

    pub fn head(&self) -> (r: &Reference)
        ensures
            r@ == self@.head,
    {
        &self.head
    }

    pub fn branches(&self) -> (r: &ByteMap<crate::object::Hash>)
        ensures
            r@ == self@.branches,
    {
        &self.branches
    }

    /// The tip of a branch; `ReferenceNotFound` when no such branch exists.
    pub fn branch(&self, name: &Vec<u8>) -> (r: Result<crate::object::Hash, Error>)
        requires
            self.wf(),
        ensures
            match r {
                Ok(h) => self@.branches.contains_key(name@) && h@ == self@.branches[name@],
                Err(e) => !self@.branches.contains_key(name@) && e is ReferenceNotFound,
            },
    {
        match self.branches.get(name) {
            Some(h) => Ok(h.clone()),
            None => Err(Error::ReferenceNotFound),
        }
    }

    /// What a reference points at: a hash itself, a branch its tip.
    pub open spec fn spec_resolve(&self, r: ReferenceV) -> Result<Seq<u8>, Error> {
        match r {
            ReferenceV::Hash(h) => Ok(h),
            ReferenceV::Branch(b) => if self@.branches.contains_key(b) {
                Ok(self@.branches[b])
            } else {
                Err(Error::ReferenceNotFound)
            },
        }
    }

    pub fn resolve_reference(&self, r: &Reference) -> (res: Result<crate::object::Hash, Error>)
        requires
            self.wf(),
        ensures
            match res {
                Ok(h) => self.spec_resolve(r@) == Ok::<Seq<u8>, Error>(h@),
                Err(e) => self.spec_resolve(r@) == Err::<Seq<u8>, Error>(e),
            },
    {
        match r {
            Reference::Hash(h) => Ok(h.clone()),
            Reference::Branch(b) => self.branch(b),
        }
    }

    /// The hash HEAD points at; fails on a newborn branch.
    pub fn head_hash(&self) -> (r: Result<crate::object::Hash, Error>)
        requires
            self.wf(),
        ensures
            match r {
                Ok(h) => self.spec_resolve(self@.head) == Ok::<Seq<u8>, Error>(h@) && h.wf()
                    && self@.store.contains_key(h@),
                Err(e) => self.spec_resolve(self@.head) == Err::<Seq<u8>, Error>(e),
            },
    {
        let head = self.head.clone();
        let r = self.resolve_reference(&head);
        proof {
            match &r {
                Ok(h) => {
                    match self@.head {
                        ReferenceV::Hash(x) => {
                            assert(self@.store.contains_key(h@));
                        },
                        ReferenceV::Branch(b) => {
                            assert(self@.store.contains_key(self@.branches[b]));
                        },
                    }
                    assert(self@.store.contains_key(h@));
                    assert(digest_of(self@.store[h@]) == h@ && h@.len() == 20);
                },
                Err(_) => {},
            }
        }
        r
    }

    fn set_head(&mut self, head: Reference)
        requires
            old(self).wf(),
            head@ matches ReferenceV::Hash(h) ==> old(self)@.store.contains_key(h),
        ensures
            final(self).wf(),
            final(self)@ == (RepoV { head: head@, ..old(self)@ }),
    {
        self.head = head;
    }

    fn set_branch(&mut self, name: &Vec<u8>, hash: crate::object::Hash)
        requires
            old(self).wf(),
            old(self)@.store.contains_key(hash@),
        ensures
            final(self).wf(),
            final(self)@ == (RepoV {
                branches: old(self)@.branches.insert(name@, hash@),
                ..old(self)@
            }),
    {
        self.branches.insert(copy_range(name, 0, name.len()), hash);
        proof {
            assert(name@.subrange(0, name@.len() as int) =~= name@);
            assert forall|b: Seq<u8>|
                self@.branches.contains_key(b) implies self@.store.contains_key(
                #[trigger] self@.branches[b],
            ) by {
                if b != name@ {
                    assert(old(self)@.branches.contains_key(b));
                }
            }
        }
    }

    /// Creates a branch at the current HEAD commit, if there is one, and
    /// moves HEAD to the branch.  `BranchExists` when the name is taken.
    pub fn create_branch(&mut self, name: &Vec<u8>) -> (r: Result<(), Error>)
        requires
            old(self).wf(),
        ensures
            final(self).wf(),
            match r {
                Ok(()) => !old(self)@.branches.contains_key(name@) && final(self)@ == (RepoV {
                    head: ReferenceV::Branch(name@),
                    branches: match old(self).spec_resolve(old(self)@.head) {
                        Ok(h) => old(self)@.branches.insert(name@, h),
                        Err(_) => old(self)@.branches,
                    },
                    ..old(self)@
                }),
                Err(e) => e is BranchExists && old(self)@.branches.contains_key(name@)
                    && final(self)@ == old(self)@,
            },
    {
        if self.branches.contains_key(name) {
            return Err(Error::BranchExists);
        }
        match self.head_hash() {
            Ok(h) => {
                self.set_branch(name, h);
            },
            Err(_) => {},
        }
        self.set_head(Reference::Branch(copy_range(name, 0, name.len())));
        proof {
            assert(name@.subrange(0, name@.len() as int) =~= name@);
        }
        Ok(())
    }

    /// Maps `HEAD`, a branch name, or a 40-digit hex string to a hash: the
    /// literal `HEAD` resolves the current head; a 40-character hexadecimal
    /// string is taken as a hash, shadowing any branch of that name; any
    /// other name is looked up among the branches.  Every failure is
    /// `RevisionNotFound`.
    pub fn rev_parse(&self, r: &Vec<u8>) -> (res: Result<crate::object::Hash, Error>)
        requires
            self.wf(),
        ensures
            match res {
                Ok(h) => h.wf(),
                Err(e) => e is RevisionNotFound,
            },
            r@ == seq![72u8, 69u8, 65u8, 68u8] ==> (match res {
                Ok(h) => self.spec_resolve(self@.head) == Ok::<Seq<u8>, Error>(h@),
                Err(_) => self.spec_resolve(self@.head) is Err,
            }),
            r@ != seq![72u8, 69u8, 65u8, 68u8] && r@.len() == 40 && hex_decode(r@) is Some
                ==> (res matches Ok(h) && hex_decode(r@) == Some(h@)),
            r@ != seq![72u8, 69u8, 65u8, 68u8] && !(r@.len() == 40 && hex_decode(r@) is Some)
                ==> (match res {
                Ok(h) => self@.branches.contains_key(r@) && h@ == self@.branches[r@],
                Err(_) => !self@.branches.contains_key(r@),
            }),
    {
        let mut head_lit: Vec<u8> = Vec::new();
        head_lit.push(72);
        head_lit.push(69);
        head_lit.push(65);
        head_lit.push(68);
        proof {
            assert(head_lit@ =~= seq![72u8, 69u8, 65u8, 68u8]);
        }
        if bytes_eq(r, &head_lit) {
            match self.head_hash() {
                Ok(h) => Ok(h),
                Err(_) => Err(Error::RevisionNotFound),
            }
        } else {
            match crate::object::Hash::from_hex(r) {
                Some(h) => Ok(h),
                None => match self.branch(r) {
                    Ok(h) => {
                        proof {
                            assert(self.store.wf());
                            assert(self@.store.contains_key(h@));
                            assert(digest_of(self.store@[h@]) == h@);
                            assert(h@.len() == 20);
                        }
                        Ok(h)
                    },
                    Err(_) => Err(Error::RevisionNotFound),
                },
            }
        }
    }

    /// Whether a worktree-relative path is on the tracklist.
    pub fn is_tracked(&self, path: &Vec<u8>) -> (r: bool)
        ensures
            r == self@.tracklist.contains(path@),
    {
        let ghost tl = self@.tracklist;
        let mut i: usize = 0;
        while i < self.tracklist.len()
            invariant
                i <= self.tracklist@.len(),
                tl == self@.tracklist,
                forall|j: int| 0 <= j < i ==> tl[j] != path@,
            decreases self.tracklist@.len() - i,
        {
            if bytes_eq(&self.tracklist[i], path) {
                proof {
                    assert(tl[i as int] == path@);
                }
                return true;
            }
            i = i + 1;
        }
        proof {
            if tl.contains(path@) {
                let j = choose|j: int| 0 <= j < tl.len() && tl[j] == path@;
            }
        }
        false
    }

    /// The branch names, in the branch table's order.
    pub fn heads(&self) -> (r: Vec<Vec<u8>>)
        requires
            self.wf(),
        ensures
            forall|i: int| 0 <= i < r@.len() ==> self@.branches.contains_key((#[trigger] r@[i])@),
            forall|b: Seq<u8>|
                self@.branches.contains_key(b) ==> exists|i: int|
                    0 <= i < r@.len() && (#[trigger] r@[i])@ == b,
    {
        proof {
            self.branches.lemma_view();
        }
        let r = self.branches.keys();
        proof {
            assert forall|i: int|
                0 <= i < r@.len() implies self@.branches.contains_key((#[trigger] r@[i])@) by {
                assert(self@.branches.contains_key(self.branches.pairs@[i].0@));
            }
            assert forall|b: Seq<u8>| self@.branches.contains_key(b) implies exists|i: int|
                0 <= i < r@.len() && (#[trigger] r@[i])@ == b by {
                let j = choose|j: int|
                    0 <= j < self.branches.pairs@.len() && (#[trigger] self.branches.pairs@[j]).0@
                        == b;
                assert(r@[j]@ == b);
            }
        }
        r
    }

    /// Adds file paths to the tracklist, skipping ones already present.
    /// `FileNotFound` when a path is absent from the working tree.
    pub fn add(&mut self, files: &Vec<Vec<u8>>) -> (r: Result<(), Error>)
        requires
            old(self).wf(),
        ensures
            final(self).wf(),
            final(self)@.head == old(self)@.head,
            final(self)@.branches == old(self)@.branches,
            final(self)@.store == old(self)@.store,
            final(self)@.workdir == old(self)@.workdir,
            match r {
                Ok(()) => {
                    &&& forall|i: int|
                        0 <= i < files@.len() ==> old(self)@.workdir.contains_key(
                            (#[trigger] files@[i])@,
                        )
                    &&& forall|i: int|
                        0 <= i < files@.len() ==> final(self)@.tracklist.contains(
                            (#[trigger] files@[i])@,
                        )
                    &&& forall|p: Seq<u8>|
                        final(self)@.tracklist.contains(p) ==> old(self)@.tracklist.contains(p)
                            || names_contain(files@, p)
                    &&& forall|p: Seq<u8>|
                        old(self)@.tracklist.contains(p) ==> final(self)@.tracklist.contains(p)
                },
                Err(e) => e is FileNotFound && final(self)@ == old(self)@ && exists|i: int|
                    0 <= i < files@.len() && !old(self)@.workdir.contains_key(
                        (#[trigger] files@[i])@,
                    ),
            },
    {
        self.check_existence(files)?;
        let ghost tl0 = self@.tracklist;
        let mut i: usize = 0;
        while i < files.len()
            invariant
                i <= files@.len(),
                self.wf(),
                self@.head == old(self)@.head,
                self@.branches == old(self)@.branches,
                self@.store == old(self)@.store,
                self@.workdir == old(self)@.workdir,
                tl0 == old(self)@.tracklist,
                forall|j: int|
                    0 <= j < i ==> self@.tracklist.contains((#[trigger] files@[j])@),
                forall|p: Seq<u8>|
                    self@.tracklist.contains(p) ==> tl0.contains(p) || names_contain(
                        files@.take(i as int),
                        p,
                    ),
                forall|p: Seq<u8>| tl0.contains(p) ==> self@.tracklist.contains(p),
            decreases files@.len() - i,
        {
            let p = &files[i];
            let ghost tl_pre = self@.tracklist;
            if !self.is_tracked(p) {
                self.tracklist.push(copy_range(p, 0, p.len()));
                proof {
                    assert(p@.subrange(0, p@.len() as int) =~= p@);
                    assert(self@.tracklist =~= tl_pre.push(p@));
                    assert(self@.tracklist.last() == p@);
                    assert(forall|j: int|
                        0 <= j < tl_pre.len() ==> self@.tracklist[j] == tl_pre[j]);
                    assert forall|a: int, b: int|
                        0 <= a < b < self@.tracklist.len() implies self@.tracklist[a]
                        != self@.tracklist[b] by {
                        if b == self@.tracklist.len() - 1 {
                            assert(!tl_pre.contains(p@));
                            assert(tl_pre[a] != p@);
                        }
                    }
                }
            }
            proof {
                assert(self@.tracklist.contains(files@[i as int]@)) by {
                    if tl_pre.contains(p@) {
                        let j = choose|j: int| 0 <= j < tl_pre.len() && tl_pre[j] == p@;
                        assert(self@.tracklist[j] == p@);
                    } else {
                        assert(self@.tracklist.last() == p@);
                    }
                }
                assert forall|j: int|
                    0 <= j < i + 1 implies self@.tracklist.contains((#[trigger] files@[j])@) by {
                    if j < i {
                        let k = choose|k: int|
                            0 <= k < tl_pre.len() && tl_pre[k] == files@[j]@;
                        assert(self@.tracklist[k] == files@[j]@);
                    }
                }
                assert forall|p2: Seq<u8>|
                    self@.tracklist.contains(p2) implies tl0.contains(p2) || names_contain(
                    files@.take(i + 1),
                    p2,
                ) by {
                    let k = choose|k: int|
                        0 <= k < self@.tracklist.len() && self@.tracklist[k] == p2;
                    if k < tl_pre.len() {
                        assert(tl_pre.contains(p2)) by {
                            assert(tl_pre[k] == p2);
                        }
                        if !tl0.contains(p2) {
                            let w = choose|w: int|
                                0 <= w < i && (#[trigger] files@.take(i as int)[w])@ == p2;
                            assert(files@.take(i + 1)[w]@ == p2);
                        }
                    } else {
                        assert(p2 == p@);
                        assert(files@.take(i + 1)[i as int]@ == p2);
                    }
                }
                assert forall|p2: Seq<u8>| tl0.contains(p2) implies self@.tracklist.contains(
                    p2,
                ) by {
                    let k = choose|k: int| 0 <= k < tl_pre.len() && tl_pre[k] == p2;
                    assert(self@.tracklist[k] == p2);
                }
            }
            i = i + 1;
        }
        proof {
            assert(files@.take(files@.len() as int) =~= files@);
        }
        Ok(())
    }

    /// `FileNotFound` unless every path exists in the working tree.
    pub fn check_existence(&self, files: &Vec<Vec<u8>>) -> (r: Result<(), Error>)
        requires
            self.wf(),
        ensures
            match r {
                Ok(()) => forall|i: int|
                    0 <= i < files@.len() ==> self@.workdir.contains_key((#[trigger] files@[i])@),
                Err(e) => e is FileNotFound && exists|i: int|
                    0 <= i < files@.len() && !self@.workdir.contains_key((#[trigger] files@[i])@),
            },
    {
        let mut i: usize = 0;
        while i < files.len()
            invariant
                i <= files@.len(),
                self.wf(),
                forall|j: int|
                    0 <= j < i ==> self@.workdir.contains_key((#[trigger] files@[j])@),
            decreases files@.len() - i,
        {
            if !self.workdir.contains_key(&files[i]) {
                return Err(Error::FileNotFound);
            }
            i = i + 1;
        }
        Ok(())
    }

    /// Removes paths from the tracklist: a path removes itself, and every
    /// tracklist entry it prefixes as a directory (separator-terminated, so
    /// a name cannot remove a longer name it merely starts).
    #[verifier::rlimit(100)]
    pub fn remove(&mut self, files: &Vec<Vec<u8>>) -> (r: Result<(), Error>)
        requires
            old(self).wf(),
        ensures
            final(self).wf(),
            r is Ok,
            final(self)@.head == old(self)@.head,
            final(self)@.branches == old(self)@.branches,
            final(self)@.store == old(self)@.store,
            final(self)@.workdir == old(self)@.workdir,
            forall|p: Seq<u8>|
                final(self)@.tracklist.contains(p) <==> (old(self)@.tracklist.contains(p)
                    && !removed_by(p, files@)),
    {
        let ghost tl = self@.tracklist;
        let mut keep: Vec<Vec<u8>> = Vec::new();
        let mut i: usize = 0;
        while i < self.tracklist.len()
            invariant
                i <= self.tracklist@.len(),
                old(self).wf(),
                *self == *old(self),
                tl == old(self)@.tracklist,
                forall|a: int|
                    0 <= a < keep@.len() ==> exists|j: int|
                        0 <= j < i && (#[trigger] keep@[a])@ == tl[j],
                forall|a: int, b: int|
                    0 <= a < b < keep@.len() ==> (#[trigger] keep@[a])@ != (#[trigger] keep@[b])@,
                forall|a: int|
                    0 <= a < keep@.len() ==> !removed_by((#[trigger] keep@[a])@, files@),
                forall|j: int|
                    0 <= j < i && !removed_by(#[trigger] tl[j], files@) ==> exists|a: int|
                        0 <= a < keep@.len() && (#[trigger] keep@[a])@ == tl[j],
            decreases self.tracklist@.len() - i,
        {
            let p = &self.tracklist[i];
            let mut hit = false;
            let mut k: usize = 0;
            while k < files.len()
                invariant
                    k <= files@.len(),
                    old(self).wf(),
                    *self == *old(self),
                    i < self.tracklist@.len(),
                    p@ == tl[i as int],
                    tl == old(self)@.tracklist,
                    hit == exists|w: int| 0 <= w < k && removes((#[trigger] files@[w])@, p@),
                decreases files@.len() - k,
            {
                if !hit {
                    if removes_exec(&files[k], p) {
                        hit = true;
                        proof {
                            assert(removes(files@[k as int]@, p@));
                        }
                    }
                }
                k = k + 1;
            }
            let ghost keep0 = keep@;
            if !hit {
                proof {
                    assert(!removed_by(p@, files@)) by {
                        if removed_by(p@, files@) {
                            let w = choose|w: int|
                                0 <= w < files@.len() && removes((#[trigger] files@[w])@, p@);
                        }
                    }
                }
                keep.push(copy_range(p, 0, p.len()));
                proof {
                    assert(p@.subrange(0, p@.len() as int) =~= p@);
                    assert(keep@.last()@ == tl[i as int]);
                    assert(forall|a: int| 0 <= a < keep0.len() ==> keep@[a] == keep0[a]);
                    assert forall|a: int, b: int|
                        0 <= a < b < keep@.len() implies (#[trigger] keep@[a])@ != (
                    #[trigger] keep@[b])@ by {
                        if b == keep@.len() - 1 {
                            let j = choose|j: int|
                                0 <= j < i && (#[trigger] keep0[a])@ == tl[j];
                            assert(tl[j] != tl[i as int]);
                        }
                    }
                }
            }
            proof {
                assert forall|j: int|
                    0 <= j < i + 1 && !removed_by(#[trigger] tl[j], files@) implies exists|a: int|
                        0 <= a < keep@.len() && (#[trigger] keep@[a])@ == tl[j] by {
                    if j < i {
                        let a = choose|a: int|
                            0 <= a < keep0.len() && (#[trigger] keep0[a])@ == tl[j];
                        assert(keep@[a]@ == tl[j]);
                    } else {
                        assert(keep@[keep@.len() - 1]@ == tl[j]);
                    }
                }
            }
            i = i + 1;
        }
        self.tracklist = keep;
        proof {
            assert forall|p: Seq<u8>|
                #[trigger] self@.workdir.contains_key(p) implies !p.contains(0u8) by {
                assert(old(self)@.workdir.contains_key(p));
            }
            assert forall|b: Seq<u8>|
                self@.branches.contains_key(b) implies self@.store.contains_key(
                #[trigger] self@.branches[b],
            ) by {
                assert(old(self)@.branches.contains_key(b));
            }
            assert forall|a: int, b: int|
                0 <= a < b < self@.tracklist.len() implies self@.tracklist[a]
                != self@.tracklist[b] by {
                assert(keep@[a]@ != keep@[b]@);
            }
            assert forall|p: Seq<u8>| #[trigger]
                final(self)@.tracklist.contains(p) implies (old(self)@.tracklist.contains(p)
                && !removed_by(p, files@)) by {
                let a = choose|a: int|
                    0 <= a < self@.tracklist.len() && self@.tracklist[a] == p;
                let j = choose|j: int| 0 <= j < tl.len() && (#[trigger] keep@[a])@ == tl[j];
                assert(tl[j] == p);
            }
            assert forall|p: Seq<u8>|
                old(self)@.tracklist.contains(p) && !removed_by(p, files@) implies #[trigger]
                final(self)@.tracklist.contains(p) by {
                let j = choose|j: int| 0 <= j < tl.len() && tl[j] == p;
                let a = choose|a: int|
                    0 <= a < keep@.len() && (#[trigger] keep@[a])@ == tl[j];
                assert(self@.tracklist[a] == p);
            }
        }
        Ok(())
    }
}

/// The status of one path against a reference tree's file map `tf`, the
/// tracklist `tl` and the working tree `wd`.
pub open spec fn spec_status_of(
    tf: Map<Seq<u8>, Seq<u8>>,
    tl: Seq<Seq<u8>>,
    wd: Map<Seq<u8>, Seq<u8>>,
    p: Seq<u8>,
) -> FileStatus {
    if wd.contains_key(p) {
        if tf.contains_key(p) {
            if tl.contains(p) {
                if digest_of(spec_serialize_blob(wd[p])) == tf[p] {
                    FileStatus::Unmodified
                } else {
                    FileStatus::Modified
                }
            } else {
                FileStatus::Deleted
            }
        } else {
            if tl.contains(p) {
                FileStatus::Added
            } else {
                FileStatus::Untracked
            }
        }
    } else {
        if tl.contains(p) {
            FileStatus::Missing
        } else {
            FileStatus::Deleted
        }
    }
}

/// The status of every path the tree or the working tree mentions.
pub open spec fn spec_status(
    tf: Map<Seq<u8>, Seq<u8>>,
    tl: Seq<Seq<u8>>,
    wd: Map<Seq<u8>, Seq<u8>>,
) -> Map<Seq<u8>, FileStatus> {
    Map::new(
        |p: Seq<u8>| tf.contains_key(p) || wd.contains_key(p),
        |p: Seq<u8>| spec_status_of(tf, tl, wd, p),
    )
}

/// Every file is unchanged or merely absent: safe to switch away.
pub open spec fn safe_statuses(st: Map<Seq<u8>, FileStatus>) -> bool {
    forall|p: Seq<u8>|
        st.contains_key(p) ==> (#[trigger] st[p]) is Unmodified || st[p] is Missing
}

/// Every file is unchanged or untracked: clean enough to merge into.
pub open spec fn clean_statuses(st: Map<Seq<u8>, FileStatus>) -> bool {
    forall|p: Seq<u8>|
        st.contains_key(p) ==> (#[trigger] st[p]) is Unmodified || st[p] is Untracked
}

/// The files of the tree of the commit filed under `h`.
pub open spec fn spec_read_tree_files(m: Map<Seq<u8>, Seq<u8>>, h: Seq<u8>) -> Result<
    Seq<FileV>,
    Error,
> {
    if !m.contains_key(h) {
        Err(Error::ObjectNotFound)
    } else {
        match spec_parse_commit(m[h]) {
            None => Err(Error::ObjectCorrupted),
            Some(f) => if !m.contains_key(f.tree) {
                Err(Error::ObjectNotFound)
            } else {
                match spec_parse_tree(m[f.tree]) {
                    None => Err(Error::ObjectCorrupted),
                    Some(es) => spec_files_of(m, es),
                }
            },
        }
    }
}

impl Repository {
    /// The working tree status against a reference tree: per path, whether
    /// it is unchanged, modified, added, deleted, missing or untracked.
    pub fn status(&self, tree: &Tree) -> (r: Result<Status, Error>)
        requires
            self.wf(),
        ensures
            match r {
                Ok(st) => spec_files_of(self@.store, tree@.entries) matches Ok(fs) && st.wf()
                    && st@ == spec_status(files_map(fs), self@.tracklist, self@.workdir),
                Err(e) => spec_files_of(self@.store, tree@.entries) == Err::<Seq<FileV>, Error>(
                    e,
                ),
            },
    {
        let files = match tree.files(&self.store) {
            Ok(v) => v,
            Err(e) => {
                return Err(e);
            },
        };
        let tfm = files_to_map(&files);
        let ghost tf = tfm@;
        let ghost tl = self@.tracklist;
        let ghost wd = self@.workdir;
        proof {
            tfm.lemma_view();
            self.workdir.lemma_view();
        }
        let mut st: Status = ByteMap::new();
        let mut i: usize = 0;
        while i < self.workdir.len()
            invariant
                i <= self.workdir.pairs@.len(),
                self.wf(),
                tfm.wf(),
                st.wf(),
                tf == tfm@,
                tl == self@.tracklist,
                wd == self@.workdir,
                forall|j: int|
                    0 <= j < i ==> st@.contains_key((#[trigger] self.workdir.pairs@[j]).0@),
                forall|p: Seq<u8>| st@.contains_key(p) ==> wd.contains_key(p),
                forall|p: Seq<u8>|
                    st@.contains_key(p) ==> #[trigger] st@[p] == spec_status_of(tf, tl, wd, p),
            decreases self.workdir.pairs@.len() - i,
        {
            proof {
                self.workdir.lemma_view();
                tfm.lemma_view();
            }
            let p = self.workdir.key_at(i);
            let content = self.workdir.val_at(i);
            let path = copy_range(p, 0, p.len());
            proof {
                assert(p@.subrange(0, p@.len() as int) =~= p@);
                assert(wd.contains_key(path@));
                assert(wd[path@] == content@);
            }
            let on_list = self.is_tracked(&path);
            let fs = match tfm.get(&path) {
                Some(h) => {
                    if on_list {
                        let wh = hash_file(content);
                        if bytes_eq(wh.as_bytes(), h.as_bytes()) {
                            FileStatus::Unmodified
                        } else {
                            FileStatus::Modified
                        }
                    } else {
                        FileStatus::Deleted
                    }
                },
                None => {
                    if on_list {
                        FileStatus::Added
                    } else {
                        FileStatus::Untracked
                    }
                },
            };
            proof {
                assert(fs == spec_status_of(tf, tl, wd, path@));
            }
            st.insert(path, fs);
            i = i + 1;
        }
        proof {
            self.workdir.lemma_view();
        }
        // paths in the tree but not in the working tree
        let n = tfm.len();
        let mut k: usize = 0;
        while k < n
            invariant
                k <= n,
                n == tfm.pairs@.len(),
                self.wf(),
                tfm.wf(),
                st.wf(),
                tf == tfm@,
                tl == self@.tracklist,
                wd == self@.workdir,
                forall|p: Seq<u8>| wd.contains_key(p) ==> st@.contains_key(p),
                forall|j: int|
                    0 <= j < k ==> st@.contains_key((#[trigger] tfm.pairs@[j]).0@),
                forall|p: Seq<u8>|
                    st@.contains_key(p) ==> wd.contains_key(p) || tf.contains_key(p),
                forall|p: Seq<u8>|
                    st@.contains_key(p) ==> #[trigger] st@[p] == spec_status_of(tf, tl, wd, p),
            decreases n - k,
        {
            proof {
                self.workdir.lemma_view();
                tfm.lemma_view();
            }
            let p = tfm.key_at(k);
            let path = copy_range(p, 0, p.len());
            proof {
                assert(p@.subrange(0, p@.len() as int) =~= p@);
                assert(tf.contains_key(path@));
            }
            if !self.workdir.contains_key(&path) {
                let on_list = self.is_tracked(&path);
                let fs = if on_list {
                    FileStatus::Missing
                } else {
                    FileStatus::Deleted
                };
                proof {
                    assert(fs == spec_status_of(tf, tl, wd, path@));
                }
                st.insert(path, fs);
            } else {
                proof {
                    assert(st@.contains_key(path@));
                }
            }
            k = k + 1;
        }
        proof {
            tfm.lemma_view();
            self.workdir.lemma_view();
            assert forall|p: Seq<u8>|
                st@.contains_key(p) == (tf.contains_key(p) || wd.contains_key(p)) by {
                if tf.contains_key(p) {
                    let j = choose|j: int|
                        0 <= j < tfm.pairs@.len() && (#[trigger] tfm.pairs@[j]).0@ == p;
                    assert(st@.contains_key(tfm.pairs@[j].0@));
                }
                if wd.contains_key(p) {
                    assert(st@.contains_key(p));
                }
            }
            assert forall|p: Seq<u8>|
                st@.contains_key(p) implies #[trigger] st@[p] == spec_status(tf, tl, wd)[p] by {
                assert(st@[p] == spec_status_of(tf, tl, wd, p));
            }
            assert(st@ =~= spec_status(tf, tl, wd));
        }
        Ok(st)
    }

    /// `DirtyWorktree` unless every file is unchanged or untracked.
    pub fn is_clean(&self, tree: &Tree) -> (r: Result<(), Error>)
        requires
            self.wf(),
        ensures
            match r {
                Ok(()) => spec_files_of(self@.store, tree@.entries) is Ok && clean_statuses(
                    spec_status(
                        files_map(spec_files_of(self@.store, tree@.entries)->Ok_0),
                        self@.tracklist,
                        self@.workdir,
                    ),
                ),
                Err(e) => (e is DirtyWorktree && spec_files_of(self@.store, tree@.entries) is Ok
                    && !clean_statuses(
                    spec_status(
                        files_map(spec_files_of(self@.store, tree@.entries)->Ok_0),
                        self@.tracklist,
                        self@.workdir,
                    ),
                )) || spec_files_of(self@.store, tree@.entries) == Err::<Seq<FileV>, Error>(e),
            },
    {
        let st = match self.status(tree) {
            Ok(s) => s,
            Err(e) => {
                return Err(e);
            },
        };
        let clean = statuses_all(&st, true);
        if clean {
            Ok(())
        } else {
            Err(Error::DirtyWorktree)
        }
    }

    /// Whether the worktree is safe to switch away from: every file of the
    /// current HEAD tree unchanged or merely missing.
    pub open spec fn spec_safe_switch(&self) -> bool {
        match self.spec_resolve(self@.head) {
            Err(_) => false,
            Ok(h) => match spec_read_tree_files(self@.store, h) {
                Err(_) => false,
                Ok(fs) => safe_statuses(
                    spec_status(files_map(fs), self@.tracklist, self@.workdir),
                ),
            },
        }
    }

    /// Succeeds exactly when the worktree is safe to switch away from;
    /// `CheckoutFailed` reports an unsafe worktree, and any other error is a
    /// failed read of the HEAD commit's tree.
    pub fn check_safe_switch(&self) -> (r: Result<(), Error>)
        requires
            self.wf(),
            self.spec_resolve(self@.head) is Ok,
        ensures
            r is Ok <==> self.spec_safe_switch(),
            r matches Err(e) ==> (e is CheckoutFailed || spec_read_tree_files(
                self@.store,
                (self.spec_resolve(self@.head))->Ok_0,
            ) == Err::<Seq<FileV>, Error>(e)),
            r == Err::<(), Error>(Error::CheckoutFailed) ==> (spec_read_tree_files(
                self@.store,
                (self.spec_resolve(self@.head))->Ok_0,
            ) matches Ok(fs) && !safe_statuses(
                spec_status(files_map(fs), self@.tracklist, self@.workdir),
            )),
    {
        let head = match self.head_hash() {
            Ok(h) => h,
            Err(_) => {
                return Err(Error::CheckoutFailed);
            },
        };
        let commit = match self.store.read_commit(&head) {
            Ok(c) => c,
            Err(e) => {
                return Err(e);
            },
        };
        let th = commit.tree_hash();
        let tree = match self.store.read_tree(&th) {
            Ok(t) => t,
            Err(e) => {
                return Err(e);
            },
        };
        let st = match self.status(&tree) {
            Ok(s) => s,
            Err(e) => {
                proof {
                    crate::files::lemma_files_err(
                        self@.store,
                        tree@.entries,
                        Seq::empty(),
                        crate::files::max_tree_depth(),
                    );
                }
                return Err(e);
            },
        };
        if statuses_all(&st, false) {
            Ok(())
        } else {
            Err(Error::CheckoutFailed)
        }
    }
}

/// Whether every status is benign: always `Unmodified`, plus `Untracked`
/// when `for_merge` is set, else `Missing`.
fn statuses_all(st: &Status, for_merge: bool) -> (r: bool)
    requires
        st.wf(),
    ensures
        for_merge ==> r == clean_statuses(st@),
        !for_merge ==> r == safe_statuses(st@),
{
    proof {
        st.lemma_view();
    }
    let mut i: usize = 0;
    while i < st.len()
        invariant
            i <= st.pairs@.len(),
            st.wf(),
            forall|j: int|
                0 <= j < i ==> (for_merge ==> ((#[trigger] st.pairs@[j]).1 is Unmodified
                    || st.pairs@[j].1 is Untracked)),
            forall|j: int|
                0 <= j < i ==> (!for_merge ==> ((#[trigger] st.pairs@[j]).1 is Unmodified
                    || st.pairs@[j].1 is Missing)),
        decreases st.pairs@.len() - i,
    {
        let v = st.val_at(i);
        let ok = match v {
            FileStatus::Unmodified => true,
            FileStatus::Untracked => for_merge,
            FileStatus::Missing => !for_merge,
            _ => false,
        };
        if !ok {
            proof {
                st.lemma_view();
                let p = st.pairs@[i as int].0@;
                assert(st@.contains_key(p) && st@[p] == st.pairs@[i as int].1@);
            }
            return false;
        }
        i = i + 1;
    }
    proof {
        st.lemma_view();
        if for_merge {
            assert forall|p: Seq<u8>|
                st@.contains_key(p) implies (#[trigger] st@[p]) is Unmodified
                || st@[p] is Untracked by {
                let j = choose|j: int|
                    0 <= j < st.pairs@.len() && (#[trigger] st.pairs@[j]).0@ == p;
                assert(st@[p] == st.pairs@[j].1@);
            }
        } else {
            assert forall|p: Seq<u8>|
                st@.contains_key(p) implies (#[trigger] st@[p]) is Unmodified
                || st@[p] is Missing by {
                let j = choose|j: int|
                    0 <= j < st.pairs@.len() && (#[trigger] st.pairs@[j]).0@ == p;
                assert(st@[p] == st.pairs@[j].1@);
            }
        }
    }
    true
}

/// A removal argument `f` takes out path `p`: exactly, or as a directory
/// prefix ending at a separator.
pub open spec fn removes(f: Seq<u8>, p: Seq<u8>) -> bool {
    f == p || (f.len() + 1 <= p.len() && p.subrange(0, f.len() as int + 1) == f + seq![47u8])
}

/// Some removal argument takes out path `p`.
pub open spec fn removed_by(p: Seq<u8>, files: Seq<Vec<u8>>) -> bool {
    exists|w: int| 0 <= w < files.len() && removes((#[trigger] files[w])@, p)
}

fn removes_exec(f: &Vec<u8>, p: &Vec<u8>) -> (r: bool)
    ensures
        r == removes(f@, p@),
{
    if bytes_eq(f, p) {
        return true;
    }
    if f.len() < p.len() {
        let mut i: usize = 0;
        while i < f.len()
            invariant
                i <= f@.len(),
                f@.len() + 1 <= p@.len(),
                f@ != p@,
                forall|j: int| 0 <= j < i ==> p@[j] == f@[j],
            decreases f@.len() - i,
        {
            if p[i] != f[i] {
                proof {
                    if p@.subrange(0, f@.len() as int + 1) == f@ + seq![47u8] {
                        assert(p@.subrange(0, f@.len() as int + 1)[i as int] == p@[i as int]);
                        assert((f@ + seq![47u8])[i as int] == f@[i as int]);
                    }
                }
                return false;
            }
            i = i + 1;
        }
        let r = p[f.len()] == 47;
        proof {
            if r {
                assert(p@.subrange(0, f@.len() as int + 1) =~= f@ + seq![47u8]);
            } else {
                if p@.subrange(0, f@.len() as int + 1) == f@ + seq![47u8] {
                    assert(p@.subrange(0, f@.len() as int + 1)[f@.len() as int] == p@[f@.len() as int]);
                }
            }
        }
        r
    } else {
        false
    }
}

/// The new store keeps every old object unchanged.
pub open spec fn store_extends(new: Map<Seq<u8>, Seq<u8>>, old_m: Map<Seq<u8>, Seq<u8>>) -> bool {
    forall|k: Seq<u8>|
        #[trigger] old_m.contains_key(k) ==> new.contains_key(k) && new[k] == old_m[k]
}

pub proof fn lemma_extends_trans(
    a: Map<Seq<u8>, Seq<u8>>,
    b: Map<Seq<u8>, Seq<u8>>,
    c: Map<Seq<u8>, Seq<u8>>,
)
    requires
        store_extends(b, a),
        store_extends(c, b),
    ensures
        store_extends(c, a),
{
    assert forall|k: Seq<u8>|
        #[trigger] a.contains_key(k) implies c.contains_key(k) && c[k] == a[k] by {
        assert(b.contains_key(k) && b[k] == a[k]);
        assert(c.contains_key(k) && c[k] == b[k]);
    }
}

pub proof fn lemma_extends_write(m: Map<Seq<u8>, Seq<u8>>, h: Seq<u8>, bytes: Seq<u8>)
    ensures
        store_extends(store_after_write(m, h, bytes), m),
{
}

/// Writing an object whose references are already present keeps the store
/// closed.
pub proof fn lemma_closed_write(m: Map<Seq<u8>, Seq<u8>>, h: Seq<u8>, bytes: Seq<u8>)
    requires
        store_closed(m),
        object_refs(bytes).subset_of(m.dom()),
    ensures
        store_closed(store_after_write(m, h, bytes)),
{
    let m2 = store_after_write(m, h, bytes);
    assert forall|k: Seq<u8>|
        m2.contains_key(k) implies (#[trigger] object_refs(m2[k])).subset_of(m2.dom()) by {
        if m.contains_key(k) {
            assert(m2[k] == m[k]);
            assert(object_refs(m[k]).subset_of(m.dom()));
            assert forall|x: Seq<u8>| object_refs(m2[k]).contains(x) implies m2.dom().contains(
                x,
            ) by {
                assert(m.dom().contains(x));
            }
        } else {
            assert(m2[k] == bytes);
            assert forall|x: Seq<u8>| object_refs(m2[k]).contains(x) implies m2.dom().contains(
                x,
            ) by {
                assert(m.dom().contains(x));
            }
        }
    }
}

/// The path is directly under `prefix`: no further separator follows.
pub open spec fn is_direct_file(path: Seq<u8>, prefix: Seq<u8>) -> bool {
    prefix.is_prefix_of(path) && path.len() > prefix.len() && !path.skip(
        prefix.len() as int,
    ).contains(47u8)
}

/// The longest path length in a file list.
pub open spec fn max_path_len(s: Seq<(Vec<u8>, Vec<u8>)>) -> nat
    decreases s.len(),
{
    if s.len() == 0 {
        0
    } else {
        let m = max_path_len(s.drop_last());
        if s.last().0@.len() > m {
            s.last().0@.len()
        } else {
            m
        }
    }
}

proof fn lemma_max_path_len(s: Seq<(Vec<u8>, Vec<u8>)>, i: int)
    requires
        0 <= i < s.len(),
    ensures
        s[i].0@.len() <= max_path_len(s),
    decreases s.len(),
{
    if i < s.len() - 1 {
        lemma_max_path_len(s.drop_last(), i);
    }
}

/// Whether the name list holds `x`.
fn names_has(v: &Vec<Vec<u8>>, x: &Vec<u8>) -> (r: bool)
    ensures
        r == names_contain(v@, x@),
{
    let mut i: usize = 0;
    while i < v.len()
        invariant
            i <= v@.len(),
            forall|j: int| 0 <= j < i ==> (#[trigger] v@[j])@ != x@,
        decreases v@.len() - i,
    {
        if bytes_eq(&v[i], x) {
            proof {
                assert(v@[i as int]@ == x@);
            }
            return true;
        }
        i = i + 1;
    }
    proof {
        if names_contain(v@, x@) {
            let j = choose|j: int| 0 <= j < v@.len() && (#[trigger] v@[j])@ == x@;
        }
    }
    false
}

/// A blob entry of the root tree: a tracked, present, separator-free path
/// carrying the digest of its blob object.
pub open spec fn root_blob_entry(
    e: TreeEntryV,
    tl: Seq<Seq<u8>>,
    wd: Map<Seq<u8>, Seq<u8>>,
) -> bool {
    &&& e.kind == TreeEntryKind::Blob
    &&& tl.contains(e.name)
    &&& wd.contains_key(e.name)
    &&& !e.name.contains(47u8)
    &&& e.hash == digest_of(spec_serialize_blob(wd[e.name]))
}

/// The root entries of a written tree mirror the tracked file set: every
/// tracked, present, separator-free path appears as a blob entry with its
/// blob digest; every blob entry is such a path; every subtree entry names
/// the first component of some deeper tracked, present path; and no two
/// entries share both kind and name.
pub open spec fn root_snapshot(
    es: Seq<TreeEntryV>,
    tl: Seq<Seq<u8>>,
    wd: Map<Seq<u8>, Seq<u8>>,
) -> bool {
    &&& forall|p: Seq<u8>|
        tl.contains(p) && wd.contains_key(p) && is_direct_file(p, Seq::empty()) ==> exists|k: int|
            0 <= k < es.len() && #[trigger] es[k] == (TreeEntryV {
                kind: TreeEntryKind::Blob,
                hash: digest_of(spec_serialize_blob(wd[p])),
                name: p,
            })
    &&& forall|k: int|
        0 <= k < es.len() && (#[trigger] es[k]).kind == TreeEntryKind::Blob ==> root_blob_entry(
            es[k],
            tl,
            wd,
        )
    &&& forall|k: int|
        0 <= k < es.len() && (#[trigger] es[k]).kind == TreeEntryKind::Tree ==> exists|p: Seq<u8>|
            tl.contains(p) && #[trigger] wd.contains_key(p) && es[k].name.len() + 1 <= p.len()
                && p.subrange(0, es[k].name.len() as int + 1) == es[k].name + seq![47u8]
    &&& forall|k: int, k2: int|
        0 <= k < k2 < es.len() ==> !((#[trigger] es[k]).kind == (#[trigger] es[k2]).kind
            && es[k].name == es[k2].name)
}

/// Writes the tree of the files under `prefix`: tracked files become blobs,
/// deeper paths become subtrees, written store-first so the store stays
/// closed.  The entries mirror the file list at this level: every direct
/// file yields its blob entry, every blob entry comes from a direct file,
/// every subtree entry from a deeper path, and no kind repeats a name.
#[verifier::rlimit(100)]
#[verifier::spinoff_prover]
fn write_tree_rec(store: &mut Store, files: &Vec<(Vec<u8>, Vec<u8>)>, prefix: &Vec<u8>) -> (t:
    Tree)
    requires
        old(store).wf(),
        store_closed(old(store)@),
        forall|i: int| 0 <= i < files@.len() ==> !(#[trigger] files@[i]).0@.contains(0u8),
        forall|i: int, j: int|
            0 <= i < j < files@.len() ==> (#[trigger] files@[i]).0@ != (#[trigger] files@[j]).0@,
        prefix@.len() <= max_path_len(files@) + 1,
    ensures
        final(store).wf(),
        store_closed(final(store)@),
        store_extends(final(store)@, old(store)@),
        forall|k: int|
            0 <= k < t@.entries.len() ==> tree_entry_wf(#[trigger] t@.entries[k])
                && final(store)@.contains_key(t@.entries[k].hash),
        forall|i: int|
            0 <= i < files@.len() && is_direct_file((#[trigger] files@[i]).0@, prefix@)
                ==> exists|k: int|
                0 <= k < t@.entries.len() && #[trigger] t@.entries[k] == (TreeEntryV {
                    kind: TreeEntryKind::Blob,
                    hash: digest_of(spec_serialize_blob(files@[i].1@)),
                    name: files@[i].0@.skip(prefix@.len() as int),
                }),
        forall|k: int|
            0 <= k < t@.entries.len() && (#[trigger] t@.entries[k]).kind == TreeEntryKind::Blob
                ==> exists|i: int|
                0 <= i < files@.len() && (#[trigger] files@[i]).0@ == prefix@
                    + t@.entries[k].name && t@.entries[k].hash == digest_of(
                    spec_serialize_blob(files@[i].1@),
                ) && !t@.entries[k].name.contains(47u8),
        forall|k: int|
            0 <= k < t@.entries.len() && (#[trigger] t@.entries[k]).kind == TreeEntryKind::Tree
                ==> exists|i: int|
                0 <= i < files@.len() && prefix@.len() + t@.entries[k].name.len() + 1 <= (
                #[trigger] files@[i]).0@.len() && files@[i].0@.subrange(
                    0,
                    (prefix@.len() + t@.entries[k].name.len() + 1) as int,
                ) == prefix@ + t@.entries[k].name + seq![47u8],
        forall|k: int, k2: int|
            0 <= k < k2 < t@.entries.len() ==> !((#[trigger] t@.entries[k]).kind == (
            #[trigger] t@.entries[k2]).kind && t@.entries[k].name == t@.entries[k2].name),
    decreases max_path_len(files@) + 1 - prefix@.len(), 0nat,
{
    let mut tree = Tree::new();
    let mut done_dirs: Vec<Vec<u8>> = Vec::new();
    let mut i: usize = 0;
    while i < files.len()
        invariant
            i <= files@.len(),
            store.wf(),
            store_closed(store@),
            store_extends(store@, old(store)@),
            forall|n: int| 0 <= n < files@.len() ==> !(#[trigger] files@[n]).0@.contains(0u8),
            forall|n: int, j: int|
                0 <= n < j < files@.len() ==> (#[trigger] files@[n]).0@ != (
                #[trigger] files@[j]).0@,
            prefix@.len() <= max_path_len(files@) + 1,
            forall|k: int|
                0 <= k < tree@.entries.len() ==> tree_entry_wf(#[trigger] tree@.entries[k])
                    && store@.contains_key(tree@.entries[k].hash),
            forall|j: int|
                0 <= j < i && is_direct_file((#[trigger] files@[j]).0@, prefix@) ==> exists|
                    k: int,
                |
                    0 <= k < tree@.entries.len() && #[trigger] tree@.entries[k] == (TreeEntryV {
                        kind: TreeEntryKind::Blob,
                        hash: digest_of(spec_serialize_blob(files@[j].1@)),
                        name: files@[j].0@.skip(prefix@.len() as int),
                    }),
            forall|k: int|
                0 <= k < tree@.entries.len() && (#[trigger] tree@.entries[k]).kind
                    == TreeEntryKind::Blob ==> exists|j: int|
                    0 <= j < i && (#[trigger] files@[j]).0@ == prefix@ + tree@.entries[k].name
                        && tree@.entries[k].hash == digest_of(
                        spec_serialize_blob(files@[j].1@),
                    ) && !tree@.entries[k].name.contains(47u8),
            forall|k: int|
                0 <= k < tree@.entries.len() && (#[trigger] tree@.entries[k]).kind
                    == TreeEntryKind::Tree ==> exists|j: int|
                    0 <= j < i && prefix@.len() + tree@.entries[k].name.len() + 1 <= (
                    #[trigger] files@[j]).0@.len() && files@[j].0@.subrange(
                        0,
                        (prefix@.len() + tree@.entries[k].name.len() + 1) as int,
                    ) == prefix@ + tree@.entries[k].name + seq![47u8],
            forall|k: int|
                0 <= k < tree@.entries.len() && (#[trigger] tree@.entries[k]).kind
                    == TreeEntryKind::Tree ==> names_contain(done_dirs@, tree@.entries[k].name),
            forall|a: int, b: int|
                0 <= a < b < done_dirs@.len() ==> (#[trigger] done_dirs@[a])@ != (
                #[trigger] done_dirs@[b])@,
            forall|k: int, k2: int|
                0 <= k < k2 < tree@.entries.len() ==> !((#[trigger] tree@.entries[k]).kind == (
                #[trigger] tree@.entries[k2]).kind && tree@.entries[k].name
                    == tree@.entries[k2].name),
        decreases files@.len() - i,
    {
        let plen = prefix.len();
        let p = &files[i].0;
        let ghost pv = p@;
        let ghost t_pre = tree@.entries;
        let is_under = match_at(p, 0, prefix) && p.len() > plen;
        proof {
            if is_under {
                assert(prefix@.is_prefix_of(pv)) by {
                    assert(pv.subrange(0, prefix@.len() as int) == prefix@);
                }
            } else {
                assert(!is_direct_file(pv, prefix@)) by {
                    if prefix@.is_prefix_of(pv) && pv.len() > prefix@.len() {
                        assert(pv.subrange(0, prefix@.len() as int) == prefix@);
                    }
                }
            }
        }
        if is_under {
            match find_byte(p, plen, 47) {
                None => {
                    // a file directly under the prefix: write its blob
                    proof {
                        assert(is_direct_file(pv, prefix@)) by {
                            if pv.skip(plen as int).contains(47u8) {
                                let j = choose|j: int|
                                    0 <= j < pv.skip(plen as int).len() && pv.skip(
                                        plen as int,
                                    )[j] == 47;
                                assert(pv[plen + j] == 47);
                            }
                        }
                    }
                    let name = copy_range(p, plen, p.len());
                    let content = copy_range(&files[i].1, 0, files[i].1.len());
                    proof {
                        assert(files@[i as int].1@.subrange(
                            0,
                            files@[i as int].1@.len() as int,
                        ) =~= files@[i as int].1@);
                    }
                    let ghost store0 = store@;
                    let blob = store.write_blob(content);
                    proof {
                        crate::store::lemma_blob_obj_refs(files@[i as int].1@);
                        lemma_closed_write(
                            store0,
                            blob@.hash,
                            spec_serialize_blob(files@[i as int].1@),
                        );
                        lemma_extends_write(
                            store0,
                            blob@.hash,
                            spec_serialize_blob(files@[i as int].1@),
                        );
                        lemma_extends_trans(old(store)@, store0, store@);
                    }
                    let bh = blob.hash();
                    proof {
                        assert(store@.contains_key(blob@.hash));
                        assert(store.wf());
                        assert(digest_of(store@[blob@.hash]) == blob@.hash);
                        assert(blob@.hash.len() == 20);
                        assert(name@ == pv.skip(plen as int));
                        assert(!name@.contains(0u8)) by {
                            if name@.contains(0u8) {
                                let j = choose|j: int| 0 <= j < name@.len() && name@[j] == 0;
                                assert(pv[plen + j] == 0);
                            }
                        }
                    }
                    tree.add_blob(bh, name);
                    proof {
                        assert(forall|k: int|
                            0 <= k < t_pre.len() ==> tree@.entries[k] == t_pre[k]);
                        assert(tree_entry_wf(tree@.entries.last()));
                        assert(tree@.entries.last() == (TreeEntryV {
                            kind: TreeEntryKind::Blob,
                            hash: digest_of(spec_serialize_blob(files@[i as int].1@)),
                            name: pv.skip(plen as int),
                        }));
                        // the new name never repeats an earlier blob name
                        assert forall|k: int, k2: int|
                            0 <= k < k2 < tree@.entries.len() implies !((
                        #[trigger] tree@.entries[k]).kind == (#[trigger] tree@.entries[k2]).kind
                            && tree@.entries[k].name == tree@.entries[k2].name) by {
                            if k2 == tree@.entries.len() - 1 && tree@.entries[k].kind
                                == TreeEntryKind::Blob && tree@.entries[k].name == pv.skip(
                                plen as int,
                            ) {
                                let j = choose|j: int|
                                    0 <= j < i && (#[trigger] files@[j]).0@ == prefix@
                                        + t_pre[k].name && t_pre[k].hash == digest_of(
                                        spec_serialize_blob(files@[j].1@),
                                    ) && !t_pre[k].name.contains(47u8);
                                assert(files@[j].0@ =~= pv);
                            }
                        }
                    }
                },
                Some(slash) => {
                    // a deeper path: recurse into its first component
                    proof {
                        assert(!is_direct_file(pv, prefix@)) by {
                            assert(pv.skip(plen as int)[slash - plen] == 47);
                        }
                    }
                    let name = copy_range(p, plen, slash);
                    if !names_has(&done_dirs, &name) {
                        let mut sub_prefix = copy_range(p, 0, slash);
                        sub_prefix.push(47);
                        proof {
                            lemma_max_path_len(files@, i as int);
                            assert(sub_prefix@.len() == slash + 1);
                            assert(slash < pv.len());
                            assert(pv.len() <= max_path_len(files@));
                            assert(sub_prefix@.len() > prefix@.len());
                            assert(sub_prefix@ =~= prefix@ + name@ + seq![47u8]);
                            assert(pv.subrange(0, slash as int + 1) =~= sub_prefix@);
                        }
                        let ghost store_pre = store@;
                        let mut subtree = write_tree_rec(store, files, &sub_prefix);
                        proof {
                            lemma_extends_trans(old(store)@, store_pre, store@);
                        }
                        if !subtree.is_empty() {
                            let ghost store1 = store@;
                            let ghost sub_entries = subtree@.entries;
                            store.write_tree_obj(&mut subtree);
                            proof {
                                lemma_extends_write(
                                    store1,
                                    subtree@.hash,
                                    spec_serialize_tree(sub_entries),
                                );
                                lemma_extends_trans(old(store)@, store1, store@);
                                crate::store::lemma_tree_obj_refs(sub_entries);
                                assert(object_refs(
                                    spec_serialize_tree(sub_entries),
                                ).subset_of(store1.dom())) by {
                                    assert forall|h: Seq<u8>|
                                        object_refs(
                                            spec_serialize_tree(sub_entries),
                                        ).contains(h) implies store1.dom().contains(h) by {
                                        let k = choose|k: int|
                                            0 <= k < sub_entries.len() && (
                                            #[trigger] sub_entries[k]).hash == h;
                                    }
                                }
                                lemma_closed_write(
                                    store1,
                                    subtree@.hash,
                                    spec_serialize_tree(sub_entries),
                                );
                            }
                            let sh = subtree.hash();
                            proof {
                                assert(store@.contains_key(subtree@.hash));
                                assert(digest_of(store@[subtree@.hash]) == subtree@.hash);
                                assert(subtree@.hash.len() == 20);
                                assert(name@ == pv.subrange(plen as int, slash as int));
                                assert(!name@.contains(0u8)) by {
                                    if name@.contains(0u8) {
                                        let j = choose|j: int|
                                            0 <= j < name@.len() && name@[j] == 0;
                                        assert(pv[plen + j] == 0);
                                    }
                                }
                            }
                            let ghost name_v = name@;
                            let ghost done0 = done_dirs@;
                            tree.add_tree(sh, name);
                            done_dirs.push(copy_range(p, plen, slash));
                            proof {
                                assert(forall|k: int|
                                    0 <= k < t_pre.len() ==> tree@.entries[k] == t_pre[k]);
                                assert(tree_entry_wf(tree@.entries.last()));
                                assert(done_dirs@.last()@ == name_v);
                                assert(forall|a: int|
                                    0 <= a < done0.len() ==> done_dirs@[a] == done0[a]);
                                assert(!names_contain(done0, name_v));
                                assert forall|a: int, b: int|
                                    0 <= a < b < done_dirs@.len() implies (
                                #[trigger] done_dirs@[a])@ != (#[trigger] done_dirs@[b])@ by {
                                    if b == done_dirs@.len() - 1 {
                                        if done0[a]@ == name_v {
                                            assert(names_contain(done0, name_v)) by {
                                                assert(done0[a]@ == name_v);
                                            }
                                        }
                                    }
                                }
                                // the tree entry's provenance and uniqueness
                                assert(tree@.entries.last().kind == TreeEntryKind::Tree);
                                assert(tree@.entries.last().name == name_v);
                                assert(prefix@.len() + name_v.len() + 1 <= pv.len());
                                assert(pv.subrange(
                                    0,
                                    (prefix@.len() + name_v.len() + 1) as int,
                                ) == prefix@ + name_v + seq![47u8]);
                                assert forall|k: int|
                                    0 <= k < tree@.entries.len() && (
                                #[trigger] tree@.entries[k]).kind == TreeEntryKind::Tree implies
                                    names_contain(done_dirs@, tree@.entries[k].name) by {
                                    if k < t_pre.len() {
                                        let a = choose|a: int|
                                            0 <= a < done0.len() && (#[trigger] done0[a])@
                                                == t_pre[k].name;
                                        assert(done_dirs@[a]@ == t_pre[k].name);
                                    } else {
                                        assert(done_dirs@.last()@ == name_v);
                                    }
                                }
                                assert forall|k: int, k2: int|
                                    0 <= k < k2 < tree@.entries.len() implies !((
                                #[trigger] tree@.entries[k]).kind == (
                                #[trigger] tree@.entries[k2]).kind && tree@.entries[k].name
                                    == tree@.entries[k2].name) by {
                                    if k2 == tree@.entries.len() - 1 && tree@.entries[k].kind
                                        == TreeEntryKind::Tree && tree@.entries[k].name
                                        == name_v {
                                        let a = choose|a: int|
                                            0 <= a < done0.len() && (#[trigger] done0[a])@
                                                == t_pre[k].name;
                                        assert(names_contain(done0, name_v)) by {
                                            assert(done0[a]@ == name_v);
                                        }
                                    }
                                }
                            }
                        } else {
                            let ghost done0 = done_dirs@;
                            done_dirs.push(copy_range(p, plen, slash));
                            proof {
                                assert(forall|a: int|
                                    0 <= a < done0.len() ==> done_dirs@[a] == done0[a]);
                                assert(done_dirs@.last()@ == name@);
                                assert(!names_contain(done0, name@));
                                assert forall|a: int, b: int|
                                    0 <= a < b < done_dirs@.len() implies (
                                #[trigger] done_dirs@[a])@ != (#[trigger] done_dirs@[b])@ by {
                                    if b == done_dirs@.len() - 1 {
                                        if done0[a]@ == name@ {
                                            assert(names_contain(done0, name@)) by {
                                                assert(done0[a]@ == name@);
                                            }
                                        }
                                    }
                                }
                                assert forall|k: int|
                                    0 <= k < tree@.entries.len() && (
                                #[trigger] tree@.entries[k]).kind == TreeEntryKind::Tree implies
                                    names_contain(done_dirs@, tree@.entries[k].name) by {
                                    let a = choose|a: int|
                                        0 <= a < done0.len() && (#[trigger] done0[a])@
                                            == tree@.entries[k].name;
                                    assert(done_dirs@[a]@ == tree@.entries[k].name);
                                }
                            }
                        }
                    }
                },
            }
        }
        proof {
            assert forall|j: int|
                0 <= j < i + 1 && is_direct_file((#[trigger] files@[j]).0@, prefix@) implies
                exists|k: int|
                    0 <= k < tree@.entries.len() && #[trigger] tree@.entries[k] == (TreeEntryV {
                        kind: TreeEntryKind::Blob,
                        hash: digest_of(spec_serialize_blob(files@[j].1@)),
                        name: files@[j].0@.skip(prefix@.len() as int),
                    }) by {
                if j < i {
                    let k = choose|k: int|
                        0 <= k < t_pre.len() && #[trigger] t_pre[k] == (TreeEntryV {
                            kind: TreeEntryKind::Blob,
                            hash: digest_of(spec_serialize_blob(files@[j].1@)),
                            name: files@[j].0@.skip(prefix@.len() as int),
                        });
                    assert(tree@.entries[k] == t_pre[k]);
                } else {
                    assert(tree@.entries.last() == (TreeEntryV {
                        kind: TreeEntryKind::Blob,
                        hash: digest_of(spec_serialize_blob(files@[j].1@)),
                        name: files@[j].0@.skip(prefix@.len() as int),
                    }));
                }
            }
            assert forall|k: int|
                0 <= k < tree@.entries.len() && (#[trigger] tree@.entries[k]).kind
                    == TreeEntryKind::Blob implies exists|j: int|
                    0 <= j < i + 1 && (#[trigger] files@[j]).0@ == prefix@
                        + tree@.entries[k].name && tree@.entries[k].hash == digest_of(
                        spec_serialize_blob(files@[j].1@),
                    ) && !tree@.entries[k].name.contains(47u8) by {
                if k < t_pre.len() {
                    let j = choose|j: int|
                        0 <= j < i && (#[trigger] files@[j]).0@ == prefix@ + t_pre[k].name
                            && t_pre[k].hash == digest_of(spec_serialize_blob(files@[j].1@))
                            && !t_pre[k].name.contains(47u8);
                    assert(tree@.entries[k] == t_pre[k]);
                } else {
                    assert(pv =~= prefix@ + pv.skip(plen as int)) by {
                        assert(pv.subrange(0, plen as int) == prefix@);
                    }
                    assert(files@[i as int].0@ == prefix@ + tree@.entries[k].name);
                }
            }
            assert forall|k: int|
                0 <= k < tree@.entries.len() && (#[trigger] tree@.entries[k]).kind
                    == TreeEntryKind::Tree implies exists|j: int|
                    0 <= j < i + 1 && prefix@.len() + tree@.entries[k].name.len() + 1 <= (
                    #[trigger] files@[j]).0@.len() && files@[j].0@.subrange(
                        0,
                        (prefix@.len() + tree@.entries[k].name.len() + 1) as int,
                    ) == prefix@ + tree@.entries[k].name + seq![47u8] by {
                if k < t_pre.len() {
                    let j = choose|j: int|
                        0 <= j < i && prefix@.len() + t_pre[k].name.len() + 1 <= (
                        #[trigger] files@[j]).0@.len() && files@[j].0@.subrange(
                            0,
                            (prefix@.len() + t_pre[k].name.len() + 1) as int,
                        ) == prefix@ + t_pre[k].name + seq![47u8];
                    assert(tree@.entries[k] == t_pre[k]);
                } else {
                    assert(prefix@.len() + tree@.entries[k].name.len() + 1
                        <= files@[i as int].0@.len() && files@[i as int].0@.subrange(
                        0,
                        (prefix@.len() + tree@.entries[k].name.len() + 1) as int,
                    ) == prefix@ + tree@.entries[k].name + seq![47u8]);
                }
            }
        }
        i = i + 1;
    }
    tree
}

impl Repository {
    /// The tracked files present in the working directory, with their
    /// bytes: exactly the files a written tree snapshots.
    fn tracked_files(&self) -> (files: Vec<(Vec<u8>, Vec<u8>)>)
        requires
            self.wf(),
        ensures
            forall|n: int|
                0 <= n < files@.len() ==> self@.tracklist.contains((#[trigger] files@[n]).0@)
                    && self@.workdir.contains_key(files@[n].0@) && self@.workdir[files@[n].0@]
                    == files@[n].1@ && !files@[n].0@.contains(0u8),
            forall|n: int, n2: int|
                0 <= n < n2 < files@.len() ==> (#[trigger] files@[n]).0@ != (
                #[trigger] files@[n2]).0@,
            forall|p: Seq<u8>|
                self@.tracklist.contains(p) && self@.workdir.contains_key(p) ==> exists|n: int|
                    0 <= n < files@.len() && (#[trigger] files@[n]).0@ == p,
    {
        proof {
            self.workdir.lemma_view();
        }
        let mut files: Vec<(Vec<u8>, Vec<u8>)> = Vec::new();
        let n = self.workdir.len();
        let mut i: usize = 0;
        while i < n
            invariant
                i <= n,
                n == self.workdir.pairs@.len(),
                self.wf(),
                forall|a: int|
                    0 <= a < files@.len() ==> self@.tracklist.contains((#[trigger] files@[a]).0@)
                        && self@.workdir.contains_key(files@[a].0@)
                        && self@.workdir[files@[a].0@] == files@[a].1@
                        && !files@[a].0@.contains(0u8),
                forall|a: int|
                    0 <= a < files@.len() ==> exists|j: int|
                        0 <= j < i && (#[trigger] files@[a]).0@ == self.workdir.pairs@[j].0@,
                forall|a: int, b: int|
                    0 <= a < b < files@.len() ==> (#[trigger] files@[a]).0@ != (
                    #[trigger] files@[b]).0@,
                forall|j: int|
                    0 <= j < i && self@.tracklist.contains((#[trigger] self.workdir.pairs@[j]).0@)
                        ==> exists|a: int|
                        0 <= a < files@.len() && (#[trigger] files@[a]).0@
                            == self.workdir.pairs@[j].0@,
            decreases n - i,
        {
            proof {
                self.workdir.lemma_view();
            }
            let p = self.workdir.key_at(i);
            let c = self.workdir.val_at(i);
            let path = copy_range(p, 0, p.len());
            proof {
                assert(p@.subrange(0, p@.len() as int) =~= p@);
                assert(self@.workdir.contains_key(path@));
                assert(self@.workdir[path@] == c@);
            }
            let ghost files0 = files@;
            if self.is_tracked(&path) {
                files.push((path, copy_range(c, 0, c.len())));
                proof {
                    assert(c@.subrange(0, c@.len() as int) =~= c@);
                    assert(forall|a: int| 0 <= a < files0.len() ==> files@[a] == files0[a]);
                    assert(files@.last().0@ == self.workdir.pairs@[i as int].0@);
                    assert forall|a: int, b: int|
                        0 <= a < b < files@.len() implies (#[trigger] files@[a]).0@ != (
                    #[trigger] files@[b]).0@ by {
                        if b == files@.len() - 1 {
                            let j = choose|j: int|
                                0 <= j < i && (#[trigger] files0[a]).0@
                                    == self.workdir.pairs@[j].0@;
                            assert(self.workdir.pairs@[j].0@ != self.workdir.pairs@[i as int].0@);
                        }
                    }
                }
            }
            proof {
                assert forall|a: int|
                    0 <= a < files@.len() implies exists|j: int|
                        0 <= j < i + 1 && (#[trigger] files@[a]).0@
                            == self.workdir.pairs@[j].0@ by {
                    if a < files0.len() {
                        let j = choose|j: int|
                            0 <= j < i && (#[trigger] files0[a]).0@ == self.workdir.pairs@[j].0@;
                        assert(files@[a].0@ == self.workdir.pairs@[j].0@);
                    } else {
                        assert(files@[a].0@ == self.workdir.pairs@[i as int].0@);
                    }
                }
                assert forall|j: int|
                    0 <= j < i + 1 && self@.tracklist.contains(
                        (#[trigger] self.workdir.pairs@[j]).0@,
                    ) implies exists|a: int|
                        0 <= a < files@.len() && (#[trigger] files@[a]).0@
                            == self.workdir.pairs@[j].0@ by {
                    if j < i {
                        let a = choose|a: int|
                            0 <= a < files0.len() && (#[trigger] files0[a]).0@
                                == self.workdir.pairs@[j].0@;
                        assert(files@[a].0@ == self.workdir.pairs@[j].0@);
                    } else {
                        assert(files@[files@.len() - 1].0@ == self.workdir.pairs@[j].0@);
                    }
                }
            }
            i = i + 1;
        }
        proof {
            self.workdir.lemma_view();
            assert forall|p: Seq<u8>|
                self@.tracklist.contains(p) && self@.workdir.contains_key(p) implies exists|
                a: int,
            | 0 <= a < files@.len() && (#[trigger] files@[a]).0@ == p by {
                let j = choose|j: int|
                    0 <= j < self.workdir.pairs@.len() && (#[trigger] self.workdir.pairs@[j]).0@
                        == p;
            }
        }
        files
    }

    /// Writes a tree object from the tracked files of the working directory
    /// and files it, along with every subtree and blob it contains.
    #[verifier::rlimit(100)]
    pub fn write_tree(&mut self) -> (r: Result<Tree, Error>)
        requires
            old(self).wf(),
        ensures
            final(self).wf(),
            final(self)@.head == old(self)@.head,
            final(self)@.branches == old(self)@.branches,
            final(self)@.tracklist == old(self)@.tracklist,
            final(self)@.workdir == old(self)@.workdir,
            store_extends(final(self)@.store, old(self)@.store),
            store_closed(final(self)@.store),
            match r {
                Ok(t) => {
                    &&& final(self)@.store.contains_key(t@.hash)
                    &&& t@.hash == digest_of(spec_serialize_tree(t@.entries))
                    &&& root_snapshot(t@.entries, old(self)@.tracklist, old(self)@.workdir)
                    &&& forall|k: int|
                        0 <= k < t@.entries.len() ==> tree_entry_wf(#[trigger] t@.entries[k])
                            && final(self)@.store.contains_key(t@.entries[k].hash)
                },
                Err(_) => false,
            },
    {
        let files = self.tracked_files();
        let root_prefix: Vec<u8> = Vec::new();
        proof {
            assert(root_prefix@ =~= Seq::<u8>::empty());
        }
        let mut t = write_tree_rec(&mut self.store, &files, &root_prefix);
        let ghost entries = t@.entries;
        let ghost tl = old(self)@.tracklist;
        let ghost wd = old(self)@.workdir;
        proof {
            // the entry-level facts over the file list become the snapshot
            // over the tracked file set
            assert forall|p: Seq<u8>|
                tl.contains(p) && wd.contains_key(p) && is_direct_file(p, Seq::empty()) implies
                exists|k: int|
                    0 <= k < entries.len() && #[trigger] entries[k] == (TreeEntryV {
                        kind: TreeEntryKind::Blob,
                        hash: digest_of(spec_serialize_blob(wd[p])),
                        name: p,
                    }) by {
                let n = choose|n: int|
                    0 <= n < files@.len() && (#[trigger] files@[n]).0@ == p;
                assert(is_direct_file(files@[n].0@, root_prefix@));
                let k = choose|k: int|
                    0 <= k < entries.len() && #[trigger] entries[k] == (TreeEntryV {
                        kind: TreeEntryKind::Blob,
                        hash: digest_of(spec_serialize_blob(files@[n].1@)),
                        name: files@[n].0@.skip(root_prefix@.len() as int),
                    });
                assert(p.skip(0) =~= p);
                assert(files@[n].1@ == wd[p]);
            }
            assert forall|k: int|
                0 <= k < entries.len() && (#[trigger] entries[k]).kind == TreeEntryKind::Blob
                    implies root_blob_entry(entries[k], tl, wd) by {
                let n = choose|n: int|
                    0 <= n < files@.len() && (#[trigger] files@[n]).0@ == root_prefix@
                        + entries[k].name && entries[k].hash == digest_of(
                        spec_serialize_blob(files@[n].1@),
                    ) && !entries[k].name.contains(47u8);
                assert(root_prefix@ + entries[k].name =~= entries[k].name);
                assert(wd[entries[k].name] == files@[n].1@);
            }
            assert forall|k: int|
                0 <= k < entries.len() && (#[trigger] entries[k]).kind == TreeEntryKind::Tree
                    implies exists|p: Seq<u8>|
                    tl.contains(p) && #[trigger] wd.contains_key(p) && entries[k].name.len() + 1
                        <= p.len() && p.subrange(0, entries[k].name.len() as int + 1)
                        == entries[k].name + seq![47u8] by {
                let n = choose|n: int|
                    0 <= n < files@.len() && root_prefix@.len() + entries[k].name.len() + 1 <= (
                    #[trigger] files@[n]).0@.len() && files@[n].0@.subrange(
                        0,
                        (root_prefix@.len() + entries[k].name.len() + 1) as int,
                    ) == root_prefix@ + entries[k].name + seq![47u8];
                let p = files@[n].0@;
                assert(root_prefix@ + entries[k].name + seq![47u8] =~= entries[k].name + seq![
                    47u8,
                ]);
                assert(tl.contains(p) && wd.contains_key(p));
                assert(p.subrange(0, entries[k].name.len() as int + 1) == entries[k].name
                    + seq![47u8]);
            }
            assert(root_snapshot(entries, tl, wd));
        }
        let ghost store1 = self.store@;
        self.store.write_tree_obj(&mut t);
        proof {
            crate::store::lemma_tree_obj_refs(entries);
            assert(object_refs(spec_serialize_tree(entries)).subset_of(store1.dom())) by {
                assert forall|h: Seq<u8>|
                    object_refs(spec_serialize_tree(entries)).contains(h) implies
                    store1.dom().contains(h) by {
                    let k = choose|k: int|
                        0 <= k < entries.len() && (#[trigger] entries[k]).hash == h;
                }
            }
            lemma_closed_write(store1, t@.hash, spec_serialize_tree(entries));
            lemma_extends_write(store1, t@.hash, spec_serialize_tree(entries));
            lemma_extends_trans(old(self)@.store, store1, self@.store);
            assert forall|b: Seq<u8>|
                self@.branches.contains_key(b) implies self@.store.contains_key(
                #[trigger] self@.branches[b],
            ) by {
                assert(old(self)@.store.contains_key(old(self)@.branches[b]));
            }
            match self@.head {
                ReferenceV::Hash(h) => {
                    assert(old(self)@.store.contains_key(h));
                },
                _ => {},
            }
            assert forall|p: Seq<u8>|
                #[trigger] self@.workdir.contains_key(p) implies !p.contains(0u8) by {
                assert(old(self)@.workdir.contains_key(p));
            }
        }
        Ok(t)
    }

    fn update_head(&mut self, commit_hash: crate::object::Hash) -> (r: Result<(), Error>)
        requires
            old(self).wf(),
            old(self)@.store.contains_key(commit_hash@),
        ensures
            final(self).wf(),
            r is Ok,
            final(self)@.store == old(self)@.store,
            final(self)@.tracklist == old(self)@.tracklist,
            final(self)@.workdir == old(self)@.workdir,
            match old(self)@.head {
                ReferenceV::Hash(_) => final(self)@.head == ReferenceV::Hash(commit_hash@)
                    && final(self)@.branches == old(self)@.branches,
                ReferenceV::Branch(b) => final(self)@.head == old(self)@.head && final(self)@.branches == old(self)@.branches.insert(b, commit_hash@),
            },
    {
        let is_branch = match &self.head {
            Reference::Branch(_) => true,
            Reference::Hash(_) => false,
        };
        if is_branch {
            let name = match &self.head {
                Reference::Branch(b) => copy_range(b, 0, b.len()),
                Reference::Hash(_) => unreached(),
            };
            proof {
                match self@.head {
                    ReferenceV::Branch(b) => {
                        assert(name@ == b) by {
                            match &self.head {
                                Reference::Branch(bv) => {
                                    assert(bv@.subrange(0, bv@.len() as int) =~= bv@);
                                },
                                _ => {},
                            }
                        }
                    },
                    _ => {},
                }
            }
            self.set_branch(&name, commit_hash);
        } else {
            self.set_head(Reference::Hash(commit_hash));
        }
        Ok(())
    }

    /// Commits the tracked files: writes the worktree as a tree, files a
    /// commit whose parent is the current HEAD commit, and advances HEAD —
    /// the branch it names, or HEAD itself when detached.
    #[verifier::rlimit(100)]
    pub fn commit(&mut self, msg: Vec<u8>, author: Vec<u8>, time: i64) -> (r: Result<
        Commit,
        Error,
    >)
        requires
            old(self).wf(),
            !author@.contains(10u8),
            !msg@.contains(10u8),
        ensures
            final(self).wf(),
            store_extends(final(self)@.store, old(self)@.store),
            store_closed(final(self)@.store),
            final(self)@.tracklist == old(self)@.tracklist,
            final(self)@.workdir == old(self)@.workdir,
            match r {
                Ok(c) => {
                    &&& final(self)@.store.contains_key(c@.hash)
                    &&& c@.author == author@
                    &&& c@.time == time as int
                    &&& c@.msg == msg@
                    &&& c@.parent == (match old(self).spec_resolve(old(self)@.head) {
                        Ok(h) => Some(h),
                        Err(_) => None::<Seq<u8>>,
                    })
                    &&& final(self)@.store.contains_key(c@.tree)
                    &&& exists|es: Seq<TreeEntryV>|
                        c@.tree == digest_of(#[trigger] spec_serialize_tree(es))
                            && root_snapshot(es, old(self)@.tracklist, old(self)@.workdir)
                    &&& (match old(self)@.head {
                        ReferenceV::Hash(_) => final(self)@.head == ReferenceV::Hash(c@.hash)
                            && final(self)@.branches == old(self)@.branches,
                        ReferenceV::Branch(b) => final(self)@.head == old(self)@.head && final(self)@.branches == old(self)@.branches.insert(b, c@.hash),
                    })
                },
                Err(_) => false,
            },
    {
        let tree = match self.write_tree() {
            Ok(t) => t,
            Err(e) => {
                return Err(e);
            },
        };
        proof {
            assert(tree@.hash == digest_of(spec_serialize_tree(tree@.entries)) && root_snapshot(
                tree@.entries,
                old(self)@.tracklist,
                old(self)@.workdir,
            ));
        }
        let parent = match self.head_hash() {
            Ok(h) => Some(h),
            Err(_) => None,
        };
        let ghost parent_v = view_opt_hash(parent);
        let mut c = Commit::new(
            CommitInfo { tree: tree.hash(), parent, author, time, msg },
        );
        let ghost c0 = c@;
        let ghost store1 = self.store@;
        proof {
            assert(self.store.wf());
            assert(self@.store.contains_key(c0.tree));
            assert(digest_of(self.store@[c0.tree]) == c0.tree);
            assert(c0.tree.len() == 20);
            match parent_v {
                Some(ph) => {
                    assert(ph.len() == 20);
                },
                None => {},
            }
        }
        self.store.write_commit_obj(&mut c);
        proof {
            lemma_extends_write(store1, c@.hash, spec_serialize_commit(c0));
            lemma_extends_trans(old(self)@.store, store1, self@.store);
            crate::store::lemma_commit_obj_refs(c0);
            assert(object_refs(spec_serialize_commit(c0)).subset_of(store1.dom())) by {
                assert forall|h: Seq<u8>|
                    object_refs(spec_serialize_commit(c0)).contains(h) implies
                    store1.dom().contains(h) by {}
            }
            lemma_closed_write(store1, c@.hash, spec_serialize_commit(c0));
        }
        let ch = c.hash();
        match self.update_head(ch) {
            Ok(()) => {},
            Err(_) => {},
        }
        Ok(c)
    }
}

/// The worktree a checkout to file map `tf` leaves behind: every target
/// file materialized from the store, except unchanged ones, which keep
/// their bytes; everything else removed.
/// Every blob a checkout would materialize can be read from the store.
pub open spec fn spec_blobs_readable(
    m: Map<Seq<u8>, Seq<u8>>,
    tf: Map<Seq<u8>, Seq<u8>>,
    tl: Seq<Seq<u8>>,
    wd: Map<Seq<u8>, Seq<u8>>,
) -> bool {
    forall|p: Seq<u8>|
        tf.contains_key(p) && !(spec_status_of(tf, tl, wd, p) is Unmodified) ==> m.contains_key(
            #[trigger] tf[p],
        ) && spec_parse_blob(m[tf[p]]) is Some
}

/// No path is untracked.
pub open spec fn no_untracked(st: Map<Seq<u8>, FileStatus>) -> bool {
    forall|p: Seq<u8>| st.contains_key(p) ==> !((#[trigger] st[p]) is Untracked)
}

pub open spec fn spec_checkout_workdir(
    m: Map<Seq<u8>, Seq<u8>>,
    tf: Map<Seq<u8>, Seq<u8>>,
    tl: Seq<Seq<u8>>,
    wd: Map<Seq<u8>, Seq<u8>>,
) -> Map<Seq<u8>, Seq<u8>> {
    Map::new(
        |p: Seq<u8>| tf.contains_key(p),
        |p: Seq<u8>|
            if spec_status_of(tf, tl, wd, p) is Unmodified {
                wd[p]
            } else {
                match spec_parse_blob(m[tf[p]]) {
                    Some(c) => c,
                    None => Seq::empty(),
                }
            },
    )
}

/// Checkout is a fixed point: when every file's status against the target
/// tree is `Unmodified`, the worktree a checkout materializes is exactly
/// the worktree it started from.
pub proof fn lemma_checkout_fixed_point(
    m: Map<Seq<u8>, Seq<u8>>,
    tf: Map<Seq<u8>, Seq<u8>>,
    tl: Seq<Seq<u8>>,
    wd: Map<Seq<u8>, Seq<u8>>,
)
    requires
        forall|p: Seq<u8>|
            spec_status(tf, tl, wd).contains_key(p) ==> (#[trigger] spec_status(tf, tl, wd)[p])
                is Unmodified,
    ensures
        spec_checkout_workdir(m, tf, tl, wd) == wd,
{
    let out = spec_checkout_workdir(m, tf, tl, wd);
    assert forall|p: Seq<u8>| tf.contains_key(p) == wd.contains_key(p) by {
        if tf.contains_key(p) {
            assert(spec_status(tf, tl, wd).contains_key(p));
            assert(spec_status(tf, tl, wd)[p] == spec_status_of(tf, tl, wd, p));
        }
        if wd.contains_key(p) {
            assert(spec_status(tf, tl, wd).contains_key(p));
            assert(spec_status(tf, tl, wd)[p] == spec_status_of(tf, tl, wd, p));
        }
    }
    assert forall|p: Seq<u8>| out.contains_key(p) implies #[trigger] out[p] == wd[p] by {
        assert(spec_status(tf, tl, wd)[p] == spec_status_of(tf, tl, wd, p));
    }
    assert(out =~= wd);
}

/// Whether a path list holds `x`.
fn list_has(v: &Vec<Vec<u8>>, x: &Vec<u8>) -> (r: bool)
    ensures
        r == v@.map_values(|l: Vec<u8>| l@).contains(x@),
{
    let ghost sv = v@.map_values(|l: Vec<u8>| l@);
    let mut i: usize = 0;
    while i < v.len()
        invariant
            i <= v@.len(),
            sv == v@.map_values(|l: Vec<u8>| l@),
            forall|j: int| 0 <= j < i ==> sv[j] != x@,
        decreases v@.len() - i,
    {
        if bytes_eq(&v[i], x) {
            proof {
                assert(sv[i as int] == x@);
            }
            return true;
        }
        i = i + 1;
    }
    proof {
        if sv.contains(x@) {
            let j = choose|j: int| 0 <= j < sv.len() && sv[j] == x@;
        }
    }
    false
}

/// Builds the worktree a checkout leaves: target files materialized from
/// the store, unchanged files keeping their bytes.  Fails, touching
/// nothing, when a needed blob cannot be read.
#[verifier::rlimit(100)]
fn build_checkout_workdir(
    store: &Store,
    tfm: &ByteMap<crate::object::Hash>,
    tl: &Vec<Vec<u8>>,
    wd: &WorkDir,
) -> (r: Result<WorkDir, Error>)
    requires
        store.wf(),
        tfm.wf(),
        wd.wf(),
        forall|p: Seq<u8>| #[trigger] tfm@.contains_key(p) ==> !p.contains(0u8),
    ensures
        match r {
            Ok(w) => w.wf() && w@ == spec_checkout_workdir(
                store@,
                tfm@,
                tl@.map_values(|l: Vec<u8>| l@),
                wd@,
            ) && (forall|p: Seq<u8>| #[trigger] w@.contains_key(p) ==> !p.contains(0u8)),
            Err(e) => e is ObjectNotFound || e is ObjectCorrupted,
        },
        r is Ok <==> spec_blobs_readable(
            store@,
            tfm@,
            tl@.map_values(|l: Vec<u8>| l@),
            wd@,
        ),
{
    let ghost tf = tfm@;
    let ghost tlv = tl@.map_values(|l: Vec<u8>| l@);
    let ghost target = spec_checkout_workdir(store@, tfm@, tlv, wd@);
    proof {
        tfm.lemma_view();
        wd.lemma_view();
    }
    let mut new_wd: WorkDir = ByteMap::new();
    let n = tfm.len();
    let mut i: usize = 0;
    while i < n
        invariant
            i <= n,
            n == tfm.pairs@.len(),
            store.wf(),
            tfm.wf(),
            wd.wf(),
            new_wd.wf(),
            tf == tfm@,
            tlv == tl@.map_values(|l: Vec<u8>| l@),
            target == spec_checkout_workdir(store@, tfm@, tlv, wd@),
            forall|p: Seq<u8>| #[trigger] tf.contains_key(p) ==> !p.contains(0u8),
            forall|p: Seq<u8>| #[trigger] new_wd@.contains_key(p) ==> tf.contains_key(p),
            forall|p: Seq<u8>|
                new_wd@.contains_key(p) ==> #[trigger] new_wd@[p] == target[p],
            forall|j: int|
                0 <= j < i ==> new_wd@.contains_key((#[trigger] tfm.pairs@[j]).0@),
            forall|j: int|
                0 <= j < i ==> (!(spec_status_of(
                    tf,
                    tlv,
                    wd@,
                    (#[trigger] tfm.pairs@[j]).0@,
                ) is Unmodified) ==> store@.contains_key(tf[tfm.pairs@[j].0@])
                    && spec_parse_blob(store@[tf[tfm.pairs@[j].0@]]) is Some),
        decreases n - i,
    {
        proof {
            tfm.lemma_view();
            wd.lemma_view();
        }
        let p = tfm.key_at(i);
        let fh = tfm.val_at(i);
        let path = copy_range(p, 0, p.len());
        proof {
            assert(p@.subrange(0, p@.len() as int) =~= p@);
            assert(tf.contains_key(path@));
            assert(tf[path@] == fh@);
        }
        let mut unchanged = false;
        let mut content: Vec<u8> = Vec::new();
        match wd.get(&path) {
            Some(c) => {
                if list_has(tl, &path) {
                    let wh = hash_file(c);
                    if bytes_eq(wh.as_bytes(), fh.as_bytes()) {
                        unchanged = true;
                        content = copy_range(c, 0, c.len());
                        proof {
                            assert(c@.subrange(0, c@.len() as int) =~= c@);
                            assert(spec_status_of(tf, tlv, wd@, path@) is Unmodified);
                            assert(content@ == target[path@]);
                        }
                    }
                }
            },
            None => {},
        }
        if !unchanged {
            proof {
                assert(!(spec_status_of(tf, tlv, wd@, path@) is Unmodified));
            }
            let blob = match store.read_blob(fh) {
                Ok(b) => b,
                Err(e) => {
                    proof {
                        assert(!spec_blobs_readable(store@, tf, tlv, wd@)) by {
                            assert(tf.contains_key(path@) && !(spec_status_of(
                                tf,
                                tlv,
                                wd@,
                                path@,
                            ) is Unmodified));
                        }
                    }
                    return Err(e);
                },
            };
            content = blob.content;
            proof {
                assert(spec_parse_blob(store@[tf[path@]]) == Some(content@));
                assert(content@ == target[path@]);
            }
        }
        new_wd.insert(path, content);
        i = i + 1;
    }
    proof {
        tfm.lemma_view();
        assert(new_wd@ =~= target) by {
            assert forall|p: Seq<u8>|
                new_wd@.contains_key(p) == tf.contains_key(p) by {
                if tf.contains_key(p) {
                    let a = choose|a: int|
                        0 <= a < tfm.pairs@.len() && (#[trigger] tfm.pairs@[a]).0@ == p;
                }
            }
        }
        assert forall|p: Seq<u8>|
            tf.contains_key(p) && !(spec_status_of(tf, tlv, wd@, p) is Unmodified) implies
            store@.contains_key(#[trigger] tf[p]) && spec_parse_blob(store@[tf[p]]) is Some by {
            let j = choose|j: int|
                0 <= j < tfm.pairs@.len() && (#[trigger] tfm.pairs@[j]).0@ == p;
        }
    }
    Ok(new_wd)
}

impl Repository {
    /// When a checkout must succeed: the target resolves to a readable
    /// commit and tree, every blob to materialize is readable, and — unless
    /// forced — the worktree is safe to leave and shows nothing untracked
    /// against the target.
    pub open spec fn spec_checkout_ok(&self, target: ReferenceV, force: bool) -> bool {
        &&& self.spec_resolve(target) is Ok
        &&& spec_read_tree_files(self@.store, (self.spec_resolve(target))->Ok_0) is Ok
        &&& spec_blobs_readable(
            self@.store,
            files_map((spec_read_tree_files(self@.store, (self.spec_resolve(target))->Ok_0))->Ok_0),
            self@.tracklist,
            self@.workdir,
        )
        &&& (force || (self.spec_safe_switch() && no_untracked(
            spec_status(
                files_map(
                    (spec_read_tree_files(self@.store, (self.spec_resolve(target))->Ok_0))->Ok_0,
                ),
                self@.tracklist,
                self@.workdir,
            ),
        )))
    }

    /// Switches the worktree to the commit a reference names: materializes
    /// its tree, replaces the tracklist with the tree's paths, and moves
    /// HEAD.  Without `force`, un-committed work and untracked files stop
    /// the switch; on any failure the repository is untouched.
    #[verifier::rlimit(100)]
    pub fn checkout(&mut self, new_head: Reference, force: bool) -> (r: Result<(), Error>)
        requires
            old(self).wf(),
            !force ==> old(self).spec_resolve(old(self)@.head) is Ok,
        ensures
            final(self).wf(),
            match r {
                Ok(()) => {
                    &&& old(self).spec_resolve(new_head@) matches Ok(h)
                        && spec_read_tree_files(old(self)@.store, h) matches Ok(fs) && {
                        let tf = files_map(fs);
                        &&& final(self)@.workdir == spec_checkout_workdir(
                            old(self)@.store,
                            tf,
                            old(self)@.tracklist,
                            old(self)@.workdir,
                        )
                        &&& forall|p: Seq<u8>|
                            final(self)@.tracklist.contains(p) == tf.contains_key(p)
                    }
                    &&& final(self)@.head == new_head@
                    &&& final(self)@.branches == old(self)@.branches
                    &&& final(self)@.store == old(self)@.store
                    &&& (!force ==> old(self).spec_safe_switch())
                },
                Err(_) => final(self)@ == old(self)@,
            },
            r is Ok <==> old(self).spec_checkout_ok(new_head@, force),
            r == Err::<(), Error>(Error::CheckoutFailed) ==> !force && (!old(self).spec_safe_switch() || (old(self).spec_resolve(new_head@) matches Ok(h)
                && spec_read_tree_files(old(self)@.store, h) matches Ok(fs) && !no_untracked(
                spec_status(files_map(fs), old(self)@.tracklist, old(self)@.workdir),
            ))),
    {
        let ghost m0 = self@.store;
        let h = match self.resolve_reference(&new_head) {
            Ok(h) => h,
            Err(e) => {
                return Err(e);
            },
        };
        if !force {
            match self.check_safe_switch() {
                Ok(()) => {},
                Err(e) => {
                    proof {
                        assert(!self.spec_safe_switch());
                    }
                    return Err(e);
                },
            }
        }
        let commit = match self.store.read_commit(&h) {
            Ok(c) => c,
            Err(e) => {
                proof {
                    assert(spec_read_tree_files(m0, h@) is Err);
                }
                return Err(e);
            },
        };
        let th = commit.tree_hash();
        let tree = match self.store.read_tree(&th) {
            Ok(t) => t,
            Err(e) => {
                proof {
                    assert(spec_read_tree_files(m0, h@) is Err);
                }
                return Err(e);
            },
        };
        let files = match tree.files(&self.store) {
            Ok(v) => v,
            Err(e) => {
                proof {
                    assert(spec_read_tree_files(m0, h@) == crate::files::spec_files_of(
                        m0,
                        tree@.entries,
                    ));
                    crate::files::lemma_files_err(
                        m0,
                        tree@.entries,
                        Seq::empty(),
                        crate::files::max_tree_depth(),
                    );
                }
                return Err(e);
            },
        };
        let tfm = files_to_map(&files);
        let ghost tf = tfm@;
        let ghost tl = self@.tracklist;
        let ghost wd = self@.workdir;
        let ghost m = self@.store;
        let ghost fs = crate::files::spec_files_of(m, tree@.entries)->Ok_0;
        proof {
            tfm.lemma_view();
            self.workdir.lemma_view();
            crate::serialize::lemma_parse_entries_wf(m[th@].skip(5));
            assert(!Seq::<u8>::empty().contains(0u8));
            crate::files::lemma_tree_files_paths(
                m,
                tree@.entries,
                Seq::empty(),
                crate::files::max_tree_depth(),
            );
            crate::files::lemma_files_map_keys(fs);
            assert(files@.map_values(|f: File| f@) == fs);
            assert forall|p: Seq<u8>|
                #[trigger] tfm@.contains_key(p) implies !p.contains(0u8) by {
                let k = choose|k: int| 0 <= k < fs.len() && (#[trigger] fs[k]).path == p;
                assert(!fs[k].path.contains(0u8));
            }
        }
        proof {
            assert(spec_read_tree_files(m0, h@) == Ok::<Seq<FileV>, Error>(fs));
            assert(tf == files_map(fs));
        }
        let new_wd = match build_checkout_workdir(
            &self.store,
            &tfm,
            &self.tracklist,
            &self.workdir,
        ) {
            Ok(w) => w,
            Err(e) => {
                proof {
                    assert(!spec_blobs_readable(m0, files_map(fs), tl, wd));
                }
                return Err(e);
            },
        };
        // untracked files are only overwritten under force
        if !force {
            let st = match self.status(&tree) {
                Ok(s) => s,
                Err(e) => {
                    proof {
                        assert(false);
                    }
                    return Err(e);
                },
            };
            let ghost stv = st@;
            let mut found_untracked = false;
            let mut k: usize = 0;
            while k < st.len()
                invariant
                    k <= st.pairs@.len(),
                    st.wf(),
                    stv == st@,
                    found_untracked == exists|j: int|
                        0 <= j < k && (#[trigger] st.pairs@[j]).1 is Untracked,
                decreases st.pairs@.len() - k,
            {
                let v = st.val_at(k);
                let bad = match v {
                    FileStatus::Untracked => true,
                    _ => false,
                };
                if bad && !found_untracked {
                    found_untracked = true;
                    proof {
                        assert(st.pairs@[k as int].1 is Untracked);
                    }
                }
                k = k + 1;
            }
            if found_untracked {
                proof {
                    st.lemma_view();
                    let j = choose|j: int|
                        0 <= j < st.pairs@.len() && (#[trigger] st.pairs@[j]).1 is Untracked;
                    let p = st.pairs@[j].0@;
                    assert(st@.contains_key(p) && st@[p] == st.pairs@[j].1@);
                    assert(!no_untracked(stv));
                    assert(stv == spec_status(files_map(fs), tl, wd));
                    assert(tl == old(self)@.tracklist && wd == old(self)@.workdir);
                }
                return Err(Error::CheckoutFailed);
            }
            proof {
                st.lemma_view();
                assert forall|p: Seq<u8>|
                    st@.contains_key(p) implies !((#[trigger] st@[p]) is Untracked) by {
                    let j = choose|j: int|
                        0 <= j < st.pairs@.len() && (#[trigger] st.pairs@[j]).0@ == p;
                    assert(st@[p] == st.pairs@[j].1@);
                    if st.pairs@[j].1 is Untracked {
                        assert(false);
                    }
                }
                assert(no_untracked(stv));
            }
        }
        // commit the new state: worktree, tracklist, HEAD
        self.workdir = new_wd;
        let mut new_tl: Vec<Vec<u8>> = Vec::new();
        let mut j: usize = 0;
        while j < tfm.len()
            invariant
                j <= tfm.pairs@.len(),
                tfm.wf(),
                new_tl@.len() == j,
                forall|a: int| 0 <= a < j ==> (#[trigger] new_tl@[a])@ == tfm.pairs@[a].0@,
            decreases tfm.pairs@.len() - j,
        {
            let p2 = tfm.key_at(j);
            new_tl.push(copy_range(p2, 0, p2.len()));
            proof {
                assert(p2@.subrange(0, p2@.len() as int) =~= p2@);
            }
            j = j + 1;
        }
        self.tracklist = new_tl;
        self.set_head(new_head);
        proof {
            assert(old(self).spec_checkout_ok(new_head@, force)) by {
                assert(old(self).spec_resolve(new_head@) == Ok::<Seq<u8>, Error>(h@));
                assert(spec_read_tree_files(m0, h@) == Ok::<Seq<FileV>, Error>(fs));
                assert(m0 == old(self)@.store && tl == old(self)@.tracklist && wd == old(self)@.workdir);
                assert(spec_blobs_readable(m0, files_map(fs), tl, wd));
            }
            tfm.lemma_view();
            assert forall|a: int, b: int|
                0 <= a < b < self@.tracklist.len() implies self@.tracklist[a]
                != self@.tracklist[b] by {
                assert(tfm.pairs@[a].0@ != tfm.pairs@[b].0@);
            }
            assert forall|p: Seq<u8>|
                self@.tracklist.contains(p) == tf.contains_key(p) by {
                if self@.tracklist.contains(p) {
                    let a = choose|a: int|
                        0 <= a < self@.tracklist.len() && self@.tracklist[a] == p;
                    assert(tf.contains_key(tfm.pairs@[a].0@));
                }
                if tf.contains_key(p) {
                    let a = choose|a: int|
                        0 <= a < tfm.pairs@.len() && (#[trigger] tfm.pairs@[a]).0@ == p;
                    assert(self@.tracklist[a] == p);
                }
            }
            assert forall|b: Seq<u8>|
                self@.branches.contains_key(b) implies self@.store.contains_key(
                #[trigger] self@.branches[b],
            ) by {
                assert(old(self)@.branches.contains_key(b));
            }
            assert forall|p: Seq<u8>|
                #[trigger] self@.workdir.contains_key(p) implies !p.contains(0u8) by {}
        }
        Ok(())
    }
}

} // verus!
