//! The object model: hashes, blobs, trees, commits, file statuses, references
//! and the error set, together with their mathematical views.

use vstd::prelude::*;
use crate::bytes::{hex_of, hex_decode, to_hex, from_hex_range};
use crate::digest::{digest_of, sha1_digest};
use vstd::std_specs::cmp::PartialEqSpec;

verus! {

/// A 160-bit digest, stored as its 20 raw bytes.  Displayed as 40 lowercase
/// hexadecimal characters, which is also how it appears on the wire.
#[derive(Debug)]
pub struct Hash {
    bytes: Vec<u8>,
}

impl View for Hash {
    type V = Seq<u8>;

    closed spec fn view(&self) -> Seq<u8> {
        self.bytes@
    }
}

impl Hash {
    pub open spec fn wf(&self) -> bool {
        self@.len() == 20
    }

    /// The digest of the empty byte string, the placeholder value a fresh
    /// object carries before serialization stamps it.
    pub fn new() -> (h: Hash)
        ensures
            h@ == digest_of(Seq::<u8>::empty()),
            h.wf(),
    {
        let v: Vec<u8> = Vec::new();
        let d = sha1_digest(&v);
        proof {
            assert(v@ =~= Seq::<u8>::empty());
        }
        Hash { bytes: d }
    }

    /// Restamps this hash with the digest of `data`.
    pub fn update(&mut self, data: &Vec<u8>)
        ensures
            final(self)@ == digest_of(data@),
            final(self).wf(),
    {
        self.bytes = sha1_digest(data);
    }

    /// The hash whose raw bytes are `bytes`.
    pub fn from_bytes(bytes: Vec<u8>) -> (h: Hash)
        ensures
            h@ == bytes@,
    {
        Hash { bytes }
    }

    pub fn as_bytes(&self) -> (r: &Vec<u8>)
        ensures
            r@ == self@,
    {
        &self.bytes
    }

    /// The 40-character lowercase hexadecimal rendering.
    pub fn to_hex(&self) -> (r: Vec<u8>)
        ensures
            r@ == hex_of(self@),
    {
        to_hex(&self.bytes)
    }

    /// Parses a 40-character hexadecimal rendering; upper and lower case
    /// digits are accepted, as the digest parser accepts them.
    pub fn from_hex(s: &Vec<u8>) -> (r: Option<Hash>)
        ensures
            match r {
                Some(h) => s@.len() == 40 && hex_decode(s@) == Some(h@) && h.wf(),
                None => s@.len() != 40 || hex_decode(s@) is None,
            },
    {
        if s.len() != 40 {
            return None;
        }
        match from_hex_range(s, 0, 40) {
            Some(v) => {
                proof {
                    assert(s@.subrange(0, 40) =~= s@);
                    crate::bytes::lemma_hex_decode_len(s@);
                }
                Some(Hash { bytes: v })
            },
            None => {
                proof {
                    assert(s@.subrange(0, 40) =~= s@);
                }
                None
            },
        }
    }
}

impl Clone for Hash {
    fn clone(&self) -> (r: Self)
        ensures
            r@ == self@,
    {
        Hash { bytes: self.bytes.clone() }
    }
}

impl PartialEq for Hash {
    fn eq(&self, other: &Hash) -> (r: bool) {
        let r = self.bytes == other.bytes;
        proof {
            if r {
                assert(self.bytes@ =~= other.bytes@);
            }
        }
        r
    }
}

impl vstd::std_specs::cmp::PartialEqSpecImpl for Hash {
    open spec fn obeys_eq_spec() -> bool {
        true
    }

    open spec fn eq_spec(&self, other: &Hash) -> bool {
        self@ == other@
    }
}

// ---------------------------------------------------------------------------
// Tree entries and trees
// ---------------------------------------------------------------------------

#[derive(Clone, Copy, Debug, PartialEq, Eq, Structural)]
pub enum TreeEntryKind {
    Blob,
    Tree,
}

#[derive(Debug)]
pub struct TreeEntry {
    pub kind: TreeEntryKind,
    pub hash: Hash,
    pub name: Vec<u8>,
}

pub struct TreeEntryV {
    pub kind: TreeEntryKind,
    pub hash: Seq<u8>,
    pub name: Seq<u8>,
}

impl View for TreeEntry {
    type V = TreeEntryV;

    open spec fn view(&self) -> TreeEntryV {
        TreeEntryV { kind: self.kind, hash: self.hash@, name: self.name@ }
    }
}

/// A well-formed entry carries a full-length hash and a name free of the NUL
/// byte that terminates it on the wire.
pub open spec fn tree_entry_wf(e: TreeEntryV) -> bool {
    e.hash.len() == 20 && !e.name.contains(0u8)
}

impl TreeEntry {
    pub fn kind(&self) -> (k: TreeEntryKind)
        ensures
            k == self@.kind,
    {
        self.kind
    }

    pub fn hash(&self) -> (h: Hash)
        ensures
            h@ == self@.hash,
    {
        self.hash.clone()
    }

    pub fn name(&self) -> (n: &Vec<u8>)
        ensures
            n@ == self@.name,
    {
        &self.name
    }
}

impl Clone for TreeEntry {
    fn clone(&self) -> (r: Self)
        ensures
            r@ == self@,
    {
        TreeEntry { kind: self.kind, hash: self.hash.clone(), name: self.name.clone() }
    }
}

impl PartialEq for TreeEntry {
    fn eq(&self, other: &TreeEntry) -> (r: bool) {
        let r = self.kind == other.kind && self.hash == other.hash && self.name == other.name;
        proof {
            if r {
                assert(self.name@ =~= other.name@);
            } else if self@ == other@ {
                assert(self.name@ == other.name@);
                assert(forall|i: int|
                    0 <= i < self.name@.len() ==> self.name@[i] == other.name@[i]);
                assert(false);
            }
        }
        r
    }
}

impl vstd::std_specs::cmp::PartialEqSpecImpl for TreeEntry {
    open spec fn obeys_eq_spec() -> bool {
        true
    }

    open spec fn eq_spec(&self, other: &TreeEntry) -> bool {
        self@ == other@
    }
}

/// A directory snapshot: a sequence of named entries.
#[derive(Debug)]
pub struct Tree {
    pub hash: Hash,
    pub entries: Vec<TreeEntry>,
}

pub struct TreeV {
    pub hash: Seq<u8>,
    pub entries: Seq<TreeEntryV>,
}

impl View for Tree {
    type V = TreeV;

    open spec fn view(&self) -> TreeV {
        TreeV { hash: self.hash@, entries: self.entries@.map_values(|e: TreeEntry| e@) }
    }
}

impl Tree {
    pub fn new() -> (t: Tree)
        ensures
            t@.entries == Seq::<TreeEntryV>::empty(),
            t@.hash == digest_of(Seq::<u8>::empty()),
    {
        let t = Tree { hash: Hash::new(), entries: Vec::new() };
        proof {
            assert(t@.entries =~= Seq::<TreeEntryV>::empty());
        }
        t
    }

    pub fn hash(&self) -> (h: Hash)
        ensures
            h@ == self@.hash,
    {
        self.hash.clone()
    }

    pub fn entries(&self) -> (r: &Vec<TreeEntry>)
        ensures
            r@.map_values(|e: TreeEntry| e@) == self@.entries,
    {
        &self.entries
    }

    pub fn is_empty(&self) -> (r: bool)
        ensures
            r == (self@.entries.len() == 0),
    {
        self.entries.is_empty()
    }

    /// Appends a blob entry with the given hash and filename.
    pub fn add_blob(&mut self, hash: Hash, name: Vec<u8>)
        ensures
            final(self)@.entries == old(self)@.entries.push(
                TreeEntryV { kind: TreeEntryKind::Blob, hash: hash@, name: name@ },
            ),
            final(self)@.hash == old(self)@.hash,
    {
        self.entries.push(TreeEntry { kind: TreeEntryKind::Blob, hash, name });
        proof {
            assert(self@.entries =~= old(self)@.entries.push(self.entries@.last()@));
        }
    }

    /// Appends a tree entry with the given hash and filename.
    pub fn add_tree(&mut self, hash: Hash, name: Vec<u8>)
        ensures
            final(self)@.entries == old(self)@.entries.push(
                TreeEntryV { kind: TreeEntryKind::Tree, hash: hash@, name: name@ },
            ),
            final(self)@.hash == old(self)@.hash,
    {
        self.entries.push(TreeEntry { kind: TreeEntryKind::Tree, hash, name });
        proof {
            assert(self@.entries =~= old(self)@.entries.push(self.entries@.last()@));
        }
    }
}

impl PartialEq for Tree {
    fn eq(&self, other: &Tree) -> (r: bool) {
        let r = self.hash == other.hash && self.entries == other.entries;
        proof {
            let se = self.entries@.map_values(|e: TreeEntry| e@);
            let oe = other.entries@.map_values(|e: TreeEntry| e@);
            if r {
                assert(self.entries@.len() == other.entries@.len());
                assert forall|i: int| 0 <= i < se.len() implies se[i] == oe[i] by {
                    assert(self.entries@[i].eq_spec(&other.entries@[i]));
                }
                assert(se =~= oe);
            } else if self@.hash == other@.hash && se == oe {
                assert(se.len() == self.entries@.len());
                assert(oe.len() == other.entries@.len());
                assert(self.entries@.len() == other.entries@.len());
                assert forall|i: int|
                    0 <= i < self.entries@.len() implies (self.entries@[i]).eq_spec(
                    &other.entries@[i],
                ) by {
                    assert(se[i] == oe[i]);
                }
                assert(false);
            }
        }
        r
    }
}

impl vstd::std_specs::cmp::PartialEqSpecImpl for Tree {
    open spec fn obeys_eq_spec() -> bool {
        true
    }

    open spec fn eq_spec(&self, other: &Tree) -> bool {
        self@.hash == other@.hash && self@.entries == other@.entries
    }
}

// ---------------------------------------------------------------------------
// Blobs
// ---------------------------------------------------------------------------

/// The hashed contents of a file.
#[derive(Debug)]
pub struct Blob {
    pub hash: Hash,
    pub content: Vec<u8>,
}

pub struct BlobV {
    pub hash: Seq<u8>,
    pub content: Seq<u8>,
}

impl View for Blob {
    type V = BlobV;

    open spec fn view(&self) -> BlobV {
        BlobV { hash: self.hash@, content: self.content@ }
    }
}

impl Blob {
    pub fn new(content: Vec<u8>) -> (b: Blob)
        ensures
            b@.content == content@,
            b@.hash == digest_of(Seq::<u8>::empty()),
    {
        Blob { hash: Hash::new(), content }
    }

    pub fn hash(&self) -> (h: Hash)
        ensures
            h@ == self@.hash,
    {
        self.hash.clone()
    }

    pub fn content(&self) -> (r: &Vec<u8>)
        ensures
            r@ == self@.content,
    {
        &self.content
    }

    /// Set the hash to the digest of `data`.
    pub fn update_hash(&mut self, data: &Vec<u8>)
        ensures
            final(self)@.hash == digest_of(data@),
            final(self)@.hash.len() == 20,
            final(self)@.content == old(self)@.content,
    {
        self.hash.update(data);
    }
}

impl PartialEq for Blob {
    fn eq(&self, other: &Blob) -> (r: bool) {
        let r = self.hash == other.hash && self.content == other.content;
        proof {
            if r {
                assert(self.content@ =~= other.content@);
            } else if self@.hash == other@.hash && self@.content == other@.content {
                assert(forall|i: int|
                    0 <= i < self.content@.len() ==> self.content@[i] == other.content@[i]);
                assert(false);
            }
        }
        r
    }
}

impl vstd::std_specs::cmp::PartialEqSpecImpl for Blob {
    open spec fn obeys_eq_spec() -> bool {
        true
    }

    open spec fn eq_spec(&self, other: &Blob) -> bool {
        self@.hash == other@.hash && self@.content == other@.content
    }
}

// ---------------------------------------------------------------------------
// Commits
// ---------------------------------------------------------------------------

/// A point-in-time snapshot: a root tree, at most one parent, and metadata.
/// The timestamp is a count of milliseconds since the Unix epoch.
#[derive(Debug)]
pub struct Commit {
    pub hash: Hash,
    pub tree: Hash,
    pub parent: Option<Hash>,
    pub author: Vec<u8>,
    pub time: i64,
    pub msg: Vec<u8>,
}

/// Commit metadata used to create a commit object.
#[derive(Debug)]
pub struct CommitInfo {
    pub tree: Hash,
    pub parent: Option<Hash>,
    pub author: Vec<u8>,
    pub time: i64,
    pub msg: Vec<u8>,
}

pub struct CommitV {
    pub hash: Seq<u8>,
    pub tree: Seq<u8>,
    pub parent: Option<Seq<u8>>,
    pub author: Seq<u8>,
    pub time: int,
    pub msg: Seq<u8>,
}

pub open spec fn view_opt_hash(p: Option<Hash>) -> Option<Seq<u8>> {
    match p {
        Some(h) => Some(h@),
        None => None,
    }
}

impl View for Commit {
    type V = CommitV;

    open spec fn view(&self) -> CommitV {
        CommitV {
            hash: self.hash@,
            tree: self.tree@,
            parent: view_opt_hash(self.parent),
            author: self.author@,
            time: self.time as int,
            msg: self.msg@,
        }
    }
}

impl Commit {
    pub fn new(info: CommitInfo) -> (c: Commit)
        ensures
            c@.hash == digest_of(Seq::<u8>::empty()),
            c@.tree == info.tree@,
            c@.parent == view_opt_hash(info.parent),
            c@.author == info.author@,
            c@.time == info.time as int,
            c@.msg == info.msg@,
    {
        Commit {
            hash: Hash::new(),
            tree: info.tree,
            parent: info.parent,
            author: info.author,
            time: info.time,
            msg: info.msg,
        }
    }

    pub fn hash(&self) -> (h: Hash)
        ensures
            h@ == self@.hash,
    {
        self.hash.clone()
    }

    /// Set the hash to the digest of `data`.
    pub fn update_hash(&mut self, data: &Vec<u8>)
        ensures
            final(self)@ == (CommitV { hash: digest_of(data@), ..old(self)@ }),
            final(self)@.hash.len() == 20,
    {
        self.hash.update(data);
    }

    pub fn tree_hash(&self) -> (h: Hash)
        ensures
            h@ == self@.tree,
    {
        self.tree.clone()
    }

    pub fn parent_hash(&self) -> (p: Option<Hash>)
        ensures
            view_opt_hash(p) == self@.parent,
    {
        match &self.parent {
            Some(h) => Some(h.clone()),
            None => None,
        }
    }

    pub fn author(&self) -> (r: &Vec<u8>)
        ensures
            r@ == self@.author,
    {
        &self.author
    }

    pub fn time(&self) -> (t: i64)
        ensures
            t as int == self@.time,
    {
        self.time
    }

    pub fn msg(&self) -> (r: &Vec<u8>)
        ensures
            r@ == self@.msg,
    {
        &self.msg
    }
}

impl Clone for Commit {
    fn clone(&self) -> (r: Self)
        ensures
            r@ == self@,
    {
        Commit {
            hash: self.hash.clone(),
            tree: self.tree.clone(),
            parent: match &self.parent {
                Some(h) => Some(h.clone()),
                None => None,
            },
            author: self.author.clone(),
            time: self.time,
            msg: self.msg.clone(),
        }
    }
}

impl PartialEq for Commit {
    fn eq(&self, other: &Commit) -> (r: bool) {
        let pe = match (&self.parent, &other.parent) {
            (Some(a), Some(b)) => a == b,
            (None, None) => true,
            _ => false,
        };
        let r = pe && self.hash == other.hash && self.tree == other.tree && self.author
            == other.author && self.time == other.time && self.msg == other.msg;
        proof {
            if r {
                assert(self.author@ =~= other.author@);
                assert(self.msg@ =~= other.msg@);
            } else if self@ == other@ {
                assert(self.author@ == other.author@);
                assert(self.msg@ == other.msg@);
                assert(forall|i: int|
                    0 <= i < self.author@.len() ==> self.author@[i] == other.author@[i]);
                assert(forall|i: int| 0 <= i < self.msg@.len() ==> self.msg@[i] == other.msg@[i]);
                assert(view_opt_hash(self.parent) == view_opt_hash(other.parent));
                match (&self.parent, &other.parent) {
                    (Some(a), Some(b)) => {
                        assert(a@ == b@);
                    },
                    _ => {},
                }
                assert(false);
            }
        }
        r
    }
}

impl vstd::std_specs::cmp::PartialEqSpecImpl for Commit {
    open spec fn obeys_eq_spec() -> bool {
        true
    }

    open spec fn eq_spec(&self, other: &Commit) -> bool {
        self@ == other@
    }
}

// ---------------------------------------------------------------------------
// Files, changes, statuses, references, errors
// ---------------------------------------------------------------------------

/// A file stored in a tree object: a worktree-relative path and the hash of
/// its blob.
#[derive(Debug)]
pub struct File {
    pub path: Vec<u8>,
    pub hash: Hash,
}

pub struct FileV {
    pub path: Seq<u8>,
    pub hash: Seq<u8>,
}

impl View for File {
    type V = FileV;

    open spec fn view(&self) -> FileV {
        FileV { path: self.path@, hash: self.hash@ }
    }
}

impl File {
    pub fn new(path: Vec<u8>, hash: Hash) -> (f: File)
        ensures
            f@.path == path@,
            f@.hash == hash@,
    {
        File { path, hash }
    }
}

impl Clone for File {
    fn clone(&self) -> (r: Self)
        ensures
            r@ == self@,
    {
        File { path: self.path.clone(), hash: self.hash.clone() }
    }
}

/// One end of a change: a stored file object or a working-tree path.
#[derive(Debug)]
pub enum ChangeEntry {
    File(File),
    Path(Vec<u8>),
}

pub enum ChangeEntryV {
    File(FileV),
    Path(Seq<u8>),
}

impl View for ChangeEntry {
    type V = ChangeEntryV;

    open spec fn view(&self) -> ChangeEntryV {
        match self {
            ChangeEntry::File(f) => ChangeEntryV::File(f@),
            ChangeEntry::Path(p) => ChangeEntryV::Path(p@),
        }
    }
}

/// The path an entry names.
pub open spec fn change_entry_path(e: ChangeEntryV) -> Seq<u8> {
    match e {
        ChangeEntryV::File(f) => f.path,
        ChangeEntryV::Path(p) => p,
    }
}

impl ChangeEntry {
    pub fn path(&self) -> (r: &Vec<u8>)
        ensures
            r@ == change_entry_path(self@),
    {
        match self {
            ChangeEntry::File(f) => &f.path,
            ChangeEntry::Path(p) => p,
        }
    }
}

/// One difference between two file sets.
#[derive(Debug)]
pub enum Change {
    Add(ChangeEntry),
    Remove(ChangeEntry),
    Modify(ChangeEntry, ChangeEntry),
}

pub enum ChangeV {
    Add(ChangeEntryV),
    Remove(ChangeEntryV),
    Modify(ChangeEntryV, ChangeEntryV),
}

impl View for Change {
    type V = ChangeV;

    open spec fn view(&self) -> ChangeV {
        match self {
            Change::Add(e) => ChangeV::Add(e@),
            Change::Remove(e) => ChangeV::Remove(e@),
            Change::Modify(a, b) => ChangeV::Modify(a@, b@),
        }
    }
}

pub open spec fn change_path(c: ChangeV) -> Seq<u8> {
    match c {
        ChangeV::Add(e) => change_entry_path(e),
        ChangeV::Remove(e) => change_entry_path(e),
        ChangeV::Modify(e, _) => change_entry_path(e),
    }
}

impl Change {
    pub fn new_add(new: ChangeEntry) -> (c: Change)
        ensures
            c@ == ChangeV::Add(new@),
    {
        Change::Add(new)
    }

    pub fn new_remove(old_e: ChangeEntry) -> (c: Change)
        ensures
            c@ == ChangeV::Remove(old_e@),
    {
        Change::Remove(old_e)
    }

    pub fn new_modify(old_e: ChangeEntry, new: ChangeEntry) -> (c: Change)
        ensures
            c@ == ChangeV::Modify(old_e@, new@),
    {
        Change::Modify(old_e, new)
    }

    /// Returns the path of the changed file.
    pub fn path(&self) -> (r: &Vec<u8>)
        ensures
            r@ == change_path(self@),
    {
        match self {
            Change::Add(e) => e.path(),
            Change::Remove(e) => e.path(),
            Change::Modify(e, _) => e.path(),
        }
    }
}

/// The status of one path against a reference tree.
#[derive(Clone, Copy, Debug, PartialEq, Eq, Structural)]
pub enum FileStatus {
    Untracked,
    Unmodified,
    Modified,
    Added,
    /// File was removed from the tracking list.
    Deleted,
    /// File is tracked but missing from the working tree.
    Missing,
}

pub open spec fn status_code(s: FileStatus) -> char {
    match s {
        FileStatus::Untracked => '?',
        FileStatus::Unmodified => ' ',
        FileStatus::Modified => 'M',
        FileStatus::Added => 'A',
        FileStatus::Deleted => 'R',
        FileStatus::Missing => '!',
    }
}

impl FileStatus {
    /// The one-character display code of this status.
    pub fn code(&self) -> (c: char)
        ensures
            c == status_code(*self),
    {
        match self {
            FileStatus::Untracked => '?',
            FileStatus::Unmodified => ' ',
            FileStatus::Modified => 'M',
            FileStatus::Added => 'A',
            FileStatus::Deleted => 'R',
            FileStatus::Missing => '!',
        }
    }
}

impl View for FileStatus {
    type V = FileStatus;

    open spec fn view(&self) -> FileStatus {
        *self
    }
}

/// How a merge was realized.
#[derive(Clone, Copy, Debug, PartialEq, Eq, Structural)]
pub enum MergeStrategy {
    FastForward,
    ThreeWay,
}

/// The current-position pointer: a branch name or a literal hash.
#[derive(Debug)]
pub enum Reference {
    Hash(Hash),
    Branch(Vec<u8>),
}

pub enum ReferenceV {
    Hash(Seq<u8>),
    Branch(Seq<u8>),
}

impl View for Reference {
    type V = ReferenceV;

    open spec fn view(&self) -> ReferenceV {
        match self {
            Reference::Hash(h) => ReferenceV::Hash(h@),
            Reference::Branch(b) => ReferenceV::Branch(b@),
        }
    }
}

impl Clone for Reference {
    fn clone(&self) -> (r: Self)
        ensures
            r@ == self@,
    {
        match self {
            Reference::Hash(h) => Reference::Hash(h.clone()),
            Reference::Branch(b) => Reference::Branch(b.clone()),
        }
    }
}

/// The closed error set of the library.
#[derive(Debug)]
pub enum Error {
    BranchExists,
    CheckoutFailed,
    DirtyWorktree,
    FileNotFound,
    IoError,
    MergeFailed(Vec<Vec<u8>>),
    NoRepository,
    NothingToMerge,
    ObjectCorrupted,
    ObjectMissing,
    ObjectNotFound,
    PushFailed,
    ReferenceNotFound,
    RevisionNotFound,
    RepositoryExists,
}

} // verus!
