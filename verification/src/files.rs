//! Flattening a tree into its files, maps over file sets, and the diff
//! algorithm over two file sets.

use vstd::prelude::*;
use crate::bytemap::ByteMap;
use crate::bytes::copy_range;
use crate::digest::digest_of;
use crate::object::{
    Tree,
    TreeEntry,
    TreeEntryV,
    TreeEntryKind,
    File,
    FileV,
    Change,
    ChangeV,
    ChangeEntry,
    ChangeEntryV,
    Error,
    change_entry_path,
    change_path,
};
use crate::serialize::{spec_parse_tree, spec_serialize_blob};
use crate::store::Store;

verus! {

/// The deepest tree nesting a traversal follows before treating the object
/// graph as corrupted.
pub open spec fn max_tree_depth() -> nat {
    1024
}

/// The files under a sequence of entries, depth first, each path prefixed.
/// `fuel` bounds the nesting of subtrees.
pub open spec fn spec_tree_files(
    m: Map<Seq<u8>, Seq<u8>>,
    entries: Seq<TreeEntryV>,
    prefix: Seq<u8>,
    fuel: nat,
) -> Result<Seq<FileV>, Error>
    decreases fuel, entries.len(),
{
    if entries.len() == 0 {
        Ok(Seq::empty())
    } else {
        let e = entries[0];
        match e.kind {
            TreeEntryKind::Blob => match spec_tree_files(m, entries.drop_first(), prefix, fuel) {
                Ok(rest) => Ok(seq![FileV { path: prefix + e.name, hash: e.hash }] + rest),
                Err(err) => Err(err),
            },
            TreeEntryKind::Tree => if fuel == 0 {
                Err(Error::ObjectCorrupted)
            } else if !m.contains_key(e.hash) {
                Err(Error::ObjectMissing)
            } else {
                match spec_parse_tree(m[e.hash]) {
                    None => Err(Error::ObjectCorrupted),
                    Some(sub) => match spec_tree_files(
                        m,
                        sub,
                        prefix + e.name + seq![47u8],
                        (fuel - 1) as nat,
                    ) {
                        Err(err) => Err(err),
                        Ok(subfiles) => match spec_tree_files(
                            m,
                            entries.drop_first(),
                            prefix,
                            fuel,
                        ) {
                            Ok(rest) => Ok(subfiles + rest),
                            Err(err) => Err(err),
                        },
                    },
                }
            },
        }
    }
}

/// The files of a whole tree: its entries from an empty prefix.
pub open spec fn spec_files_of(m: Map<Seq<u8>, Seq<u8>>, entries: Seq<TreeEntryV>) -> Result<
    Seq<FileV>,
    Error,
> {
    spec_tree_files(m, entries, Seq::empty(), max_tree_depth())
}

fn tree_files_rec(
    store: &Store,
    entries: &Vec<TreeEntry>,
    i: usize,
    prefix: &Vec<u8>,
    fuel: usize,
) -> (r: Result<Vec<File>, Error>)
    requires
        store.wf(),
        i <= entries@.len(),
    ensures
        (match r {
            Ok(files) => spec_tree_files(
                store@,
                entries@.map_values(|e: TreeEntry| e@).skip(i as int),
                prefix@,
                fuel as nat,
            ) matches Ok(fs) && files@.map_values(|f: File| f@) == fs,
            Err(err) => spec_tree_files(
                store@,
                entries@.map_values(|e: TreeEntry| e@).skip(i as int),
                prefix@,
                fuel as nat,
            ) == Err::<Seq<FileV>, Error>(err),
        }),
    decreases fuel, entries@.len() - i,
{
    let ghost evs = entries@.map_values(|e: TreeEntry| e@).skip(i as int);
    if i == entries.len() {
        proof {
            assert(evs =~= Seq::<TreeEntryV>::empty());
        }
        let files: Vec<File> = Vec::new();
        proof {
            assert(files@.map_values(|f: File| f@) =~= Seq::<FileV>::empty());
        }
        return Ok(files);
    }
    proof {
        assert(evs[0] == entries@[i as int]@);
        assert(evs.drop_first() =~= entries@.map_values(|e: TreeEntry| e@).skip(i + 1));
    }
    let e = &entries[i];
    match e.kind {
        TreeEntryKind::Blob => {
            let rest = match tree_files_rec(store, entries, i + 1, prefix, fuel) {
                Ok(v) => v,
                Err(err) => {
                    return Err(err);
                },
            };
            let mut path = copy_range(prefix, 0, prefix.len());
            path.extend_from_slice(e.name.as_slice());
            proof {
                assert(prefix@.subrange(0, prefix@.len() as int) =~= prefix@);
            }
            let mut files: Vec<File> = Vec::new();
            files.push(File::new(path, e.hash.clone()));
            let ghost restv = rest@;
            let mut rest = rest;
            files.append(&mut rest);
            proof {
                let lhs = files@.map_values(|f: File| f@);
                let rhs = seq![FileV { path: prefix@ + evs[0].name, hash: evs[0].hash }]
                    + (spec_tree_files(store@, evs.drop_first(), prefix@, fuel as nat))->Ok_0;
                assert(lhs.len() == rhs.len());
                assert(files@[0]@.path =~= prefix@ + evs[0].name);
                assert(lhs[0] == rhs[0]) by {
                    assert(lhs[0] == files@[0]@);
                    assert(rhs[0] == (FileV { path: prefix@ + evs[0].name, hash: evs[0].hash }));
                    assert(files@[0]@.hash == evs[0].hash);
                }
                assert forall|j: int| 1 <= j < lhs.len() implies lhs[j] == rhs[j] by {
                    assert(files@[j] == restv[j - 1]);
                    assert(lhs[j] == restv[j - 1]@);
                    assert(rhs[j] == restv.map_values(|f: File| f@)[j - 1]);
                }
                assert(lhs =~= rhs);
            }
            Ok(files)
        },
        TreeEntryKind::Tree => {
            if fuel == 0 {
                return Err(Error::ObjectCorrupted);
            }
            let sub = match store.read_tree(&e.hash) {
                Ok(t) => t,
                Err(err) => {
                    return Err(
                        match err {
                            Error::ObjectNotFound => Error::ObjectMissing,
                            other => other,
                        },
                    );
                },
            };
            let mut sub_prefix = copy_range(prefix, 0, prefix.len());
            sub_prefix.extend_from_slice(e.name.as_slice());
            sub_prefix.push(47);
            proof {
                assert(prefix@.subrange(0, prefix@.len() as int) =~= prefix@);
                assert(sub_prefix@ =~= prefix@ + evs[0].name + seq![47u8]);
            }
            let subfiles = match tree_files_rec(store, &sub.entries, 0, &sub_prefix, fuel - 1) {
                Ok(v) => v,
                Err(err) => {
                    proof {
                        assert(sub.entries@.map_values(|x: TreeEntry| x@).skip(0)
                            =~= sub@.entries);
                    }
                    return Err(err);
                },
            };
            proof {
                assert(sub.entries@.map_values(|x: TreeEntry| x@).skip(0) =~= sub@.entries);
            }
            let rest = match tree_files_rec(store, entries, i + 1, prefix, fuel) {
                Ok(v) => v,
                Err(err) => {
                    return Err(err);
                },
            };
            let ghost subv = subfiles@;
            let ghost restv = rest@;
            let mut files = subfiles;
            let mut rest = rest;
            files.append(&mut rest);
            proof {
                let lhs = files@.map_values(|f: File| f@);
                let rhs = (spec_tree_files(
                    store@,
                    sub@.entries,
                    prefix@ + evs[0].name + seq![47u8],
                    (fuel - 1) as nat,
                ))->Ok_0 + (spec_tree_files(store@, evs.drop_first(), prefix@, fuel as nat))->Ok_0;
                assert(lhs.len() == rhs.len());
                assert forall|j: int| 0 <= j < lhs.len() implies lhs[j] == rhs[j] by {
                    if j < subv.len() {
                        assert(files@[j] == subv[j]);
                        assert(rhs[j] == subv.map_values(|f: File| f@)[j]);
                    } else {
                        assert(files@[j] == restv[j - subv.len()]);
                        assert(rhs[j] == restv.map_values(|f: File| f@)[j - subv.len()]);
                    }
                }
                assert(lhs =~= rhs);
            }
            Ok(files)
        },
    }
}

impl Tree {
    /// Recursively lists every file in the tree, depth first, reading
    /// subtrees from the store.
    pub fn files(&self, store: &Store) -> (r: Result<Vec<File>, Error>)
        requires
            store.wf(),
        ensures
            (match r {
                Ok(files) => spec_files_of(store@, self@.entries) matches Ok(fs)
                    && files@.map_values(|f: File| f@) == fs,
                Err(err) => spec_files_of(store@, self@.entries) == Err::<Seq<FileV>, Error>(err),
            }),
    {
        let prefix: Vec<u8> = Vec::new();
        proof {
            assert(self.entries@.map_values(|e: TreeEntry| e@).skip(0) =~= self@.entries);
            assert(prefix@ =~= Seq::<u8>::empty());
        }
        tree_files_rec(store, &self.entries, 0, &prefix, 1024)
    }
}

/// The path-to-hash map of a file list; later entries win.
pub open spec fn files_map(s: Seq<FileV>) -> Map<Seq<u8>, Seq<u8>>
    decreases s.len(),
{
    if s.len() == 0 {
        Map::empty()
    } else {
        files_map(s.drop_last()).insert(s.last().path, s.last().hash)
    }
}

/// Builds the path-to-hash map of a file list.
pub fn files_to_map(files: &Vec<File>) -> (r: ByteMap<crate::object::Hash>)
    ensures
        r.wf(),
        r@ == files_map(files@.map_values(|f: File| f@)),
{
    let ghost fv = files@.map_values(|f: File| f@);
    let mut r: ByteMap<crate::object::Hash> = ByteMap::new();
    let mut i: usize = 0;
    while i < files.len()
        invariant
            i <= files@.len(),
            fv == files@.map_values(|f: File| f@),
            r.wf(),
            r@ == files_map(fv.take(i as int)),
        decreases files@.len() - i,
    {
        let f = &files[i];
        r.insert(copy_range(&f.path, 0, f.path.len()), f.hash.clone());
        proof {
            assert(f.path@.subrange(0, f.path@.len() as int) =~= f.path@);
            assert(fv.take(i + 1).drop_last() =~= fv.take(i as int));
            assert(fv.take(i + 1).last() == fv[i as int]);
        }
        i = i + 1;
    }
    proof {
        assert(fv.take(fv.len() as int) =~= fv);
    }
    r
}

// ---------------------------------------------------------------------------
// Diff
// ---------------------------------------------------------------------------

/// An entry agrees with a file-set map: its path is in the map, and a stored
/// file entry carries the map's hash.
pub open spec fn entry_matches(m: Map<Seq<u8>, Seq<u8>>, e: ChangeEntryV) -> bool {
    m.contains_key(change_entry_path(e)) && (e matches ChangeEntryV::File(f) ==> f.hash
        == m[f.path])
}

/// One change correctly relates the two file sets at its path.
pub open spec fn valid_change(
    from: Map<Seq<u8>, Seq<u8>>,
    to: Map<Seq<u8>, Seq<u8>>,
    c: ChangeV,
) -> bool {
    match c {
        ChangeV::Add(e) => entry_matches(to, e) && !from.contains_key(change_entry_path(e)),
        ChangeV::Remove(e) => entry_matches(from, e) && !to.contains_key(change_entry_path(e)),
        ChangeV::Modify(a, b) => entry_matches(from, a) && entry_matches(to, b)
            && change_entry_path(a) == change_entry_path(b) && from[change_entry_path(a)] != to[
            change_entry_path(b)
        ],
    }
}

/// A path at which the two file sets disagree.
pub open spec fn change_needed(
    from: Map<Seq<u8>, Seq<u8>>,
    to: Map<Seq<u8>, Seq<u8>>,
    p: Seq<u8>,
) -> bool {
    (from.contains_key(p) && to.contains_key(p) && from[p] != to[p]) || (from.contains_key(p)
        != to.contains_key(p))
}

/// A complete, duplicate-free change set between two file-set maps.
pub open spec fn diff_post(
    from: Map<Seq<u8>, Seq<u8>>,
    to: Map<Seq<u8>, Seq<u8>>,
    changes: Seq<ChangeV>,
) -> bool {
    &&& forall|i: int| 0 <= i < changes.len() ==> valid_change(from, to, #[trigger] changes[i])
    &&& forall|p: Seq<u8>|
        change_needed(from, to, p) ==> exists|i: int|
            0 <= i < changes.len() && change_path(#[trigger] changes[i]) == p
    &&& forall|i: int, j: int|
        0 <= i < j < changes.len() ==> change_path(#[trigger] changes[i]) != change_path(
            #[trigger] changes[j],
        )
}

/// The mirror image of a change, for the symmetry law.
pub open spec fn swap_change(c: ChangeV) -> ChangeV {
    match c {
        ChangeV::Add(e) => ChangeV::Remove(e),
        ChangeV::Remove(e) => ChangeV::Add(e),
        ChangeV::Modify(a, b) => ChangeV::Modify(b, a),
    }
}

/// Diffing in the other direction yields exactly the mirrored change set:
/// additions and removals swap, and modifications reverse their endpoints.
pub proof fn lemma_diff_symmetry(
    from: Map<Seq<u8>, Seq<u8>>,
    to: Map<Seq<u8>, Seq<u8>>,
    changes: Seq<ChangeV>,
)
    requires
        diff_post(from, to, changes),
    ensures
        diff_post(to, from, changes.map_values(|c: ChangeV| swap_change(c))),
{
    let sw = changes.map_values(|c: ChangeV| swap_change(c));
    assert forall|i: int| 0 <= i < sw.len() implies valid_change(to, from, #[trigger] sw[i]) by {
        assert(valid_change(from, to, changes[i]));
    }
    assert forall|p: Seq<u8>| change_needed(to, from, p) implies exists|i: int|
        0 <= i < sw.len() && change_path(#[trigger] sw[i]) == p by {
        assert(change_needed(from, to, p));
        let i = choose|i: int|
            0 <= i < changes.len() && change_path(#[trigger] changes[i]) == p;
        assert(change_path(sw[i]) == p);
    }
    assert forall|i: int, j: int|
        0 <= i < j < sw.len() implies change_path(#[trigger] sw[i]) != change_path(
        #[trigger] sw[j],
    ) by {
        assert(change_path(changes[i]) != change_path(changes[j]));
    }
}

/// The changes between two file-set maps, each side given both as a map and
/// as the underlying association list.
#[verifier::rlimit(100)]
fn diff_maps(fm: &ByteMap<crate::object::Hash>, tm: &ByteMap<crate::object::Hash>) -> (r: Vec<
    Change,
>)
    requires
        fm.wf(),
        tm.wf(),
    ensures
        diff_post(fm@, tm@, r@.map_values(|c: Change| c@)),
{
    proof {
        fm.lemma_view();
        tm.lemma_view();
    }
    let mut out: Vec<Change> = Vec::new();
    let mut i: usize = 0;
    // removed and modified paths: those in `from`
    while i < fm.len()
        invariant
            i <= fm.pairs@.len(),
            fm.wf(),
            tm.wf(),
            forall|c: int|
                0 <= c < out@.len() ==> valid_change(
                    fm@,
                    tm@,
                    (#[trigger] out@[c])@,
                ),
            forall|c: int|
                0 <= c < out@.len() ==> exists|j: int|
                    0 <= j < i && change_path((#[trigger] out@[c])@) == fm.pairs@[j].0@,
            forall|j: int|
                0 <= j < i && change_needed(fm@, tm@, (#[trigger] fm.pairs@[j]).0@) ==> exists|
                    c: int,
                |
                    0 <= c < out@.len() && change_path((#[trigger] out@[c])@) == fm.pairs@[j].0@,
            forall|c: int, d: int|
                0 <= c < d < out@.len() ==> change_path((#[trigger] out@[c])@) != change_path(
                    (#[trigger] out@[d])@,
                ),
        decreases fm.pairs@.len() - i,
    {
        proof {
            fm.lemma_view();
            tm.lemma_view();
        }
        let p = fm.key_at(i);
        let h = fm.val_at(i);
        let path = copy_range(p, 0, p.len());
        proof {
            assert(p@.subrange(0, p@.len() as int) =~= p@);
        }
        let ghost out0 = out@;
        match tm.get(&path) {
            Some(th) => {
                if !crate::bytes::bytes_eq(h.as_bytes(), th.as_bytes()) {
                    let old_f = File::new(path, h.clone());
                    let mut path2: Vec<u8> = copy_range(p, 0, p.len());
                    proof {
                        assert(p@.subrange(0, p@.len() as int) =~= p@);
                    }
                    let new_f = File::new(path2, th.clone());
                    out.push(
                        Change::new_modify(ChangeEntry::File(old_f), ChangeEntry::File(new_f)),
                    );
                }
            },
            None => {
                out.push(Change::new_remove(ChangeEntry::File(File::new(path, h.clone()))));
            },
        }
        proof {
            assert(forall|c: int| 0 <= c < out0.len() ==> out@[c] == out0[c]);
            assert forall|j: int|
                0 <= j < i + 1 && change_needed(fm@, tm@, (#[trigger] fm.pairs@[j]).0@) implies
                exists|c: int|
                    0 <= c < out@.len() && change_path((#[trigger] out@[c])@)
                        == fm.pairs@[j].0@ by {
                if j < i {
                    let c = choose|c: int|
                        0 <= c < out0.len() && change_path((#[trigger] out0[c])@)
                            == fm.pairs@[j].0@;
                    assert(change_path(out@[c]@) == fm.pairs@[j].0@);
                } else {
                    if change_needed(fm@, tm@, fm.pairs@[j].0@) {
                        assert(out@.len() > out0.len());
                        assert(change_path(out@[out@.len() - 1]@) == fm.pairs@[j].0@);
                    }
                }
            }
            assert forall|c: int, d: int|
                0 <= c < d < out@.len() implies change_path((#[trigger] out@[c])@) != change_path(
                (#[trigger] out@[d])@,
            ) by {
                if d == out@.len() - 1 && out@.len() > out0.len() {
                    let j = choose|j: int|
                        0 <= j < i && change_path((#[trigger] out0[c])@) == fm.pairs@[j].0@;
                    assert(fm.pairs@[j].0@ != fm.pairs@[i as int].0@);
                }
            }
        }
        i = i + 1;
    }
    // added paths: those only in `to`
    let mut k: usize = 0;
    while k < tm.len()
        invariant
            k <= tm.pairs@.len(),
            fm.wf(),
            tm.wf(),
            forall|c: int|
                0 <= c < out@.len() ==> valid_change(
                    fm@,
                    tm@,
                    (#[trigger] out@[c])@,
                ),
            forall|p: Seq<u8>|
                fm@.contains_key(p) && change_needed(fm@, tm@, p) ==> exists|c: int|
                    0 <= c < out@.len() && change_path((#[trigger] out@[c])@) == p,
            forall|j: int|
                0 <= j < k && change_needed(fm@, tm@, (#[trigger] tm.pairs@[j]).0@) ==> exists|
                    c: int,
                |
                    0 <= c < out@.len() && change_path((#[trigger] out@[c])@) == tm.pairs@[j].0@,
            forall|c: int, d: int|
                0 <= c < d < out@.len() ==> change_path((#[trigger] out@[c])@) != change_path(
                    (#[trigger] out@[d])@,
                ),
            forall|c: int|
                0 <= c < out@.len() ==> fm@.contains_key(change_path((#[trigger] out@[c])@)) || (
                exists|j: int| 0 <= j < k && change_path(out@[c]@) == (#[trigger] tm.pairs@[j]).0@),
        decreases tm.pairs@.len() - k,
    {
        proof {
            fm.lemma_view();
            tm.lemma_view();
        }
        let p = tm.key_at(k);
        let h = tm.val_at(k);
        let path = copy_range(p, 0, p.len());
        proof {
            assert(p@.subrange(0, p@.len() as int) =~= p@);
        }
        let ghost out0 = out@;
        if !fm.contains_key(&path) {
            out.push(Change::new_add(ChangeEntry::File(File::new(path, h.clone()))));
        }
        proof {
            assert(forall|c: int| 0 <= c < out0.len() ==> out@[c] == out0[c]);
            assert forall|j: int|
                0 <= j < k + 1 && change_needed(fm@, tm@, (#[trigger] tm.pairs@[j]).0@) implies
                exists|c: int|
                    0 <= c < out@.len() && change_path((#[trigger] out@[c])@)
                        == tm.pairs@[j].0@ by {
                if j < k {
                    let c = choose|c: int|
                        0 <= c < out0.len() && change_path((#[trigger] out0[c])@)
                            == tm.pairs@[j].0@;
                    assert(change_path(out@[c]@) == tm.pairs@[j].0@);
                } else {
                    if change_needed(fm@, tm@, tm.pairs@[j].0@) {
                        if fm@.contains_key(tm.pairs@[j].0@) {
                            let c = choose|c: int|
                                0 <= c < out0.len() && change_path((#[trigger] out0[c])@)
                                    == tm.pairs@[j].0@;
                            assert(change_path(out@[c]@) == tm.pairs@[j].0@);
                        } else {
                            assert(change_path(out@[out@.len() - 1]@) == tm.pairs@[j].0@);
                        }
                    }
                }
            }
            assert forall|c: int, d: int|
                0 <= c < d < out@.len() implies change_path((#[trigger] out@[c])@) != change_path(
                (#[trigger] out@[d])@,
            ) by {
                if d == out@.len() - 1 && out@.len() > out0.len() {
                    if fm@.contains_key(change_path(out0[c]@)) {
                    } else {
                        let j = choose|j: int|
                            0 <= j < k && change_path(out0[c]@) == (#[trigger] tm.pairs@[j]).0@;
                        assert(tm.pairs@[j].0@ != tm.pairs@[k as int].0@);
                    }
                }
            }
        }
        k = k + 1;
    }
    proof {
        fm.lemma_view();
        tm.lemma_view();
        assert forall|p: Seq<u8>| change_needed(fm@, tm@, p) implies exists|c: int|
            0 <= c < out@.len() && change_path((#[trigger] out@[c])@) == p by {
            if fm@.contains_key(p) {
            } else {
                assert(tm@.contains_key(p));
                let j = choose|j: int|
                    0 <= j < tm.pairs@.len() && (#[trigger] tm.pairs@[j]).0@ == p;
                assert(change_needed(fm@, tm@, tm.pairs@[j].0@));
            }
        }
        let mv = out@.map_values(|c: Change| c@);
        assert forall|p: Seq<u8>| change_needed(fm@, tm@, p) implies exists|c: int|
            0 <= c < mv.len() && change_path(#[trigger] mv[c]) == p by {
            let c = choose|c: int|
                0 <= c < out@.len() && change_path((#[trigger] out@[c])@) == p;
            assert(mv[c] == out@[c]@);
        }
        assert forall|c: int, d: int|
            0 <= c < d < mv.len() implies change_path(#[trigger] mv[c]) != change_path(
            #[trigger] mv[d],
        ) by {
            assert(mv[c] == out@[c]@ && mv[d] == out@[d]@);
            assert(change_path(out@[c]@) != change_path(out@[d]@));
        }
        assert forall|c: int| 0 <= c < mv.len() implies valid_change(
            fm@,
            tm@,
            #[trigger] mv[c],
        ) by {
            assert(mv[c] == out@[c]@);
            assert(valid_change(fm@, tm@, out@[c]@));
        }
    }
    out
}

impl Tree {
    /// Returns the changes between this tree and the provided one.
    pub fn diff(&self, to: &Tree, store: &Store) -> (r: Result<Vec<Change>, Error>)
        requires
            store.wf(),
        ensures
            (match r {
                Ok(changes) => spec_files_of(store@, to@.entries) matches Ok(tf) && spec_files_of(
                    store@,
                    self@.entries,
                ) matches Ok(ff) && diff_post(
                    files_map(ff),
                    files_map(tf),
                    changes@.map_values(|c: Change| c@),
                ),
                Err(err) => spec_files_of(store@, to@.entries) == Err::<Seq<FileV>, Error>(err)
                    || (spec_files_of(store@, to@.entries) is Ok && spec_files_of(
                    store@,
                    self@.entries,
                ) == Err::<Seq<FileV>, Error>(err)),
            }),
    {
        let to_files = match to.files(store) {
            Ok(v) => v,
            Err(err) => {
                return Err(err);
            },
        };
        let from_files = match self.files(store) {
            Ok(v) => v,
            Err(err) => {
                return Err(err);
            },
        };
        let tm = files_to_map(&to_files);
        let fm = files_to_map(&from_files);
        Ok(diff_maps(&fm, &tm))
    }
}

/// Well-formed entries flatten to NUL-free paths.
pub proof fn lemma_tree_files_paths(
    m: Map<Seq<u8>, Seq<u8>>,
    entries: Seq<TreeEntryV>,
    prefix: Seq<u8>,
    fuel: nat,
)
    requires
        forall|k: int|
            0 <= k < entries.len() ==> crate::object::tree_entry_wf(#[trigger] entries[k]),
        !prefix.contains(0u8),
    ensures
        spec_tree_files(m, entries, prefix, fuel) matches Ok(fs) ==> forall|i: int|
            0 <= i < fs.len() ==> !(#[trigger] fs[i]).path.contains(0u8),
    decreases fuel, entries.len(),
{
    if entries.len() > 0 && spec_tree_files(m, entries, prefix, fuel) is Ok {
        let e = entries[0];
        assert(forall|k: int|
            0 <= k < entries.drop_first().len() ==> entries.drop_first()[k] == entries[k + 1]);
        match e.kind {
            TreeEntryKind::Blob => {
                lemma_tree_files_paths(m, entries.drop_first(), prefix, fuel);
                let p0 = prefix + e.name;
                assert(!p0.contains(0u8)) by {
                    if p0.contains(0u8) {
                        let j = choose|j: int| 0 <= j < p0.len() && p0[j] == 0;
                        if j < prefix.len() {
                            assert(prefix[j] == 0);
                        } else {
                            assert(e.name[j - prefix.len()] == 0);
                        }
                    }
                }
                let rest = spec_tree_files(m, entries.drop_first(), prefix, fuel)->Ok_0;
                let fs = spec_tree_files(m, entries, prefix, fuel)->Ok_0;
                assert(forall|i: int| 1 <= i < fs.len() ==> fs[i] == rest[i - 1]);
            },
            TreeEntryKind::Tree => {
                let sub = spec_parse_tree(m[e.hash])->Some_0;
                let sub_prefix = prefix + e.name + seq![47u8];
                assert(!sub_prefix.contains(0u8)) by {
                    if sub_prefix.contains(0u8) {
                        let j = choose|j: int|
                            0 <= j < sub_prefix.len() && sub_prefix[j] == 0;
                        if j < prefix.len() {
                            assert(prefix[j] == 0);
                        } else if j < prefix.len() + e.name.len() {
                            assert(e.name[j - prefix.len()] == 0);
                        }
                    }
                }
                crate::serialize::lemma_parse_entries_wf(m[e.hash].skip(5));
                lemma_tree_files_paths(m, sub, sub_prefix, (fuel - 1) as nat);
                lemma_tree_files_paths(m, entries.drop_first(), prefix, fuel);
                let subfs = spec_tree_files(m, sub, sub_prefix, (fuel - 1) as nat)->Ok_0;
                let rest = spec_tree_files(m, entries.drop_first(), prefix, fuel)->Ok_0;
                let fs = spec_tree_files(m, entries, prefix, fuel)->Ok_0;
                assert(forall|i: int| 0 <= i < subfs.len() ==> fs[i] == subfs[i]);
                assert(forall|i: int|
                    subfs.len() <= i < fs.len() ==> fs[i] == rest[i - subfs.len()]);
            },
        }
    }
}

/// The keys of a file map are exactly the listed paths.
pub proof fn lemma_files_map_keys(s: Seq<FileV>)
    ensures
        forall|p: Seq<u8>|
            files_map(s).contains_key(p) ==> exists|i: int|
                0 <= i < s.len() && (#[trigger] s[i]).path == p,
        forall|i: int| 0 <= i < s.len() ==> files_map(s).contains_key((#[trigger] s[i]).path),
    decreases s.len(),
{
    if s.len() > 0 {
        lemma_files_map_keys(s.drop_last());
        assert(forall|i: int| 0 <= i < s.len() - 1 ==> s[i] == s.drop_last()[i]);
        assert forall|p: Seq<u8>| files_map(s).contains_key(p) implies exists|i: int|
            0 <= i < s.len() && (#[trigger] s[i]).path == p by {
            if p == s.last().path {
                assert(s[s.len() - 1].path == p);
            } else {
                assert(files_map(s.drop_last()).contains_key(p));
                let i = choose|i: int|
                    0 <= i < s.drop_last().len() && (#[trigger] s.drop_last()[i]).path == p;
                assert(s[i].path == p);
            }
        }
        assert forall|i: int| 0 <= i < s.len() implies files_map(s).contains_key(
            (#[trigger] s[i]).path,
        ) by {
            if i < s.len() - 1 {
                assert(files_map(s.drop_last()).contains_key(s.drop_last()[i].path));
            }
        }
    }
}

/// A flattening can only fail by missing or corrupted objects.
pub proof fn lemma_files_err(
    m: Map<Seq<u8>, Seq<u8>>,
    entries: Seq<TreeEntryV>,
    prefix: Seq<u8>,
    fuel: nat,
)
    ensures
        spec_tree_files(m, entries, prefix, fuel) matches Err(e) ==> e is ObjectMissing
            || e is ObjectCorrupted,
    decreases fuel, entries.len(),
{
    if entries.len() > 0 {
        let e = entries[0];
        match e.kind {
            TreeEntryKind::Blob => {
                lemma_files_err(m, entries.drop_first(), prefix, fuel);
            },
            TreeEntryKind::Tree => {
                if fuel > 0 && m.contains_key(e.hash) {
                    match spec_parse_tree(m[e.hash]) {
                        Some(sub) => {
                            lemma_files_err(
                                m,
                                sub,
                                prefix + e.name + seq![47u8],
                                (fuel - 1) as nat,
                            );
                            lemma_files_err(m, entries.drop_first(), prefix, fuel);
                        },
                        None => {},
                    }
                }
            },
        }
    }
}

/// Every key of a well-formed tree's file map is a NUL-free path.
pub proof fn lemma_files_map_nul_free(m: Map<Seq<u8>, Seq<u8>>, entries: Seq<TreeEntryV>)
    requires
        forall|k: int|
            0 <= k < entries.len() ==> crate::object::tree_entry_wf(#[trigger] entries[k]),
        spec_files_of(m, entries) is Ok,
    ensures
        forall|p: Seq<u8>|
            #[trigger] files_map(spec_files_of(m, entries)->Ok_0).contains_key(p)
                ==> !p.contains(0u8),
{
    let fs = spec_files_of(m, entries)->Ok_0;
    assert(!Seq::<u8>::empty().contains(0u8));
    lemma_tree_files_paths(m, entries, Seq::empty(), max_tree_depth());
    lemma_files_map_keys(fs);
    assert forall|p: Seq<u8>|
        #[trigger] files_map(fs).contains_key(p) implies !p.contains(0u8) by {
        let k = choose|k: int| 0 <= k < fs.len() && (#[trigger] fs[k]).path == p;
        assert(!fs[k].path.contains(0u8));
    }
}

/// Hashes file contents as the blob object they would form.
pub fn hash_file(content: &Vec<u8>) -> (h: crate::object::Hash)
    ensures
        h@ == digest_of(spec_serialize_blob(content@)),
        h.wf(),
{
    let mut b = crate::object::Blob::new(copy_range(content, 0, content.len()));
    let obj = crate::serialize::serialize_blob(&mut b);
    proof {
        assert(content@.subrange(0, content@.len() as int) =~= content@);
    }
    b.hash()
}

} // verus!
