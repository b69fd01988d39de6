//! The wire codec: byte-exact serialization of blobs, trees and commits,
//! and the inverse parsers.
//!
//! Formats:
//! - blob:   `blob` NUL content
//! - tree:   `tree` NUL entries, each `kind` SP name NUL hex-hash, entries
//!           ordered by the bytes from offset 5 (the name portion)
//! - commit: `commit` NUL header lines `tree`, optional `parent`, `author`,
//!           `time`, a blank line, the message line

use vstd::prelude::*;
use crate::bytes::{
    lex_leq,
    lemma_lex_leq_refl,
    lemma_lex_leq_total,
    lemma_lex_leq_antisym,
    lemma_lex_leq_trans,
    lex_cmp_from,
    hex_of,
    hex_decode,
    lemma_hex_decode_len,
    lemma_hex_of_len,
    lemma_hex_of_chars,
    lemma_hex_round_trip,
    dec_of_int,
    parse_i64,
    lemma_dec_round_trip,
    lemma_dec_digits_chars,
    i64_to_dec,
    parse_dec_i64,
    find_byte,
    match_at,
    copy_range,
    to_hex,
    from_hex_range,
};
use crate::digest::digest_of;
use crate::object::{
    Blob,
    Tree,
    TreeEntry,
    TreeEntryV,
    TreeEntryKind,
    Commit,
    CommitInfo,
    CommitV,
    tree_entry_wf,
};

verus! {

// ---------------------------------------------------------------------------
// Tags and prefixes
// ---------------------------------------------------------------------------

pub open spec fn tag_blob() -> Seq<u8> {
    seq![98u8, 108u8, 111u8, 98u8]
}

pub open spec fn tag_tree() -> Seq<u8> {
    seq![116u8, 114u8, 101u8, 101u8]
}

pub open spec fn blob_prefix() -> Seq<u8> {
    tag_blob() + seq![0u8]
}

pub open spec fn tree_prefix() -> Seq<u8> {
    tag_tree() + seq![0u8]
}

pub open spec fn commit_prefix() -> Seq<u8> {
    seq![99u8, 111u8, 109u8, 109u8, 105u8, 116u8, 0u8]
}

pub open spec fn kind_tag(k: TreeEntryKind) -> Seq<u8> {
    match k {
        TreeEntryKind::Blob => tag_blob(),
        TreeEntryKind::Tree => tag_tree(),
    }
}

fn exec_tag_blob() -> (r: Vec<u8>)
    ensures
        r@ == tag_blob(),
{
    let mut v: Vec<u8> = Vec::new();
    v.push(98);
    v.push(108);
    v.push(111);
    v.push(98);
    proof {
        assert(v@ =~= tag_blob());
    }
    v
}

fn exec_tag_tree() -> (r: Vec<u8>)
    ensures
        r@ == tag_tree(),
{
    let mut v: Vec<u8> = Vec::new();
    v.push(116);
    v.push(114);
    v.push(101);
    v.push(101);
    proof {
        assert(v@ =~= tag_tree());
    }
    v
}

// ---------------------------------------------------------------------------
// Blob codec
// ---------------------------------------------------------------------------

pub open spec fn spec_serialize_blob(content: Seq<u8>) -> Seq<u8> {
    blob_prefix() + content
}

/// `Some(content)` when `obj` is a well-formed blob object.
pub open spec fn spec_parse_blob(obj: Seq<u8>) -> Option<Seq<u8>> {
    if blob_prefix().is_prefix_of(obj) {
        Some(obj.skip(5))
    } else {
        None
    }
}

/// Parsing inverts serialization on every blob.
pub proof fn lemma_blob_round_trip(content: Seq<u8>)
    ensures
        spec_parse_blob(spec_serialize_blob(content)) == Some(content),
{
    let obj = spec_serialize_blob(content);
    assert(blob_prefix().is_prefix_of(obj)) by {
        assert(obj.subrange(0, 5) =~= blob_prefix());
    }
    assert(obj.skip(5) =~= content);
}

/// Serializes a blob object and stamps its hash with the digest of the
/// serialized bytes.
pub fn serialize_blob(blob: &mut Blob) -> (obj: Vec<u8>)
    ensures
        obj@ == spec_serialize_blob(old(blob)@.content),
        final(blob)@.content == old(blob)@.content,
        final(blob)@.hash == digest_of(obj@),
        final(blob)@.hash.len() == 20,
{
    let mut obj = exec_tag_blob();
    obj.push(0);
    obj.extend_from_slice(blob.content().as_slice());
    proof {
        assert(obj@ =~= spec_serialize_blob(blob@.content));
    }
    blob.update_hash(&obj);
    obj
}

/// Deserializes a blob object; the stamped hash is the digest of `obj`.
/// `None` when `obj` is not a valid blob object.
pub fn deserialize_blob(obj: &Vec<u8>) -> (r: Option<Blob>)
    ensures
        match r {
            Some(b) => spec_parse_blob(obj@) == Some(b@.content) && b@.hash == digest_of(obj@),
            None => spec_parse_blob(obj@) is None,
        },
{
    let prefix = exec_tag_blob();
    let mut prefix = prefix;
    prefix.push(0);
    proof {
        assert(prefix@ =~= blob_prefix());
    }
    if !match_at(obj, 0, &prefix) {
        proof {
            if blob_prefix().is_prefix_of(obj@) {
                assert(obj@.subrange(0, 5) =~= blob_prefix().subrange(0, 5));
            }
        }
        return None;
    }
    let content = copy_range(obj, 5, obj.len());
    let mut b = Blob::new(content);
    b.update_hash(obj);
    proof {
        assert(blob_prefix().is_prefix_of(obj@)) by {
            assert(obj@.subrange(0, 5) =~= blob_prefix());
        }
        assert(obj@.subrange(5, obj@.len() as int) =~= obj@.skip(5));
    }
    Some(b)
}

// ---------------------------------------------------------------------------
// The order of serialized tree entries
// ---------------------------------------------------------------------------

/// The order in which serialized entries appear on the wire: by the bytes
/// from offset 5 (the name portion), with the full bytes as a tiebreaker so
/// that the relation is a total order.
pub open spec fn entry_le(a: Seq<u8>, b: Seq<u8>) -> bool {
    if a.skip(5) == b.skip(5) {
        lex_leq(a, b)
    } else {
        lex_leq(a.skip(5), b.skip(5))
    }
}

pub open spec fn entry_le_fn() -> spec_fn(Seq<u8>, Seq<u8>) -> bool {
    |a: Seq<u8>, b: Seq<u8>| entry_le(a, b)
}

pub proof fn lemma_entry_le_total_pair(a: Seq<u8>, b: Seq<u8>)
    ensures
        entry_le(a, b) || entry_le(b, a),
{
    lemma_lex_leq_total(a, b);
    lemma_lex_leq_total(a.skip(5), b.skip(5));
}

pub proof fn lemma_entry_le_trans(a: Seq<u8>, b: Seq<u8>, c: Seq<u8>)
    requires
        entry_le(a, b),
        entry_le(b, c),
    ensures
        entry_le(a, c),
{
    if a.skip(5) == b.skip(5) && b.skip(5) == c.skip(5) {
        lemma_lex_leq_trans(a, b, c);
    } else if a.skip(5) == b.skip(5) {
    } else if b.skip(5) == c.skip(5) {
    } else {
        lemma_lex_leq_trans(a.skip(5), b.skip(5), c.skip(5));
        if a.skip(5) == c.skip(5) {
            lemma_lex_leq_antisym(a.skip(5), b.skip(5));
        }
    }
}

pub proof fn lemma_entry_le_total_ordering()
    ensures
        vstd::relations::total_ordering(entry_le_fn()),
{
    let r = entry_le_fn();
    assert forall|a: Seq<u8>| #[trigger] r(a, a) by {
        lemma_lex_leq_refl(a);
    }
    assert forall|a: Seq<u8>, b: Seq<u8>| #[trigger] r(a, b) && #[trigger] r(b, a) implies a == b by {
        if a.skip(5) == b.skip(5) {
            lemma_lex_leq_antisym(a, b);
        } else {
            lemma_lex_leq_antisym(a.skip(5), b.skip(5));
        }
    }
    assert forall|a: Seq<u8>, b: Seq<u8>, c: Seq<u8>|
        #[trigger] r(a, b) && #[trigger] r(b, c) implies r(a, c) by {
        if a.skip(5) == b.skip(5) && b.skip(5) == c.skip(5) {
            lemma_lex_leq_trans(a, b, c);
        } else if a.skip(5) == b.skip(5) {
            // order decided between b and c
        } else if b.skip(5) == c.skip(5) {
            // order decided between a and b
        } else {
            lemma_lex_leq_trans(a.skip(5), b.skip(5), c.skip(5));
            if a.skip(5) == c.skip(5) {
                lemma_lex_leq_antisym(a.skip(5), b.skip(5));
            }
        }
    }
    assert forall|a: Seq<u8>, b: Seq<u8>| #[trigger] r(a, b) || #[trigger] r(b, a) by {
        lemma_lex_leq_total(a, b);
        lemma_lex_leq_total(a.skip(5), b.skip(5));
    }
}

/// Exec comparison deciding `entry_le` on the views of two byte vectors.
fn entry_le_exec(a: &Vec<u8>, b: &Vec<u8>) -> (r: bool)
    requires
        a@.len() >= 5,
        b@.len() >= 5,
    ensures
        r == entry_le(a@, b@),
{
    let c = lex_cmp_from(a, b, 5);
    if c < 0 {
        true
    } else if c > 0 {
        false
    } else {
        let c2 = lex_cmp_from(a, b, 0);
        proof {
            assert(a@.skip(0) =~= a@);
            assert(b@.skip(0) =~= b@);
        }
        c2 <= 0
    }
}

/// Sorts serialized entries into wire order.  The result is the
/// specification-level sort of the input views.
fn sort_entry_bytes(src: Vec<Vec<u8>>) -> (out: Vec<Vec<u8>>)
    requires
        forall|i: int| 0 <= i < src@.len() ==> (#[trigger] src@[i])@.len() >= 5,
    ensures
        out@.map_values(|v: Vec<u8>| v@) == src@.map_values(|v: Vec<u8>| v@).sort_by(
            entry_le_fn(),
        ),
        forall|i: int| 0 <= i < out@.len() ==> (#[trigger] out@[i])@.len() >= 5,
{
    broadcast use vstd::seq_lib::group_to_multiset_ensures;

    let ghost views = |v: Vec<u8>| v@;
    let mut out: Vec<Vec<u8>> = Vec::new();
    let mut i: usize = 0;
    while i < src.len()
        invariant
            i <= src@.len(),
            forall|k: int| 0 <= k < src@.len() ==> (#[trigger] src@[k])@.len() >= 5,
            forall|k: int| 0 <= k < out@.len() ==> (#[trigger] out@[k])@.len() >= 5,
            out@.map_values(|v: Vec<u8>| v@).to_multiset() == src@.take(i as int).map_values(
                |v: Vec<u8>| v@,
            ).to_multiset(),
            vstd::relations::sorted_by(out@.map_values(|v: Vec<u8>| v@), entry_le_fn()),
        decreases src@.len() - i,
    {
        broadcast use vstd::seq_lib::group_to_multiset_ensures;

        let x = src[i].clone();
        // find the insertion point: the first element that x precedes strictly
        let mut pos: usize = 0;
        while pos < out.len() && entry_le_exec(&out[pos], &x)
            invariant
                pos <= out@.len(),
                x@ == src@[i as int]@,
                i < src@.len(),
                forall|k: int| 0 <= k < src@.len() ==> (#[trigger] src@[k])@.len() >= 5,
                forall|k: int| 0 <= k < out@.len() ==> (#[trigger] out@[k])@.len() >= 5,
                forall|k: int| 0 <= k < pos ==> entry_le(#[trigger] (out@[k])@, x@),
            decreases out@.len() - pos,
        {
            pos = pos + 1;
        }
        let ghost xv = x@;
        let ghost old_out = out@;
        proof {
            if pos < out@.len() {
                assert(!entry_le(out@[pos as int]@, xv));
            }
        }
        out.insert(pos, x);
        proof {
            let ov = old_out.map_values(|v: Vec<u8>| v@);
            let nv = out@.map_values(|v: Vec<u8>| v@);
            assert(forall|k: int| 0 <= k < pos ==> out@[k] == old_out[k]);
            assert(forall|k: int| pos < k < out@.len() ==> out@[k] == old_out[k - 1]);
            assert(nv.len() == ov.len() + 1);
            assert(forall|k: int| 0 <= k < pos ==> nv[k] == ov[k]);
            assert(forall|k: int| pos < k < nv.len() ==> nv[k] == ov[k - 1]);
            assert(nv[pos as int] == xv);
            // multiset: inserting in the middle adds one occurrence
            assert(nv.to_multiset() == ov.to_multiset().insert(xv)) by {
                let pre = ov.take(pos as int);
                let post = ov.skip(pos as int);
                assert(ov =~= pre + post);
                assert(nv =~= pre + (seq![xv] + post));
                vstd::seq_lib::lemma_multiset_commutative(pre, post);
                vstd::seq_lib::lemma_multiset_commutative(pre, seq![xv] + post);
                vstd::seq_lib::lemma_multiset_commutative(seq![xv], post);
                assert(seq![xv].to_multiset() =~= vstd::multiset::Multiset::empty().insert(
                    xv,
                )) by {
                    assert(seq![xv].drop_first() =~= Seq::<Seq<u8>>::empty());
                }
            }
            let sv1 = src@.take(i + 1).map_values(|v: Vec<u8>| v@);
            let sv0 = src@.take(i as int).map_values(|v: Vec<u8>| v@);
            assert(sv1 =~= sv0.push(xv)) by {
                assert(src@.take(i + 1) =~= src@.take(i as int).push(src@[i as int]));
                assert(forall|k: int| 0 <= k < i ==> #[trigger] sv1[k] == sv0[k]);
                assert(sv1[i as int] == xv);
            }
            // sortedness of the new sequence
            lemma_entry_le_total_ordering();
            assert forall|p: int, q: int| 0 <= p < q < nv.len() implies #[trigger] entry_le(
                nv[p],
                nv[q],
            ) by {
                if q < pos {
                    assert(entry_le_fn()(ov[p], ov[q]));
                } else if p < pos && q == pos {
                    assert(entry_le(ov[p], xv));
                } else if p < pos && q > pos {
                    assert(entry_le_fn()(ov[p], ov[q - 1]));
                } else if p == pos && q > pos {
                    // x strictly precedes the element it displaced, which
                    // precedes every later one
                    assert(!entry_le(ov[pos as int], xv));
                    lemma_entry_le_total_pair(xv, ov[pos as int]);
                    if q - 1 > pos {
                        assert(entry_le_fn()(ov[pos as int], ov[q - 1]));
                        lemma_entry_le_trans(xv, ov[pos as int], ov[q - 1]);
                    }
                } else {
                    assert(entry_le_fn()(ov[p - 1], ov[q - 1]));
                }
            }
        }
        i = i + 1;
    }
    proof {
        broadcast use vstd::seq_lib::group_to_multiset_ensures;

        assert(src@.take(src@.len() as int) =~= src@);
        let sv = src@.map_values(|v: Vec<u8>| v@);
        let nv = out@.map_values(|v: Vec<u8>| v@);
        lemma_entry_le_total_ordering();
        sv.lemma_sort_by_ensures(entry_le_fn());
        vstd::seq_lib::lemma_sorted_unique(nv, sv.sort_by(entry_le_fn()), entry_le_fn());
    }
    out
}

// ---------------------------------------------------------------------------
// Tree codec
// ---------------------------------------------------------------------------

/// The wire bytes of one tree entry: tag, space, name, NUL, hex hash.
pub open spec fn entry_bytes(e: TreeEntryV) -> Seq<u8> {
    kind_tag(e.kind) + seq![32u8] + e.name + seq![0u8] + hex_of(e.hash)
}

pub open spec fn spec_serialize_tree(entries: Seq<TreeEntryV>) -> Seq<u8> {
    tree_prefix() + entries.map_values(|e: TreeEntryV| entry_bytes(e)).sort_by(
        entry_le_fn(),
    ).flatten()
}

/// The first position of `b` in `s`, if any.
pub open spec fn find_index(s: Seq<u8>, b: u8) -> Option<int>
    decreases s.len(),
{
    if s.len() == 0 {
        None
    } else if s[0] == b {
        Some(0)
    } else {
        match find_index(s.drop_first(), b) {
            Some(i) => Some(i + 1),
            None => None,
        }
    }
}

/// `find_index` returns exactly the first occurrence.
pub proof fn lemma_find_index(s: Seq<u8>, b: u8)
    ensures
        match find_index(s, b) {
            Some(i) => 0 <= i < s.len() && s[i] == b && forall|j: int| 0 <= j < i ==> s[j] != b,
            None => forall|j: int| 0 <= j < s.len() ==> s[j] != b,
        },
    decreases s.len(),
{
    if s.len() > 0 && s[0] != b {
        lemma_find_index(s.drop_first(), b);
        assert(forall|j: int| 1 <= j < s.len() ==> s[j] == s.drop_first()[j - 1]);
    }
}

/// Parses a sequence of serialized entries.
pub open spec fn spec_parse_entries(s: Seq<u8>) -> Option<Seq<TreeEntryV>>
    decreases s.len(),
{
    if s.len() == 0 {
        Some(Seq::empty())
    } else {
        match find_index(s, 0) {
            None => None,
            Some(i) => if i < 5 {
                None
            } else if s.subrange(0, 4) != tag_blob() && s.subrange(0, 4) != tag_tree() {
                None
            } else if s[4] != 32 {
                None
            } else if s.len() < i + 41 {
                None
            } else {
                match (hex_decode(s.subrange(i + 1, i + 41)), spec_parse_entries(s.skip(i + 41))) {
                    (Some(h), Some(rest)) => Some(
                        seq![
                            TreeEntryV {
                                kind: if s.subrange(0, 4) == tag_blob() {
                                    TreeEntryKind::Blob
                                } else {
                                    TreeEntryKind::Tree
                                },
                                hash: h,
                                name: s.subrange(5, i),
                            },
                        ] + rest,
                    ),
                    _ => None,
                }
            },
        }
    }
}

/// `Some(entries)` when `obj` is a well-formed tree object.
pub open spec fn spec_parse_tree(obj: Seq<u8>) -> Option<Seq<TreeEntryV>> {
    if tree_prefix().is_prefix_of(obj) {
        spec_parse_entries(obj.skip(5))
    } else {
        None
    }
}

/// Every parsed entry carries a 20-byte hash and a NUL-free name.
pub proof fn lemma_parse_entries_wf(s: Seq<u8>)
    ensures
        spec_parse_entries(s) matches Some(es) ==> forall|k: int|
            0 <= k < es.len() ==> tree_entry_wf(#[trigger] es[k]),
    decreases s.len(),
{
    if s.len() > 0 && spec_parse_entries(s) is Some {
        lemma_find_index(s, 0);
        let i = find_index(s, 0)->Some_0;
        lemma_parse_entries_wf(s.skip(i + 41));
        lemma_hex_decode_len(s.subrange(i + 1, i + 41));
        let es = spec_parse_entries(s)->Some_0;
        let rest = spec_parse_entries(s.skip(i + 41))->Some_0;
        assert(tree_entry_wf(es[0])) by {
            assert(forall|j: int| 0 <= j < i ==> s[j] != 0);
            let name = s.subrange(5, i);
            assert(forall|j: int| 0 <= j < name.len() ==> name[j] == s[5 + j]);
            assert(!name.contains(0u8));
        }
        assert(forall|k: int| 1 <= k < es.len() ==> es[k] == rest[k - 1]);
    }
}

/// Serializes a tree object in canonical entry order and stamps its hash.
pub fn serialize_tree(tree: &mut Tree) -> (obj: Vec<u8>)
    ensures
        obj@ == spec_serialize_tree(old(tree)@.entries),
        final(tree)@.entries == old(tree)@.entries,
        final(tree)@.hash == digest_of(obj@),
        final(tree)@.hash.len() == 20,
{
    let mut parts: Vec<Vec<u8>> = Vec::new();
    let n = tree.entries.len();
    let mut i: usize = 0;
    while i < n
        invariant
            i <= n,
            n == tree.entries@.len(),
            *tree == *old(tree),
            parts@.map_values(|v: Vec<u8>| v@) == tree@.entries.take(i as int).map_values(
                |e: TreeEntryV| entry_bytes(e),
            ),
            forall|k: int| 0 <= k < parts@.len() ==> (#[trigger] parts@[k])@.len() >= 5,
        decreases n - i,
    {
        let e = &tree.entries[i];
        let mut part = match e.kind {
            TreeEntryKind::Blob => exec_tag_blob(),
            TreeEntryKind::Tree => exec_tag_tree(),
        };
        part.push(32);
        part.extend_from_slice(e.name.as_slice());
        part.push(0);
        let hx = e.hash.to_hex();
        part.extend_from_slice(hx.as_slice());
        proof {
            assert(part@ =~= entry_bytes(tree.entries@[i as int]@));
            assert(parts@.push(part).map_values(|v: Vec<u8>| v@) =~= parts@.map_values(
                |v: Vec<u8>| v@,
            ).push(part@));
            assert(tree@.entries.take(i + 1) =~= tree@.entries.take(i as int).push(
                tree@.entries[i as int],
            ));
            assert(tree@.entries.take(i + 1).map_values(|e: TreeEntryV| entry_bytes(e))
                =~= tree@.entries.take(i as int).map_values(|e: TreeEntryV| entry_bytes(e)).push(
                entry_bytes(tree@.entries[i as int]),
            ));
        }
        parts.push(part);
        i = i + 1;
    }
    proof {
        assert(tree@.entries.take(n as int) =~= tree@.entries);
    }
    let sorted = sort_entry_bytes(parts);
    let mut obj = exec_tag_tree();
    obj.push(0);
    proof {
        assert(obj@ =~= tree_prefix());
    }
    let ghost sorted_views = sorted@.map_values(|v: Vec<u8>| v@);
    let m = sorted.len();
    let mut j: usize = 0;
    while j < m
        invariant
            j <= m,
            m == sorted@.len(),
            sorted_views == sorted@.map_values(|v: Vec<u8>| v@),
            obj@ == tree_prefix() + sorted_views.take(j as int).flatten(),
        decreases m - j,
    {
        obj.extend_from_slice(sorted[j].as_slice());
        proof {
            lemma_flatten_push(sorted_views.take(j as int), sorted_views[j as int]);
            assert(sorted_views.take(j + 1) =~= sorted_views.take(j as int).push(
                sorted_views[j as int],
            ));
            assert(obj@ =~= tree_prefix() + sorted_views.take(j + 1).flatten());
        }
        j = j + 1;
    }
    proof {
        assert(sorted_views.take(m as int) =~= sorted_views);
    }
    tree.hash.update(&obj);
    obj
}

/// Appending one more piece to a flattened sequence.
pub proof fn lemma_flatten_push(s: Seq<Seq<u8>>, x: Seq<u8>)
    ensures
        s.push(x).flatten() == s.flatten() + x,
    decreases s.len(),
{
    if s.len() == 0 {
        assert(s.push(x).drop_first() =~= Seq::<Seq<u8>>::empty());
        assert(s.push(x).flatten() == s.push(x).first() + s.push(x).drop_first().flatten());
        assert(s.push(x).first() == x);
        assert(Seq::<Seq<u8>>::empty().flatten() == Seq::<u8>::empty());
        assert(s.push(x).flatten() =~= s.flatten() + x);
    } else {
        lemma_flatten_push(s.drop_first(), x);
        assert(s.push(x).drop_first() =~= s.drop_first().push(x));
        assert(s.push(x)[0] == s[0]);
        assert(s.push(x).flatten() == s[0] + (s.drop_first().flatten() + x));
        assert(s.flatten() == s[0] + s.drop_first().flatten());
        assert(s[0] + (s.drop_first().flatten() + x) =~= (s[0] + s.drop_first().flatten()) + x);
    }
}

/// Deserializes a tree object; the stamped hash is the digest of `obj`.
/// `None` when `obj` is not a valid tree object.
pub fn deserialize_tree(obj: &Vec<u8>) -> (r: Option<Tree>)
    ensures
        match r {
            Some(t) => spec_parse_tree(obj@) == Some(t@.entries) && t@.hash == digest_of(obj@),
            None => spec_parse_tree(obj@) is None,
        },
{
    let mut prefix = exec_tag_tree();
    prefix.push(0);
    proof {
        assert(prefix@ =~= tree_prefix());
    }
    if !match_at(obj, 0, &prefix) {
        proof {
            if tree_prefix().is_prefix_of(obj@) {
                assert(obj@.subrange(0, 5) =~= tree_prefix().subrange(0, 5));
            }
        }
        return None;
    }
    proof {
        assert(tree_prefix().is_prefix_of(obj@)) by {
            assert(obj@.subrange(0, 5) =~= tree_prefix());
        }
    }
    let tag_b = exec_tag_blob();
    let tag_t = exec_tag_tree();
    let mut entries: Vec<TreeEntry> = Vec::new();
    let mut p: usize = 5;
    loop
        invariant
            5 <= p <= obj@.len(),
            tree_prefix().is_prefix_of(obj@),
            tag_b@ == tag_blob(),
            tag_t@ == tag_tree(),
            match spec_parse_entries(obj@.skip(p as int)) {
                Some(rest) => spec_parse_entries(obj@.skip(5)) == Some(
                    entries@.map_values(|e: TreeEntry| e@) + rest,
                ),
                None => spec_parse_entries(obj@.skip(5)) is None,
            },
        decreases obj@.len() - p,
    {
        let ghost s = obj@.skip(p as int);
        if p == obj.len() {
            proof {
                assert(s =~= Seq::<u8>::empty());
                assert(spec_parse_entries(s) == Some(Seq::<TreeEntryV>::empty()));
                assert(entries@.map_values(|e: TreeEntry| e@) + Seq::<TreeEntryV>::empty()
                    =~= entries@.map_values(|e: TreeEntry| e@));
            }
            let mut t = Tree { hash: crate::object::Hash::new(), entries };
            t.hash.update(obj);
            return Some(t);
        }
        proof {
            lemma_find_index(s, 0);
        }
        let iabs = match find_byte(obj, p, 0) {
            Some(i) => i,
            None => {
                proof {
                    assert(forall|j: int| 0 <= j < s.len() ==> s[j] == obj@[p + j]);
                    assert(find_index(s, 0) is None);
                }
                return None;
            },
        };
        let ghost irel = iabs - p;
        proof {
            assert(forall|j: int| 0 <= j < s.len() ==> s[j] == obj@[p + j]);
            assert(find_index(s, 0) == Some(irel)) by {
                match find_index(s, 0) {
                    Some(k) => {
                        if k < irel {
                            assert(obj@[p + k] == 0);
                        }
                        if k > irel {
                            assert(s[irel] == 0);
                        }
                    },
                    None => {
                        assert(s[irel] == 0);
                    },
                }
            }
        }
        if iabs - p < 5 {
            return None;
        }
        let is_blob = match_at(obj, p, &tag_b);
        let is_tree = if is_blob {
            false
        } else {
            match_at(obj, p, &tag_t)
        };
        proof {
            assert(s.subrange(0, 4) =~= obj@.subrange(p as int, p + 4));
        }
        if !is_blob && !is_tree {
            proof {
                assert(s.subrange(0, 4) != tag_blob() && s.subrange(0, 4) != tag_tree());
            }
            return None;
        }
        if obj[p + 4] != 32 {
            proof {
                assert(s[4] == obj@[p + 4]);
            }
            return None;
        }
        proof {
            assert(s[4] == obj@[p + 4]);
        }
        if obj.len() - iabs < 41 {
            proof {
                assert(s.len() < irel + 41);
            }
            return None;
        }
        let hv = match from_hex_range(obj, iabs + 1, iabs + 41) {
            Some(v) => v,
            None => {
                proof {
                    assert(s.subrange(irel + 1, irel + 41) =~= obj@.subrange(
                        iabs + 1,
                        iabs + 41,
                    ));
                }
                return None;
            },
        };
        let name = copy_range(obj, p + 5, iabs);
        let kind = if is_blob {
            TreeEntryKind::Blob
        } else {
            TreeEntryKind::Tree
        };
        let ghost old_entries = entries@;
        entries.push(TreeEntry { kind, hash: crate::object::Hash::from_bytes(hv), name });
        proof {
            assert(s.subrange(irel + 1, irel + 41) =~= obj@.subrange(iabs + 1, iabs + 41));
            assert(s.subrange(5, irel) =~= obj@.subrange(p + 5, iabs as int));
            assert(s.skip(irel + 41) =~= obj@.skip(iabs + 41));
            let e = entries@.last()@;
            assert(spec_parse_entries(s) == match spec_parse_entries(s.skip(irel + 41)) {
                Some(rest) => Some(seq![e] + rest),
                None => None::<Seq<TreeEntryV>>,
            });
            match spec_parse_entries(obj@.skip(iabs + 41)) {
                Some(rest) => {
                    assert(entries@.map_values(|e2: TreeEntry| e2@) =~= old_entries.map_values(
                        |e2: TreeEntry| e2@,
                    ).push(e));
                    assert(old_entries.map_values(|e2: TreeEntry| e2@) + (seq![e] + rest)
                        =~= entries@.map_values(|e2: TreeEntry| e2@) + rest);
                },
                None => {},
            }
        }
        p = iabs + 41;
    }
}

// ---------------------------------------------------------------------------
// Tree round trip and hash stability
// ---------------------------------------------------------------------------

/// Placing one serialized entry before a parseable tail parses to the entry
/// followed by whatever the tail parses to.
proof fn lemma_parse_entries_cons(e: TreeEntryV, t: Seq<u8>)
    requires
        tree_entry_wf(e),
        spec_parse_entries(t) is Some,
    ensures
        spec_parse_entries(entry_bytes(e) + t) == Some(
            seq![e] + spec_parse_entries(t)->Some_0,
        ),
{
    let a = entry_bytes(e);
    let s = a + t;
    let i0 = 5 + e.name.len() as int;
    lemma_hex_of_len(e.hash);
    lemma_hex_of_chars(e.hash);
    assert(a.len() == i0 + 41);
    // byte-level structure of the serialized entry
    assert(forall|j: int| 0 <= j < 4 ==> a[j] == kind_tag(e.kind)[j]);
    assert(a[4] == 32);
    assert(forall|j: int| 0 <= j < e.name.len() ==> a[5 + j] == e.name[j]);
    assert(a[i0] == 0);
    assert(forall|j: int| 0 <= j < 40 ==> a[i0 + 1 + j] == hex_of(e.hash)[j]);
    // no NUL before position i0
    assert(forall|j: int| 0 <= j < i0 ==> s[j] != 0) by {
        assert(kind_tag(e.kind)[0] != 0 && kind_tag(e.kind)[1] != 0 && kind_tag(e.kind)[2] != 0
            && kind_tag(e.kind)[3] != 0);
        assert(forall|j: int| 5 <= j < i0 ==> a[j] == e.name[j - 5]);
        assert(forall|j: int| 0 <= j < e.name.len() ==> e.name[j] != 0);
    }
    assert(s[i0] == 0);
    lemma_find_index(s, 0);
    let fi = find_index(s, 0);
    assert(fi == Some(i0)) by {
        match fi {
            Some(k) => {
                if k < i0 {
                    assert(s[k] != 0);
                }
                if k > i0 {
                    assert(s[i0] == 0);
                }
            },
            None => {
                assert(s[i0] == 0);
            },
        }
    }
    assert(s.subrange(0, 4) =~= kind_tag(e.kind));
    assert(tag_blob()[0] != tag_tree()[0]);
    assert(s.len() >= i0 + 41);
    assert(s.subrange(i0 + 1, i0 + 41) =~= hex_of(e.hash));
    lemma_hex_round_trip(e.hash);
    assert(s.subrange(5, i0) =~= e.name);
    assert(s.skip(i0 + 41) =~= t);
    match e.kind {
        TreeEntryKind::Blob => {
            assert(s.subrange(0, 4) == tag_blob());
        },
        TreeEntryKind::Tree => {
            assert(s.subrange(0, 4) == tag_tree());
            assert(s.subrange(0, 4) != tag_blob());
        },
    }
}

pub open spec fn entry_bytes_fn() -> spec_fn(TreeEntryV) -> Seq<u8> {
    |e: TreeEntryV| entry_bytes(e)
}

/// The concatenation of well-formed serialized entries parses back to
/// exactly those entries.
proof fn lemma_parse_entries_of_concat(es: Seq<TreeEntryV>)
    requires
        forall|k: int| 0 <= k < es.len() ==> tree_entry_wf(#[trigger] es[k]),
    ensures
        spec_parse_entries(es.map_values(entry_bytes_fn()).flatten()) == Some(es),
    decreases es.len(),
{
    let flat = es.map_values(entry_bytes_fn()).flatten();
    if es.len() == 0 {
        assert(flat =~= Seq::<u8>::empty());
        assert(spec_parse_entries(flat) == Some(Seq::<TreeEntryV>::empty()));
        assert(Seq::<TreeEntryV>::empty() =~= es);
    } else {
        assert(forall|k: int|
            0 <= k < es.drop_first().len() ==> tree_entry_wf(#[trigger] es.drop_first()[k]));
        lemma_parse_entries_of_concat(es.drop_first());
        let tail = es.drop_first().map_values(entry_bytes_fn()).flatten();
        assert(es.map_values(entry_bytes_fn()).drop_first() =~= es.drop_first().map_values(
            entry_bytes_fn(),
        ));
        assert(flat == entry_bytes(es[0]) + tail) by {
            assert(es.map_values(entry_bytes_fn()).first() == entry_bytes(es[0]));
        }
        lemma_parse_entries_cons(es[0], tail);
        assert(seq![es[0]] + es.drop_first() =~= es);
    }
}

/// The concatenation of well-formed serialized entries parses back to
/// exactly those entries.
pub proof fn lemma_parse_entries_of_concat_pub(es: Seq<TreeEntryV>)
    requires
        forall|k: int| 0 <= k < es.len() ==> tree_entry_wf(#[trigger] es[k]),
    ensures
        spec_parse_entries(es.map_values(entry_bytes_fn()).flatten()) == Some(es),
{
    lemma_parse_entries_of_concat(es);
}

/// Parsing inverts serialization on every tree whose entries are well formed
/// and already in wire order.
pub proof fn lemma_tree_round_trip(entries: Seq<TreeEntryV>)
    requires
        forall|k: int| 0 <= k < entries.len() ==> tree_entry_wf(#[trigger] entries[k]),
        vstd::relations::sorted_by(
            entries.map_values(entry_bytes_fn()),
            entry_le_fn(),
        ),
    ensures
        spec_parse_tree(spec_serialize_tree(entries)) == Some(entries),
{
    let bytes = entries.map_values(entry_bytes_fn());
    lemma_entry_le_total_ordering();
    bytes.lemma_sort_by_ensures(entry_le_fn());
    vstd::seq_lib::lemma_sorted_unique(bytes, bytes.sort_by(entry_le_fn()), entry_le_fn());
    assert(bytes.sort_by(entry_le_fn()) == bytes);
    assert(entries.map_values(|e: TreeEntryV| entry_bytes(e)) == bytes) by {
        assert(entries.map_values(|e: TreeEntryV| entry_bytes(e)) =~= bytes);
    }
    let obj = spec_serialize_tree(entries);
    assert(obj == tree_prefix() + bytes.flatten());
    assert(tree_prefix().is_prefix_of(obj)) by {
        assert(obj.subrange(0, 5) =~= tree_prefix());
    }
    assert(obj.skip(5) =~= bytes.flatten());
    lemma_parse_entries_of_concat(entries);
}

/// Multiset equality survives mapping.
proof fn lemma_map_values_multiset<A, B>(s1: Seq<A>, s2: Seq<A>, f: spec_fn(A) -> B)
    requires
        s1.to_multiset() == s2.to_multiset(),
    ensures
        s1.map_values(f).to_multiset() == s2.map_values(f).to_multiset(),
    decreases s1.len(),
{
    broadcast use vstd::seq_lib::group_to_multiset_ensures;

    if s1.len() == 0 {
        assert(s2.to_multiset().len() == 0);
        assert(s2.len() == 0);
        assert(s1.map_values(f) =~= s2.map_values(f));
    } else {
        let x = s1[0];
        assert(s1.to_multiset().contains(x));
        assert(s2.to_multiset().contains(x));
        assert(s2.contains(x));
        let i = choose|i: int| 0 <= i < s2.len() && s2[i] == x;
        assert(s1.drop_first() =~= s1.remove(0));
        assert(s1.remove(0).to_multiset() =~= s1.to_multiset().remove(x));
        assert(s2.remove(i).to_multiset() =~= s2.to_multiset().remove(x));
        lemma_map_values_multiset(s1.drop_first(), s2.remove(i), f);
        lemma_map_remove_commute(s1, 0, f);
        lemma_map_remove_commute(s2, i, f);
        assert(s1.map_values(f).remove(0).to_multiset() == s2.map_values(f).remove(
            i,
        ).to_multiset()) by {
            assert(s1.remove(0).map_values(f) =~= s1.drop_first().map_values(f));
        }
        assert(s1.map_values(f).remove(0).to_multiset() =~= s1.map_values(f).to_multiset().remove(
            f(x),
        ));
        assert(s2.map_values(f).remove(i).to_multiset() =~= s2.map_values(f).to_multiset().remove(
            f(x),
        ));
        assert(s1.map_values(f).to_multiset().contains(f(x)));
        assert(s2.map_values(f).to_multiset().contains(f(x))) by {
            assert(s2.map_values(f)[i] == f(x));
            assert(s2.map_values(f).contains(f(x)));
        }
        assert(s1.map_values(f).to_multiset() =~= s2.map_values(f).to_multiset()) by {
            let m1 = s1.map_values(f).to_multiset();
            let m2 = s2.map_values(f).to_multiset();
            assert(m1.remove(f(x)) == m2.remove(f(x)));
            assert forall|y: B| true implies m1.count(y) == m2.count(y) by {
                if y == f(x) {
                    assert(m1.remove(f(x)).count(y) == m1.count(y) - 1);
                    assert(m2.remove(f(x)).count(y) == m2.count(y) - 1);
                } else {
                    assert(m1.remove(f(x)).count(y) == m1.count(y));
                    assert(m2.remove(f(x)).count(y) == m2.count(y));
                }
            }
        }
    }
}

proof fn lemma_map_remove_commute<A, B>(s: Seq<A>, i: int, f: spec_fn(A) -> B)
    requires
        0 <= i < s.len(),
    ensures
        s.remove(i).map_values(f) == s.map_values(f).remove(i),
{
    assert(s.remove(i).map_values(f) =~= s.map_values(f).remove(i));
}

/// Reordering the entries of a tree does not change its serialized bytes:
/// the codec sorts entries canonically, so the bytes and therefore the hash
/// are a pure function of the entry multiset.
pub proof fn lemma_tree_serialize_permutation(es1: Seq<TreeEntryV>, es2: Seq<TreeEntryV>)
    requires
        es1.to_multiset() == es2.to_multiset(),
    ensures
        spec_serialize_tree(es1) == spec_serialize_tree(es2),
{
    let b1 = es1.map_values(|e: TreeEntryV| entry_bytes(e));
    let b2 = es2.map_values(|e: TreeEntryV| entry_bytes(e));
    lemma_map_values_multiset(es1, es2, entry_bytes_fn());
    assert(b1 =~= es1.map_values(entry_bytes_fn()));
    assert(b2 =~= es2.map_values(entry_bytes_fn()));
    lemma_entry_le_total_ordering();
    b1.lemma_sort_by_ensures(entry_le_fn());
    b2.lemma_sort_by_ensures(entry_le_fn());
    vstd::seq_lib::lemma_sorted_unique(
        b1.sort_by(entry_le_fn()),
        b2.sort_by(entry_le_fn()),
        entry_le_fn(),
    );
}

// ---------------------------------------------------------------------------
// Commit codec
// ---------------------------------------------------------------------------

pub open spec fn kw_tree() -> Seq<u8> {
    seq![116u8, 114u8, 101u8, 101u8, 32u8]
}

pub open spec fn kw_parent() -> Seq<u8> {
    seq![112u8, 97u8, 114u8, 101u8, 110u8, 116u8, 32u8]
}

pub open spec fn kw_author() -> Seq<u8> {
    seq![97u8, 117u8, 116u8, 104u8, 111u8, 114u8, 32u8]
}

pub open spec fn kw_time() -> Seq<u8> {
    seq![116u8, 105u8, 109u8, 101u8, 32u8]
}

/// The textual header block of a commit:
/// `tree` and optional `parent` lines, `author`, `time`, a blank line, the
/// message line, each newline-terminated.
pub open spec fn spec_commit_payload(
    tree: Seq<u8>,
    parent: Option<Seq<u8>>,
    author: Seq<u8>,
    time: int,
    msg: Seq<u8>,
) -> Seq<u8> {
    kw_tree() + hex_of(tree) + seq![10u8] + (match parent {
        Some(p) => kw_parent() + hex_of(p) + seq![10u8],
        None => Seq::<u8>::empty(),
    }) + kw_author() + author + seq![10u8] + kw_time() + dec_of_int(time) + seq![10u8]
        + seq![10u8] + msg + seq![10u8]
}

pub open spec fn spec_serialize_commit(c: CommitV) -> Seq<u8> {
    commit_prefix() + spec_commit_payload(c.tree, c.parent, c.author, c.time, c.msg)
}

/// The fields a commit parse yields; the stamped hash is not among them.
pub struct CommitFields {
    pub tree: Seq<u8>,
    pub parent: Option<Seq<u8>>,
    pub author: Seq<u8>,
    pub time: int,
    pub msg: Seq<u8>,
}

/// Splits off the first newline-terminated line.
pub open spec fn take_line(s: Seq<u8>) -> Option<(Seq<u8>, Seq<u8>)> {
    match find_index(s, 10) {
        Some(i) => Some((s.subrange(0, i), s.skip(i + 1))),
        None => None,
    }
}

/// A 40-character hexadecimal hash rendering.
pub open spec fn parse_hash_hex(x: Seq<u8>) -> Option<Seq<u8>> {
    if x.len() == 40 {
        hex_decode(x)
    } else {
        None
    }
}

/// Parses the header block of a commit.  The `tree` line comes first, then
/// an optional `parent` line, the `author` and `time` lines, a mandatory
/// blank line, and the message, which the trailing newline ends exactly.
pub open spec fn spec_parse_commit_fields(s: Seq<u8>) -> Option<CommitFields> {
    match take_line(s) {
        None => None,
        Some((l1, r1)) => if !kw_tree().is_prefix_of(l1) {
            None
        } else {
            match parse_hash_hex(l1.skip(5)) {
                None => None,
                Some(tree) => match take_line(r1) {
                    None => None,
                    Some((l2, r2)) => {
                        let has_parent = kw_parent().is_prefix_of(l2);
                        let parent = if has_parent {
                            parse_hash_hex(l2.skip(7))
                        } else {
                            None
                        };
                        if has_parent && parent is None {
                            None
                        } else {
                            let arest = if has_parent {
                                take_line(r2)
                            } else {
                                Some((l2, r2))
                            };
                            match arest {
                                None => None,
                                Some((la, ra)) => if !kw_author().is_prefix_of(la) {
                                    None
                                } else {
                                    let author = la.skip(7);
                                    match take_line(ra) {
                                        None => None,
                                        Some((lt, rt)) => if !kw_time().is_prefix_of(lt) {
                                            None
                                        } else {
                                            match parse_i64(lt.skip(5)) {
                                                None => None,
                                                Some(time) => match take_line(rt) {
                                                    None => None,
                                                    Some((lb, rb)) => if lb.len() != 0 {
                                                        None
                                                    } else {
                                                        match take_line(rb) {
                                                            None => None,
                                                            Some((lm, rm)) => if rm.len() != 0 {
                                                                None
                                                            } else {
                                                                Some(
                                                                    CommitFields {
                                                                        tree,
                                                                        parent,
                                                                        author,
                                                                        time,
                                                                        msg: lm,
                                                                    },
                                                                )
                                                            },
                                                        }
                                                    },
                                                },
                                            }
                                        },
                                    }
                                },
                            }
                        }
                    },
                },
            }
        },
    }
}

/// `Some(fields)` when `obj` is a well-formed commit object.
pub open spec fn spec_parse_commit(obj: Seq<u8>) -> Option<CommitFields> {
    if commit_prefix().is_prefix_of(obj) {
        spec_parse_commit_fields(obj.skip(7))
    } else {
        None
    }
}

/// A first occurrence seen from an absolute position fixes `find_index` on
/// the corresponding suffix.
proof fn lemma_find_index_from(s: Seq<u8>, p: int, b: u8, i: int)
    requires
        0 <= p <= i < s.len(),
        s[i] == b,
        forall|j: int| p <= j < i ==> s[j] != b,
    ensures
        find_index(s.skip(p), b) == Some(i - p),
{
    let t = s.skip(p);
    lemma_find_index(t, b);
    assert(t[i - p] == b);
    match find_index(t, b) {
        Some(k) => {
            if k < i - p {
                assert(s[p + k] != b);
                assert(t[k] == s[p + k]);
            }
            if k > i - p {
                assert(t[i - p] != b);
            }
        },
        None => {
            assert(t[i - p] != b);
        },
    }
}

proof fn lemma_find_index_from_none(s: Seq<u8>, p: int, b: u8)
    requires
        0 <= p <= s.len(),
        forall|j: int| p <= j < s.len() ==> s[j] != b,
    ensures
        find_index(s.skip(p), b) is None,
{
    let t = s.skip(p);
    lemma_find_index(t, b);
    match find_index(t, b) {
        Some(k) => {
            assert(t[k] == b);
            assert(s[p + k] != b);
        },
        None => {},
    }
}

/// A newline-free line followed by its terminator splits off exactly.
proof fn lemma_take_line_concat(l: Seq<u8>, t: Seq<u8>)
    requires
        !l.contains(10u8),
    ensures
        take_line(l + seq![10u8] + t) == Some((l, t)),
{
    let s = l + seq![10u8] + t;
    assert(s[l.len() as int] == 10);
    assert(forall|j: int| 0 <= j < l.len() ==> s[j] != 10) by {
        assert(forall|j: int| 0 <= j < l.len() ==> s[j] == l[j]);
    }
    assert(s.skip(0) =~= s);
    lemma_find_index_from(s, 0, 10, l.len() as int);
    assert(s.subrange(0, l.len() as int) =~= l);
    assert(s.skip(l.len() as int + 1) =~= t);
}

/// Serializes a commit object and stamps its hash.
#[verifier::rlimit(100)]
pub fn serialize_commit(commit: &mut Commit) -> (obj: Vec<u8>)
    ensures
        obj@ == spec_serialize_commit(old(commit)@),
        final(commit)@.tree == old(commit)@.tree,
        final(commit)@.parent == old(commit)@.parent,
        final(commit)@.author == old(commit)@.author,
        final(commit)@.time == old(commit)@.time,
        final(commit)@.msg == old(commit)@.msg,
        final(commit)@.hash == digest_of(obj@),
        final(commit)@.hash.len() == 20,
{
    let mut obj: Vec<u8> = Vec::new();
    obj.push(99);
    obj.push(111);
    obj.push(109);
    obj.push(109);
    obj.push(105);
    obj.push(116);
    obj.push(0);
    proof {
        assert(obj@ =~= commit_prefix());
    }
    let ghost c0 = commit@;
    // tree line
    obj.push(116);
    obj.push(114);
    obj.push(101);
    obj.push(101);
    obj.push(32);
    let hx = commit.tree.to_hex();
    obj.extend_from_slice(hx.as_slice());
    obj.push(10);
    proof {
        assert(obj@ =~= commit_prefix() + (kw_tree() + hex_of(c0.tree) + seq![10u8]));
    }
    let ghost after_tree = obj@;
    // parent line
    if let Some(p) = &commit.parent {
        obj.push(112);
        obj.push(97);
        obj.push(114);
        obj.push(101);
        obj.push(110);
        obj.push(116);
        obj.push(32);
        let px = p.to_hex();
        obj.extend_from_slice(px.as_slice());
        obj.push(10);
        proof {
            assert(obj@ =~= after_tree + (kw_parent() + hex_of(c0.parent->Some_0) + seq![10u8]));
        }
    }
    let ghost after_parent = obj@;
    proof {
        match c0.parent {
            Some(p) => {
                assert(after_parent == after_tree + (kw_parent() + hex_of(p) + seq![10u8]));
            },
            None => {
                assert(after_parent =~= after_tree + Seq::<u8>::empty());
            },
        }
    }
    // author line
    obj.push(97);
    obj.push(117);
    obj.push(116);
    obj.push(104);
    obj.push(111);
    obj.push(114);
    obj.push(32);
    obj.extend_from_slice(commit.author.as_slice());
    obj.push(10);
    proof {
        assert(obj@ =~= after_parent + (kw_author() + c0.author + seq![10u8]));
    }
    let ghost after_author = obj@;
    // time line
    obj.push(116);
    obj.push(105);
    obj.push(109);
    obj.push(101);
    obj.push(32);
    let td = i64_to_dec(commit.time);
    obj.extend_from_slice(td.as_slice());
    obj.push(10);
    // blank line, message, final newline
    obj.push(10);
    obj.extend_from_slice(commit.msg.as_slice());
    obj.push(10);
    proof {
        assert(obj@ =~= after_author + (kw_time() + dec_of_int(c0.time) + seq![10u8])
            + seq![10u8] + c0.msg + seq![10u8]);
        lemma_serialize_commit_grouping(c0, obj@, after_tree, after_parent, after_author);
    }
    commit.update_hash(&obj);
    obj
}

/// Regrouping of the serialized commit's concatenation.
#[verifier::rlimit(100)]
proof fn lemma_serialize_commit_grouping(
    c: CommitV,
    obj: Seq<u8>,
    after_tree: Seq<u8>,
    after_parent: Seq<u8>,
    after_author: Seq<u8>,
)
    requires
        after_tree == commit_prefix() + (kw_tree() + hex_of(c.tree) + seq![10u8]),
        after_parent == after_tree + (match c.parent {
            Some(p) => kw_parent() + hex_of(p) + seq![10u8],
            None => Seq::<u8>::empty(),
        }),
        after_author == after_parent + (kw_author() + c.author + seq![10u8]),
        obj == after_author + (kw_time() + dec_of_int(c.time) + seq![10u8]) + seq![10u8] + c.msg
            + seq![10u8],
    ensures
        obj == spec_serialize_commit(c),
{
    assert(obj =~= spec_serialize_commit(c));
}

/// Splits off the line beginning at absolute position `p`: returns the
/// position of its terminating newline.
fn take_line_at(obj: &Vec<u8>, p: usize) -> (r: Option<usize>)
    requires
        p <= obj@.len(),
    ensures
        match r {
            Some(e) => p <= e < obj@.len() && take_line(obj@.skip(p as int)) == Some(
                (obj@.subrange(p as int, e as int), obj@.skip(e as int + 1)),
            ),
            None => take_line(obj@.skip(p as int)) is None,
        },
{
    match find_byte(obj, p, 10) {
        Some(e) => {
            proof {
                lemma_find_index_from(obj@, p as int, 10, e as int);
            }
            Some(e)
        },
        None => {
            proof {
                lemma_find_index_from_none(obj@, p as int, 10);
            }
            None
        },
    }
}

/// Whether the line `obj[p..e]` starts with the keyword `kw`.
fn line_has_kw(obj: &Vec<u8>, p: usize, e: usize, kw: &Vec<u8>) -> (r: bool)
    requires
        p <= e <= obj@.len(),
    ensures
        r == kw@.is_prefix_of(obj@.subrange(p as int, e as int)),
{
    let l = e - p;
    if l < kw.len() {
        proof {
            assert(obj@.subrange(p as int, e as int).len() < kw@.len());
        }
        return false;
    }
    let m = match_at(obj, p, kw);
    proof {
        let line = obj@.subrange(p as int, e as int);
        assert(line.subrange(0, kw@.len() as int) =~= obj@.subrange(
            p as int,
            p + kw@.len(),
        ));
        if m {
            assert(kw@.is_prefix_of(line));
        } else {
            if kw@.is_prefix_of(line) {
                assert(obj@.subrange(p as int, p + kw@.len()) =~= kw@);
            }
        }
    }
    m
}

/// Deserializes a commit object; the stamped hash is the digest of `obj`.
/// `None` when `obj` is not a valid commit object.
#[verifier::rlimit(100)]
pub fn deserialize_commit(obj: &Vec<u8>) -> (r: Option<Commit>)
    ensures
        match r {
            Some(c) => spec_parse_commit(obj@) matches Some(f) && c@.tree == f.tree && c@.parent
                == f.parent && c@.author == f.author && c@.time == f.time && c@.msg == f.msg
                && c@.hash == digest_of(obj@),
            None => spec_parse_commit(obj@) is None,
        },
{
    let olen = obj.len();
    let mut prefix: Vec<u8> = Vec::new();
    prefix.push(99);
    prefix.push(111);
    prefix.push(109);
    prefix.push(109);
    prefix.push(105);
    prefix.push(116);
    prefix.push(0);
    proof {
        assert(prefix@ =~= commit_prefix());
    }
    if !match_at(obj, 0, &prefix) {
        proof {
            if commit_prefix().is_prefix_of(obj@) {
                assert(obj@.subrange(0, 7) =~= commit_prefix().subrange(0, 7));
            }
        }
        return None;
    }
    proof {
        assert(commit_prefix().is_prefix_of(obj@)) by {
            assert(obj@.subrange(0, 7) =~= commit_prefix());
        }
    }

    // tree line
    let l1_end = match take_line_at(obj, 7) {
        Some(e) => e,
        None => {
            return None;
        },
    };
    let ghost l1 = obj@.subrange(7, l1_end as int);
    let mut kwt: Vec<u8> = Vec::new();
    kwt.push(116);
    kwt.push(114);
    kwt.push(101);
    kwt.push(101);
    kwt.push(32);
    proof {
        assert(kwt@ =~= kw_tree());
    }
    if !line_has_kw(obj, 7, l1_end, &kwt) {
        return None;
    }
    if l1_end - 12 != 40 {
        proof {
            assert(l1.skip(5).len() != 40);
        }
        return None;
    }
    let tree_hash = match from_hex_range(obj, 12, 52) {
        Some(v) => v,
        None => {
            proof {
                assert(l1.skip(5) =~= obj@.subrange(12, 52));
            }
            return None;
        },
    };
    proof {
        assert(l1.skip(5) =~= obj@.subrange(12, 52));
    }
    let mut p: usize = l1_end + 1;
    let ghost r1 = obj@.skip(p as int);

    // optional parent line
    let l2_end = match take_line_at(obj, p) {
        Some(e) => e,
        None => {
            return None;
        },
    };
    let ghost l2 = obj@.subrange(p as int, l2_end as int);
    let mut kwp: Vec<u8> = Vec::new();
    kwp.push(112);
    kwp.push(97);
    kwp.push(114);
    kwp.push(101);
    kwp.push(110);
    kwp.push(116);
    kwp.push(32);
    proof {
        assert(kwp@ =~= kw_parent());
    }
    let has_parent = line_has_kw(obj, p, l2_end, &kwp);
    let mut parent_hash: Option<Vec<u8>> = None;
    if has_parent {
        if l2_end - (p + 7) != 40 {
            proof {
                assert(l2.skip(7).len() != 40);
            }
            return None;
        }
        let ph = match from_hex_range(obj, p + 7, p + 47) {
            Some(v) => v,
            None => {
                proof {
                    assert(l2.skip(7) =~= obj@.subrange(p + 7, p + 47));
                }
                return None;
            },
        };
        proof {
            assert(l2.skip(7) =~= obj@.subrange(p + 7, p + 47));
        }
        parent_hash = Some(ph);
        p = l2_end + 1;
    }
    let ghost ra = obj@.skip(p as int);

    // author line
    let la_end = match take_line_at(obj, p) {
        Some(e) => e,
        None => {
            return None;
        },
    };
    let ghost la = obj@.subrange(p as int, la_end as int);
    let mut kwa: Vec<u8> = Vec::new();
    kwa.push(97);
    kwa.push(117);
    kwa.push(116);
    kwa.push(104);
    kwa.push(111);
    kwa.push(114);
    kwa.push(32);
    proof {
        assert(kwa@ =~= kw_author());
    }
    if !line_has_kw(obj, p, la_end, &kwa) {
        return None;
    }
    let author = copy_range(obj, p + 7, la_end);
    proof {
        assert(author@ =~= la.skip(7));
    }
    let p2: usize = la_end + 1;
    let ghost rt = obj@.skip(p2 as int);

    // time line
    let lt_end = match take_line_at(obj, p2) {
        Some(e) => e,
        None => {
            return None;
        },
    };
    let ghost lt = obj@.subrange(p2 as int, lt_end as int);
    let mut kwti: Vec<u8> = Vec::new();
    kwti.push(116);
    kwti.push(105);
    kwti.push(109);
    kwti.push(101);
    kwti.push(32);
    proof {
        assert(kwti@ =~= kw_time());
    }
    if !line_has_kw(obj, p2, lt_end, &kwti) {
        return None;
    }
    let time = match parse_dec_i64(obj, p2 + 5, lt_end) {
        Some(t) => t,
        None => {
            proof {
                assert(lt.skip(5) =~= obj@.subrange(p2 + 5, lt_end as int));
            }
            return None;
        },
    };
    proof {
        assert(lt.skip(5) =~= obj@.subrange(p2 + 5, lt_end as int));
    }
    let p3: usize = lt_end + 1;
    let ghost rb = obj@.skip(p3 as int);

    // mandatory blank line
    let pb_end = match take_line_at(obj, p3) {
        Some(e) => e,
        None => {
            return None;
        },
    };
    if pb_end != p3 {
        proof {
            assert(obj@.subrange(p3 as int, pb_end as int).len() != 0);
        }
        return None;
    }
    proof {
        assert(obj@.subrange(p3 as int, p3 as int).len() == 0);
    }
    let p4: usize = p3 + 1;
    let ghost rm = obj@.skip(p4 as int);

    // message line, which must end the object
    let lm_end = match take_line_at(obj, p4) {
        Some(e) => e,
        None => {
            return None;
        },
    };
    if lm_end + 1 != olen {
        proof {
            assert(obj@.skip(lm_end as int + 1).len() != 0);
        }
        return None;
    }
    proof {
        assert(obj@.skip(lm_end as int + 1).len() == 0);
    }
    let msg = copy_range(obj, p4, lm_end);
    let mut c = Commit {
        hash: crate::object::Hash::new(),
        tree: crate::object::Hash::from_bytes(tree_hash),
        parent: match parent_hash {
            Some(v) => Some(crate::object::Hash::from_bytes(v)),
            None => None,
        },
        author,
        time,
        msg,
    };
    c.update_hash(obj);
    Some(c)
}

/// Parsing inverts serialization on every well-formed commit: full-length
/// tree and parent hashes, newline-free author and message.
#[verifier::rlimit(100)]
pub proof fn lemma_commit_round_trip(
    tree: Seq<u8>,
    parent: Option<Seq<u8>>,
    author: Seq<u8>,
    time: int,
    msg: Seq<u8>,
)
    requires
        tree.len() == 20,
        parent matches Some(p) ==> p.len() == 20,
        !author.contains(10u8),
        !msg.contains(10u8),
        i64::MIN <= time <= i64::MAX,
    ensures
        spec_parse_commit(
            commit_prefix() + spec_commit_payload(tree, parent, author, time, msg),
        ) == Some(CommitFields { tree, parent, author, time, msg }),
{
    let payload = spec_commit_payload(tree, parent, author, time, msg);
    let obj = commit_prefix() + payload;
    assert(commit_prefix().is_prefix_of(obj)) by {
        assert(obj.subrange(0, 7) =~= commit_prefix());
    }
    assert(obj.skip(7) =~= payload);

    lemma_hex_of_len(tree);
    lemma_hex_of_chars(tree);
    let l1 = kw_tree() + hex_of(tree);
    let r1 = (match parent {
        Some(p) => kw_parent() + hex_of(p) + seq![10u8],
        None => Seq::<u8>::empty(),
    }) + kw_author() + author + seq![10u8] + kw_time() + dec_of_int(time) + seq![10u8]
        + seq![10u8] + msg + seq![10u8];
    assert(payload =~= l1 + seq![10u8] + r1);
    assert(!l1.contains(10u8)) by {
        assert(forall|j: int| 0 <= j < 5 ==> l1[j] == kw_tree()[j]);
        assert(forall|j: int| 0 <= j < 40 ==> l1[5 + j] == hex_of(tree)[j]);
        assert(forall|j: int| 0 <= j < l1.len() ==> l1[j] != 10);
    }
    lemma_take_line_concat(l1, r1);
    assert(kw_tree().is_prefix_of(l1)) by {
        assert(l1.subrange(0, 5) =~= kw_tree());
    }
    assert(l1.skip(5) =~= hex_of(tree));
    lemma_hex_round_trip(tree);

    let la = kw_author() + author;
    let rafter = kw_time() + dec_of_int(time) + seq![10u8] + seq![10u8] + msg + seq![10u8];
    let r2 = la + seq![10u8] + rafter;
    assert(!la.contains(10u8)) by {
        assert(forall|j: int| 0 <= j < 7 ==> la[j] == kw_author()[j]);
        assert(forall|j: int| 0 <= j < author.len() ==> la[7 + j] == author[j]);
        assert(forall|j: int| 0 <= j < la.len() ==> la[j] != 10);
    }
    match parent {
        Some(p) => {
            lemma_hex_of_len(p);
            lemma_hex_of_chars(p);
            let l2 = kw_parent() + hex_of(p);
            assert(r1 =~= l2 + seq![10u8] + r2);
            assert(!l2.contains(10u8)) by {
                assert(forall|j: int| 0 <= j < 7 ==> l2[j] == kw_parent()[j]);
                assert(forall|j: int| 0 <= j < 40 ==> l2[7 + j] == hex_of(p)[j]);
                assert(forall|j: int| 0 <= j < l2.len() ==> l2[j] != 10);
            }
            lemma_take_line_concat(l2, r2);
            assert(kw_parent().is_prefix_of(l2)) by {
                assert(l2.subrange(0, 7) =~= kw_parent());
            }
            assert(l2.skip(7) =~= hex_of(p));
            lemma_hex_round_trip(p);
        },
        None => {
            assert(r1 =~= la + seq![10u8] + rafter);
            lemma_take_line_concat(la, rafter);
            // the author line does not masquerade as a parent line
            assert(!kw_parent().is_prefix_of(la)) by {
                assert(la[0] == 97);
                assert(kw_parent()[0] == 112);
                if kw_parent().is_prefix_of(la) {
                    assert(la.subrange(0, 7)[0] == la[0]);
                }
            }
        },
    }
    lemma_take_line_concat(la, rafter);
    assert(kw_author().is_prefix_of(la)) by {
        assert(la.subrange(0, 7) =~= kw_author());
    }
    assert(la.skip(7) =~= author);

    let lt = kw_time() + dec_of_int(time);
    let rblank = seq![10u8] + msg + seq![10u8];
    let rb_tail = msg + seq![10u8];
    assert(rafter =~= lt + seq![10u8] + rblank);
    assert(!lt.contains(10u8)) by {
        assert(forall|j: int| 0 <= j < 5 ==> lt[j] == kw_time()[j]);
        if time < 0 {
            lemma_dec_digits_chars((-time) as nat);
            assert(dec_of_int(time)[0] == 45);
            assert(forall|j: int|
                1 <= j < dec_of_int(time).len() ==> dec_of_int(time)[j] == crate::bytes::dec_digits(
                    (-time) as nat,
                )[j - 1]);
        } else {
            lemma_dec_digits_chars(time as nat);
        }
        assert(forall|j: int| 0 <= j < lt.len() ==> lt[j] != 10);
    }
    lemma_take_line_concat(lt, rblank);
    assert(kw_time().is_prefix_of(lt)) by {
        assert(lt.subrange(0, 5) =~= kw_time());
    }
    assert(lt.skip(5) =~= dec_of_int(time));
    lemma_dec_round_trip(time);

    assert(rblank =~= Seq::<u8>::empty() + seq![10u8] + rb_tail);
    lemma_take_line_concat(Seq::<u8>::empty(), rb_tail);
    assert(!Seq::<u8>::empty().contains(10u8));

    assert(rb_tail =~= msg + seq![10u8] + Seq::<u8>::empty());
    lemma_take_line_concat(msg, Seq::<u8>::empty());
    assert(!kw_tree().is_prefix_of(l1) || true);
}

} // verus!
