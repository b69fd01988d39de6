//! Text codecs for the reference files: `HEAD`, one branch file, and the
//! tracklist.  Reading and writing the files themselves is the caller's
//! business; these functions fix the bytes.

use vstd::prelude::*;
use crate::bytes::{hex_of, hex_decode, find_byte, match_at, copy_range, bytes_eq};
use crate::object::{Reference, ReferenceV, Error};

verus! {

/// ASCII whitespace, as the reference files may carry around a line.
pub open spec fn is_space(c: u8) -> bool {
    c == 32 || c == 9 || c == 10 || c == 13
}

/// `s` with leading and trailing ASCII whitespace removed.
pub open spec fn spec_trim(s: Seq<u8>) -> Seq<u8>
    decreases s.len(),
{
    if s.len() == 0 {
        s
    } else if is_space(s[0]) {
        spec_trim(s.drop_first())
    } else if is_space(s.last()) {
        spec_trim(s.drop_last())
    } else {
        s
    }
}

fn trim(s: &Vec<u8>) -> (r: Vec<u8>)
    ensures
        r@ == spec_trim(s@),
{
    let mut a: usize = 0;
    let mut b: usize = s.len();
    proof {
        assert(s@.subrange(0, s@.len() as int) =~= s@);
    }
    while a < b && (s[a] == 32 || s[a] == 9 || s[a] == 10 || s[a] == 13)
        invariant
            a <= b <= s@.len(),
            spec_trim(s@) == spec_trim(s@.subrange(a as int, b as int)),
        decreases b - a,
    {
        proof {
            let t = s@.subrange(a as int, b as int);
            assert(t.drop_first() =~= s@.subrange(a + 1, b as int));
        }
        a = a + 1;
    }
    while a < b && (s[b - 1] == 32 || s[b - 1] == 9 || s[b - 1] == 10 || s[b - 1] == 13)
        invariant
            a <= b <= s@.len(),
            spec_trim(s@) == spec_trim(s@.subrange(a as int, b as int)),
            a < b ==> !is_space(s@[a as int]),
        decreases b - a,
    {
        proof {
            let t = s@.subrange(a as int, b as int);
            assert(t.last() == s@[b - 1]);
            assert(t[0] == s@[a as int]);
            assert(t.drop_last() =~= s@.subrange(a as int, b - 1));
        }
        b = b - 1;
    }
    proof {
        let t = s@.subrange(a as int, b as int);
        if t.len() > 0 {
            assert(t[0] == s@[a as int]);
            assert(t.last() == s@[b - 1]);
        }
        assert(spec_trim(t) == t);
    }
    copy_range(s, a, b)
}

/// The `HEAD` file's one line: `ref: <branch>` or the hex hash, newline-
/// terminated.
pub open spec fn spec_head_bytes(r: ReferenceV) -> Seq<u8> {
    match r {
        ReferenceV::Branch(b) => seq![114u8, 101u8, 102u8, 58u8, 32u8] + b + seq![10u8],
        ReferenceV::Hash(h) => hex_of(h) + seq![10u8],
    }
}

/// What a `HEAD` file means: after trimming, a `ref: ` line names a branch,
/// anything else must be a 40-character hash.
pub open spec fn spec_parse_head(text: Seq<u8>) -> Option<ReferenceV> {
    let t = spec_trim(text);
    if t.len() >= 5 && t.subrange(0, 5) == seq![114u8, 101u8, 102u8, 58u8, 32u8] {
        Some(ReferenceV::Branch(t.skip(5)))
    } else if t.len() == 40 && hex_decode(t) is Some {
        Some(ReferenceV::Hash(hex_decode(t)->Some_0))
    } else {
        None
    }
}

/// Renders the `HEAD` file for a reference.
pub fn write_head(r: &Reference) -> (out: Vec<u8>)
    ensures
        out@ == spec_head_bytes(r@),
{
    match r {
        Reference::Branch(b) => {
            let mut out: Vec<u8> = Vec::new();
            out.push(114);
            out.push(101);
            out.push(102);
            out.push(58);
            out.push(32);
            out.extend_from_slice(b.as_slice());
            out.push(10);
            proof {
                assert(out@ =~= spec_head_bytes(r@));
            }
            out
        },
        Reference::Hash(h) => {
            let mut out = h.to_hex();
            out.push(10);
            proof {
                assert(out@ =~= spec_head_bytes(r@));
            }
            out
        },
    }
}

/// Parses a `HEAD` file; a malformed one is a corrupted object.
pub fn read_head(text: &Vec<u8>) -> (r: Result<Reference, Error>)
    ensures
        match r {
            Ok(rf) => spec_parse_head(text@) == Some(rf@),
            Err(e) => spec_parse_head(text@) is None && e is ObjectCorrupted,
        },
{
    let t = trim(text);
    let mut kw: Vec<u8> = Vec::new();
    kw.push(114);
    kw.push(101);
    kw.push(102);
    kw.push(58);
    kw.push(32);
    if match_at(&t, 0, &kw) {
        let name = copy_range(&t, 5, t.len());
        proof {
            assert(t@.subrange(0, 5) == kw@);
            assert(kw@ =~= seq![114u8, 101u8, 102u8, 58u8, 32u8]);
            assert(name@ =~= t@.skip(5));
        }
        return Ok(Reference::Branch(name));
    }
    proof {
        if t@.len() >= 5 && t@.subrange(0, 5) == seq![114u8, 101u8, 102u8, 58u8, 32u8] {
            assert(t@.subrange(0, 5) == kw@);
        }
    }
    match crate::object::Hash::from_hex(&t) {
        Some(h) => Ok(Reference::Hash(h)),
        None => Err(Error::ObjectCorrupted),
    }
}

/// The one line of a branch file: the hex hash, newline-terminated.
pub open spec fn spec_branch_bytes(h: Seq<u8>) -> Seq<u8> {
    hex_of(h) + seq![10u8]
}

/// Renders a branch file.
pub fn write_branch(hash: &crate::object::Hash) -> (out: Vec<u8>)
    ensures
        out@ == spec_branch_bytes(hash@),
{
    let mut out = hash.to_hex();
    out.push(10);
    out
}

/// What a branch file means: its trimmed line is a 40-character hash.
pub open spec fn spec_parse_branch(text: Seq<u8>) -> Option<Seq<u8>> {
    let t = spec_trim(text);
    if t.len() == 40 {
        hex_decode(t)
    } else {
        None
    }
}

/// Parses a branch file; a malformed one is a corrupted object.
pub fn read_branch(text: &Vec<u8>) -> (r: Result<crate::object::Hash, Error>)
    ensures
        match r {
            Ok(h) => spec_parse_branch(text@) == Some(h@) && h.wf(),
            Err(e) => spec_parse_branch(text@) is None && e is ObjectCorrupted,
        },
{
    let t = trim(text);
    match crate::object::Hash::from_hex(&t) {
        Some(h) => Ok(h),
        None => Err(Error::ObjectCorrupted),
    }
}

/// The tracklist file: paths joined by newlines, no trailing newline.
pub open spec fn spec_tracklist_bytes(lines: Seq<Seq<u8>>) -> Seq<u8>
    decreases lines.len(),
{
    if lines.len() == 0 {
        Seq::empty()
    } else if lines.len() == 1 {
        lines[0]
    } else {
        spec_tracklist_bytes(lines.drop_last()) + seq![10u8] + lines.last()
    }
}

/// Renders the tracklist file.
pub fn write_tracklist(lines: &Vec<Vec<u8>>) -> (out: Vec<u8>)
    ensures
        out@ == spec_tracklist_bytes(lines@.map_values(|l: Vec<u8>| l@)),
{
    let ghost lv = lines@.map_values(|l: Vec<u8>| l@);
    let mut out: Vec<u8> = Vec::new();
    let mut i: usize = 0;
    while i < lines.len()
        invariant
            i <= lines@.len(),
            lv == lines@.map_values(|l: Vec<u8>| l@),
            out@ == spec_tracklist_bytes(lv.take(i as int)),
        decreases lines@.len() - i,
    {
        if i > 0 {
            out.push(10);
        }
        out.extend_from_slice(lines[i].as_slice());
        proof {
            assert(lv.take(i + 1).drop_last() =~= lv.take(i as int));
            assert(lv.take(i + 1).last() == lv[i as int]);
            if i == 0 {
                assert(out@ =~= spec_tracklist_bytes(lv.take(1)));
            } else {
                assert(out@ =~= spec_tracklist_bytes(lv.take(i as int)) + seq![10u8]
                    + lv[i as int]);
            }
        }
        i = i + 1;
    }
    proof {
        assert(lv.take(lv.len() as int) =~= lv);
    }
    out
}

/// What a tracklist file holds: its lines, split on newlines; an empty file
/// holds nothing.
pub open spec fn spec_parse_lines(text: Seq<u8>) -> Seq<Seq<u8>>
    decreases text.len(),
{
    if text.len() == 0 {
        Seq::empty()
    } else {
        match crate::serialize::find_index(text, 10) {
            None => seq![text],
            Some(i) => if 0 <= i < text.len() {
                seq![text.subrange(0, i)] + spec_parse_lines(text.skip(i + 1))
            } else {
                Seq::empty()
            },
        }
    }
}

/// Parses a tracklist file into its lines.
pub fn read_tracklist(text: &Vec<u8>) -> (r: Vec<Vec<u8>>)
    ensures
        r@.map_values(|l: Vec<u8>| l@) == spec_parse_lines(text@),
{
    let mut r: Vec<Vec<u8>> = Vec::new();
    let mut p: usize = 0;
    proof {
        assert(text@.skip(0) =~= text@);
        assert(r@.map_values(|l: Vec<u8>| l@) + spec_parse_lines(text@) =~= spec_parse_lines(
            text@,
        ));
    }
    while p < text.len()
        invariant
            p <= text@.len(),
            match_lines(r@.map_values(|l: Vec<u8>| l@), text@, p as int),
        decreases text@.len() - p,
    {
        let ghost rv0 = r@.map_values(|l: Vec<u8>| l@);
        let ghost s = text@.skip(p as int);
        proof {
            crate::serialize::lemma_find_index(s, 10);
        }
        match find_byte(text, p, 10) {
            Some(i) => {
                r.push(copy_range(text, p, i));
                proof {
                    assert(forall|j: int| 0 <= j < s.len() ==> s[j] == text@[p + j]);
                    assert(crate::serialize::find_index(s, 10) == Some(i - p)) by {
                        match crate::serialize::find_index(s, 10) {
                            Some(k) => {
                                if k < i - p {
                                    assert(text@[p + k] == 10);
                                }
                                if k > i - p {
                                    assert(s[i - p] == 10);
                                }
                            },
                            None => {
                                assert(s[i - p] == 10);
                            },
                        }
                    }
                    assert(s.subrange(0, i - p) =~= text@.subrange(p as int, i as int));
                    assert(s.skip(i - p + 1) =~= text@.skip(i + 1));
                    assert(r@.map_values(|l: Vec<u8>| l@) =~= rv0.push(
                        text@.subrange(p as int, i as int),
                    ));
                }
                let newp = i + 1;
                proof {
                    lemma_lines_step(rv0, text@, p as int, i as int);
                }
                p = newp;
            },
            None => {
                r.push(copy_range(text, p, text.len()));
                proof {
                    assert(forall|j: int| 0 <= j < s.len() ==> s[j] == text@[p + j]);
                    assert(crate::serialize::find_index(s, 10) is None) by {
                        match crate::serialize::find_index(s, 10) {
                            Some(k) => {
                                assert(text@[p + k] == 10);
                            },
                            None => {},
                        }
                    }
                    assert(s.len() > 0);
                    assert(text@.subrange(p as int, text@.len() as int) =~= s);
                    assert(spec_parse_lines(s) == seq![s]);
                    assert(r@.map_values(|l: Vec<u8>| l@) =~= rv0.push(s));
                    lemma_lines_last(rv0, text@, p as int);
                }
                return r;
            },
        }
    }
    proof {
        assert(text@.skip(p as int) =~= Seq::<u8>::empty());
        assert(spec_parse_lines(text@.skip(p as int)) == Seq::<Seq<u8>>::empty());
        assert(r@.map_values(|l: Vec<u8>| l@) + Seq::<Seq<u8>>::empty() =~= r@.map_values(
            |l: Vec<u8>| l@,
        ));
    }
    r
}

/// The continuation invariant of the line scanner: the lines seen so far,
/// plus the lines of the unread suffix, are the lines of the whole text.
pub open spec fn match_lines(done: Seq<Seq<u8>>, text: Seq<u8>, p: int) -> bool {
    0 <= p <= text.len() && spec_parse_lines(text) == done + spec_parse_lines(text.skip(p))
}

proof fn lemma_lines_step(done: Seq<Seq<u8>>, text: Seq<u8>, p: int, i: int)
    requires
        match_lines(done, text, p),
        p <= i < text.len(),
        text[i] == 10,
        forall|j: int| p <= j < i ==> text[j] != 10,
        crate::serialize::find_index(text.skip(p), 10) == Some(i - p),
    ensures
        match_lines(done.push(text.subrange(p, i)), text, i + 1),
{
    let s = text.skip(p);
    assert(s.len() > 0);
    assert(spec_parse_lines(s) == seq![s.subrange(0, i - p)] + spec_parse_lines(
        s.skip(i - p + 1),
    ));
    assert(s.subrange(0, i - p) =~= text.subrange(p, i));
    assert(s.skip(i - p + 1) =~= text.skip(i + 1));
    assert(done + spec_parse_lines(s) =~= done.push(text.subrange(p, i)) + spec_parse_lines(
        text.skip(i + 1),
    ));
}

proof fn lemma_lines_last(done: Seq<Seq<u8>>, text: Seq<u8>, p: int)
    requires
        match_lines(done, text, p),
        p < text.len(),
        crate::serialize::find_index(text.skip(p), 10) is None,
    ensures
        spec_parse_lines(text) == done.push(text.skip(p)),
{
    let s = text.skip(p);
    assert(s.len() > 0);
    assert(spec_parse_lines(s) == seq![s]);
    assert(done + seq![s] =~= done.push(s));
}

} // verus!
