//! Walking commit history: the log and the common-ancestor search that the
//! merge builds on.

use vstd::prelude::*;
use crate::bytes::bytes_eq;
use crate::object::{Commit, CommitV, Error};
use crate::serialize::{spec_parse_commit, CommitFields};
use crate::store::Store;

verus! {

/// The parent link of the commit filed under `h`: `None` when `h` is absent
/// or not a commit, else the optional parent hash.
pub open spec fn parent_of(m: Map<Seq<u8>, Seq<u8>>, h: Seq<u8>) -> Option<Option<Seq<u8>>> {
    if m.contains_key(h) {
        match spec_parse_commit(m[h]) {
            Some(f) => Some(f.parent),
            None => None,
        }
    } else {
        None
    }
}

/// `h` is a readable commit.
pub open spec fn readable_commit(m: Map<Seq<u8>, Seq<u8>>, h: Seq<u8>) -> bool {
    m.contains_key(h) && spec_parse_commit(m[h]) is Some
}

/// `anc` lies on the parent chain of `from`, within `n` steps.
pub open spec fn ancestor_of(m: Map<Seq<u8>, Seq<u8>>, anc: Seq<u8>, from: Seq<u8>, n: nat) -> bool
    decreases n,
{
    from == anc || (n > 0 && (match parent_of(m, from) {
        Some(Some(p)) => ancestor_of(m, anc, p, (n - 1) as nat),
        _ => false,
    }))
}

/// `anc` lies on the parent chain of `from`.
pub open spec fn is_ancestor(m: Map<Seq<u8>, Seq<u8>>, anc: Seq<u8>, from: Seq<u8>) -> bool {
    exists|n: nat| ancestor_of(m, anc, from, n)
}

pub proof fn lemma_ancestor_mono(m: Map<Seq<u8>, Seq<u8>>, anc: Seq<u8>, from: Seq<u8>, n: nat, n2: nat)
    requires
        ancestor_of(m, anc, from, n),
        n2 >= n,
    ensures
        ancestor_of(m, anc, from, n2),
    decreases n,
{
    if from != anc {
        match parent_of(m, from) {
            Some(Some(p)) => {
                lemma_ancestor_mono(m, anc, p, (n - 1) as nat, (n2 - 1) as nat);
            },
            _ => {},
        }
    }
}

/// An ancestor's parent is an ancestor too.
pub proof fn lemma_ancestor_step(m: Map<Seq<u8>, Seq<u8>>, h: Seq<u8>, p: Seq<u8>, from: Seq<u8>, n: nat)
    requires
        ancestor_of(m, h, from, n),
        parent_of(m, h) == Some(Some(p)),
    ensures
        ancestor_of(m, p, from, n + 1),
    decreases n,
{
    if from == h {
        assert(ancestor_of(m, p, p, n));
    } else {
        match parent_of(m, from) {
            Some(Some(q)) => {
                lemma_ancestor_step(m, h, p, q, (n - 1) as nat);
                assert(ancestor_of(m, p, q, n));
            },
            _ => {},
        }
    }
}

pub proof fn lemma_is_ancestor_step(m: Map<Seq<u8>, Seq<u8>>, h: Seq<u8>, p: Seq<u8>, from: Seq<u8>)
    requires
        is_ancestor(m, h, from),
        parent_of(m, h) == Some(Some(p)),
    ensures
        is_ancestor(m, p, from),
{
    let n = choose|n: nat| ancestor_of(m, h, from, n);
    lemma_ancestor_step(m, h, p, from, n);
}

/// One step of a chain walk: the parent commit of `h`, read and validated.
/// `Ok(None)` at a root commit.
pub open spec fn spec_step(m: Map<Seq<u8>, Seq<u8>>, h: Seq<u8>) -> Result<Option<Seq<u8>>, Error> {
    match parent_of(m, h) {
        None => Err(Error::ObjectCorrupted),
        Some(None) => Ok(None),
        Some(Some(p)) => if !m.contains_key(p) {
            Err(Error::ObjectNotFound)
        } else if spec_parse_commit(m[p]) is None {
            Err(Error::ObjectCorrupted)
        } else {
            Ok(Some(p))
        },
    }
}

/// The lockstep common-ancestor walk: advance the two chains alternately,
/// returning the first commit one walk finds among the other's seen set.
/// Exhausted chains with no common commit, and walks that outlive the fuel,
/// fail with `ObjectNotFound`.
pub open spec fn spec_lockstep(
    m: Map<Seq<u8>, Seq<u8>>,
    ca: Option<Seq<u8>>,
    cb: Option<Seq<u8>>,
    sa: Seq<Seq<u8>>,
    sb: Seq<Seq<u8>>,
    fuel: nat,
) -> Result<Seq<u8>, Error>
    decreases fuel,
{
    if fuel == 0 {
        Err(Error::ObjectNotFound)
    } else if ca is None && cb is None {
        Err(Error::ObjectNotFound)
    } else {
        let a_found = ca matches Some(h) && sb.contains(h);
        if a_found {
            Ok(ca->Some_0)
        } else {
            let a_next = match ca {
                Some(h) => spec_step(m, h),
                None => Ok(None),
            };
            match a_next {
                Err(e) => Err(e),
                Ok(ca2) => {
                    let sa2 = match ca {
                        Some(h) => sa.push(h),
                        None => sa,
                    };
                    let b_found = cb matches Some(h) && sa2.contains(h);
                    if b_found {
                        Ok(cb->Some_0)
                    } else {
                        let b_next = match cb {
                            Some(h) => spec_step(m, h),
                            None => Ok(None),
                        };
                        match b_next {
                            Err(e) => Err(e),
                            Ok(cb2) => {
                                let sb2 = match cb {
                                    Some(h) => sb.push(h),
                                    None => sb,
                                };
                                spec_lockstep(m, ca2, cb2, sa2, sb2, (fuel - 1) as nat)
                            },
                        }
                    }
                },
            }
        }
    }
}

/// The common ancestor of two commits, by the lockstep walk.
pub open spec fn spec_common_ancestor(
    m: Map<Seq<u8>, Seq<u8>>,
    a: Seq<u8>,
    b: Seq<u8>,
    fuel: nat,
) -> Result<Seq<u8>, Error> {
    spec_lockstep(m, Some(a), Some(b), Seq::empty(), Seq::empty(), fuel)
}

/// Whatever the lockstep walk returns lies on both parent chains.
pub proof fn lemma_lockstep_common(
    m: Map<Seq<u8>, Seq<u8>>,
    ca: Option<Seq<u8>>,
    cb: Option<Seq<u8>>,
    sa: Seq<Seq<u8>>,
    sb: Seq<Seq<u8>>,
    fuel: nat,
    a0: Seq<u8>,
    b0: Seq<u8>,
)
    requires
        forall|i: int| 0 <= i < sa.len() ==> is_ancestor(m, #[trigger] sa[i], a0),
        forall|i: int| 0 <= i < sb.len() ==> is_ancestor(m, #[trigger] sb[i], b0),
        ca matches Some(h) ==> is_ancestor(m, h, a0),
        cb matches Some(h) ==> is_ancestor(m, h, b0),
        spec_lockstep(m, ca, cb, sa, sb, fuel) is Ok,
    ensures
        is_ancestor(m, spec_lockstep(m, ca, cb, sa, sb, fuel)->Ok_0, a0) && is_ancestor(
            m,
            spec_lockstep(m, ca, cb, sa, sb, fuel)->Ok_0,
            b0,
        ),
    decreases fuel,
{
    let res = spec_lockstep(m, ca, cb, sa, sb, fuel)->Ok_0;
    let a_found = ca matches Some(h) && sb.contains(h);
    if a_found {
        let i = choose|i: int| 0 <= i < sb.len() && sb[i] == ca->Some_0;
    } else {
        let a_next = match ca {
            Some(h) => spec_step(m, h),
            None => Ok::<Option<Seq<u8>>, Error>(None),
        };
        match a_next {
            Err(e) => {},
            Ok(ca2) => {
                let sa2 = match ca {
                    Some(h) => sa.push(h),
                    None => sa,
                };
                assert(forall|i: int| 0 <= i < sa2.len() ==> is_ancestor(m, #[trigger] sa2[i], a0))
                    by {
                    match ca {
                        Some(h) => {
                            assert(forall|i: int| 0 <= i < sa.len() ==> sa2[i] == sa[i]);
                            assert(sa2.last() == h);
                        },
                        None => {},
                    }
                }
                let b_found = cb matches Some(h) && sa2.contains(h);
                if b_found {
                    let i = choose|i: int| 0 <= i < sa2.len() && sa2[i] == cb->Some_0;
                } else {
                    match ca {
                        Some(h) => {
                            match parent_of(m, h) {
                                Some(Some(p)) => {
                                    if ca2 == Some(p) {
                                        lemma_is_ancestor_step(m, h, p, a0);
                                    }
                                },
                                _ => {},
                            }
                        },
                        None => {},
                    }
                    let b_next = match cb {
                        Some(h) => spec_step(m, h),
                        None => Ok::<Option<Seq<u8>>, Error>(None),
                    };
                    match b_next {
                        Err(e) => {},
                        Ok(cb2) => {
                            let sb2 = match cb {
                                Some(h) => sb.push(h),
                                None => sb,
                            };
                            assert(forall|i: int|
                                0 <= i < sb2.len() ==> is_ancestor(m, #[trigger] sb2[i], b0)) by {
                                match cb {
                                    Some(h) => {
                                        assert(forall|i: int|
                                            0 <= i < sb.len() ==> sb2[i] == sb[i]);
                                        assert(sb2.last() == h);
                                    },
                                    None => {},
                                }
                            }
                            match cb {
                                Some(h) => {
                                    match parent_of(m, h) {
                                        Some(Some(p)) => {
                                            if cb2 == Some(p) {
                                                lemma_is_ancestor_step(m, h, p, b0);
                                            }
                                        },
                                        _ => {},
                                    }
                                },
                                None => {},
                            }
                            lemma_lockstep_common(m, ca2, cb2, sa2, sb2, (fuel - 1) as nat, a0, b0);
                        },
                    }
                }
            },
        }
    }
}

/// The ancestor the walk returns lies on both commits' parent chains.
pub proof fn lemma_common_ancestor_correct(
    m: Map<Seq<u8>, Seq<u8>>,
    a: Seq<u8>,
    b: Seq<u8>,
    fuel: nat,
)
    requires
        spec_common_ancestor(m, a, b, fuel) is Ok,
    ensures
        is_ancestor(m, spec_common_ancestor(m, a, b, fuel)->Ok_0, a),
        is_ancestor(m, spec_common_ancestor(m, a, b, fuel)->Ok_0, b),
{
    assert(ancestor_of(m, a, a, 0));
    assert(ancestor_of(m, b, b, 0));
    lemma_lockstep_common(m, Some(a), Some(b), Seq::empty(), Seq::empty(), fuel, a, b);
}

/// The commit value is filed in the store under its own hash.
pub open spec fn commit_in_store(m: Map<Seq<u8>, Seq<u8>>, c: CommitV) -> bool {
    m.contains_key(c.hash) && (spec_parse_commit(m[c.hash]) matches Some(f) && f.tree == c.tree
        && f.parent == c.parent && f.author == c.author && f.time == c.time && f.msg == c.msg)
}

/// Reads the parent commit, if any.
fn step_commit(store: &Store, c: &Commit) -> (r: Result<Option<Commit>, Error>)
    requires
        store.wf(),
        commit_in_store(store@, c@),
    ensures
        match r {
            Ok(None) => spec_step(store@, c@.hash) == Ok::<Option<Seq<u8>>, Error>(None),
            Ok(Some(p)) => spec_step(store@, c@.hash) == Ok::<Option<Seq<u8>>, Error>(
                Some(p@.hash),
            ) && commit_in_store(store@, p@) && p@.parent == c@.parent ==> true,
            Err(e) => spec_step(store@, c@.hash) == Err::<Option<Seq<u8>>, Error>(e),
        },
        r matches Ok(Some(p)) ==> spec_step(store@, c@.hash) == Ok::<Option<Seq<u8>>, Error>(
            Some(p@.hash),
        ) && commit_in_store(store@, p@),
{
    match c.parent_hash() {
        None => Ok(None),
        Some(p) => match store.read_commit(&p) {
            Ok(pc) => Ok(Some(pc)),
            Err(e) => Err(e),
        },
    }
}

/// Finds the nearest commit that lies on both parent chains, walking the two
/// chains in lockstep.  `ObjectNotFound` when the chains share no commit.
#[verifier::loop_isolation(false)]
pub fn into_common_ancestor(store: &Store, a: Commit, b: Commit) -> (r: Result<Commit, Error>)
    requires
        store.wf(),
        store.objects.pairs@.len() < usize::MAX,
        commit_in_store(store@, a@),
        commit_in_store(store@, b@),
    ensures
        match r {
            Ok(c) => spec_common_ancestor(
                store@,
                a@.hash,
                b@.hash,
                store.objects.pairs@.len() + 1,
            ) == Ok::<Seq<u8>, Error>(c@.hash) && commit_in_store(store@, c@) && is_ancestor(
                store@,
                c@.hash,
                a@.hash,
            ) && is_ancestor(store@, c@.hash, b@.hash),
            Err(e) => spec_common_ancestor(
                store@,
                a@.hash,
                b@.hash,
                store.objects.pairs@.len() + 1,
            ) == Err::<Seq<u8>, Error>(e),
        },
{
    let ghost m = store@;
    let ghost a0 = a@.hash;
    let ghost b0 = b@.hash;
    let ghost total: nat = store.objects.pairs@.len() + 1;
    let mut fuel: usize = store.objects.len() + 1;
    let mut ca: Option<Commit> = Some(a);
    let mut cb: Option<Commit> = Some(b);
    let mut sa: Vec<Vec<u8>> = Vec::new();
    let mut sb: Vec<Vec<u8>> = Vec::new();
    proof {
        assert(sa@.map_values(|v: Vec<u8>| v@) =~= Seq::<Seq<u8>>::empty());
        assert(sb@.map_values(|v: Vec<u8>| v@) =~= Seq::<Seq<u8>>::empty());
    }
    loop
        invariant
            store.wf(),
            m == store@,
            total == store.objects.pairs@.len() + 1,
            fuel <= total,
            ca matches Some(c) ==> commit_in_store(m, c@),
            cb matches Some(c) ==> commit_in_store(m, c@),
            spec_common_ancestor(m, a0, b0, total) == spec_lockstep(
                m,
                match ca {
                    Some(c) => Some(c@.hash),
                    None => None,
                },
                match cb {
                    Some(c) => Some(c@.hash),
                    None => None,
                },
                sa@.map_values(|v: Vec<u8>| v@),
                sb@.map_values(|v: Vec<u8>| v@),
                fuel as nat,
            ),
        decreases fuel,
    {
        let ghost cav: Option<Seq<u8>> = match &ca {
            Some(c) => Some(c@.hash),
            None => None,
        };
        let ghost cbv: Option<Seq<u8>> = match &cb {
            Some(c) => Some(c@.hash),
            None => None,
        };
        let ghost sav = sa@.map_values(|v: Vec<u8>| v@);
        let ghost sbv = sb@.map_values(|v: Vec<u8>| v@);
        if fuel == 0 {
            proof {
                assert(spec_lockstep(m, cav, cbv, sav, sbv, fuel as nat) == Err::<
                    Seq<u8>,
                    Error,
                >(Error::ObjectNotFound));
            }
            return Err(Error::ObjectNotFound);
        }
        if ca.is_none() && cb.is_none() {
            proof {
                assert(spec_lockstep(m, cav, cbv, sav, sbv, fuel as nat) == Err::<
                    Seq<u8>,
                    Error,
                >(Error::ObjectNotFound));
            }
            return Err(Error::ObjectNotFound);
        }
        // a-side: found among b's seen set?
        let found_a = match &ca {
            Some(c) => {
                let ch = c.hash();
                seen_contains(&sb, ch.as_bytes())
            },
            None => false,
        };
        if found_a {
            proof {
                assert(spec_lockstep(m, cav, cbv, sav, sbv, fuel as nat) == Ok::<
                    Seq<u8>,
                    Error,
                >(cav->Some_0));
                lemma_common_ancestor_correct(m, a0, b0, total);
            }
            let out = match ca {
                Some(c2) => c2,
                None => {
                    proof {
                        assert(false);
                    }
                    unreached()
                },
            };
            return Ok(out);
        }
        // advance a
        let mut ca2: Option<Commit> = None;
        if let Some(c) = &ca {
            match step_commit(store, c) {
                Ok(next) => {
                    ca2 = next;
                },
                Err(e) => {
                    proof {
                        assert(spec_lockstep(m, cav, cbv, sav, sbv, fuel as nat) == Err::<
                            Seq<u8>,
                            Error,
                        >(e));
                    }
                    return Err(e);
                },
            }
            sa.push(copy_hash(&c.hash));
            proof {
                assert(sa@.map_values(|v: Vec<u8>| v@) =~= sav.push(cav->Some_0));
            }
        } else {
            proof {
                assert(sa@.map_values(|v: Vec<u8>| v@) == sav);
            }
        }
        let ghost sav2 = sa@.map_values(|v: Vec<u8>| v@);
        // b-side: found among a's seen set?
        let found_b = match &cb {
            Some(c) => {
                let ch = c.hash();
                seen_contains(&sa, ch.as_bytes())
            },
            None => false,
        };
        if found_b {
            proof {
                assert(spec_lockstep(m, cav, cbv, sav, sbv, fuel as nat) == Ok::<
                    Seq<u8>,
                    Error,
                >(cbv->Some_0));
                lemma_common_ancestor_correct(m, a0, b0, total);
            }
            let out = match cb {
                Some(c2) => c2,
                None => {
                    proof {
                        assert(false);
                    }
                    unreached()
                },
            };
            return Ok(out);
        }
        // advance b
        let mut cb2: Option<Commit> = None;
        if let Some(c) = &cb {
            match step_commit(store, c) {
                Ok(next) => {
                    cb2 = next;
                },
                Err(e) => {
                    proof {
                        assert(spec_lockstep(m, cav, cbv, sav, sbv, fuel as nat) == Err::<
                            Seq<u8>,
                            Error,
                        >(e));
                    }
                    return Err(e);
                },
            }
            sb.push(copy_hash(&c.hash));
            proof {
                assert(sb@.map_values(|v: Vec<u8>| v@) =~= sbv.push(cbv->Some_0));
            }
        } else {
            proof {
                assert(sb@.map_values(|v: Vec<u8>| v@) == sbv);
            }
        }
        proof {
            let ca2v: Option<Seq<u8>> = match &ca2 {
                Some(c) => Some(c@.hash),
                None => None,
            };
            let cb2v: Option<Seq<u8>> = match &cb2 {
                Some(c) => Some(c@.hash),
                None => None,
            };
            let sbv2 = sb@.map_values(|v: Vec<u8>| v@);
            assert(spec_lockstep(m, cav, cbv, sav, sbv, fuel as nat) == spec_lockstep(
                m,
                ca2v,
                cb2v,
                sav2,
                sbv2,
                (fuel - 1) as nat,
            ));
        }
        ca = ca2;
        cb = cb2;
        fuel = fuel - 1;
    }
}

/// Whether a seen list holds the given hash bytes.
fn seen_contains(seen: &Vec<Vec<u8>>, h: &Vec<u8>) -> (r: bool)
    ensures
        r == seen@.map_values(|v: Vec<u8>| v@).contains(h@),
{
    let ghost sv = seen@.map_values(|v: Vec<u8>| v@);
    let mut i: usize = 0;
    while i < seen.len()
        invariant
            i <= seen@.len(),
            sv == seen@.map_values(|v: Vec<u8>| v@),
            forall|j: int| 0 <= j < i ==> sv[j] != h@,
        decreases seen@.len() - i,
    {
        if bytes_eq(&seen[i], h) {
            proof {
                assert(sv[i as int] == h@);
            }
            return true;
        }
        i = i + 1;
    }
    proof {
        if sv.contains(h@) {
            let j = choose|j: int| 0 <= j < sv.len() && sv[j] == h@;
        }
    }
    false
}

fn copy_hash(h: &crate::object::Hash) -> (r: Vec<u8>)
    ensures
        r@ == h@,
{
    let b = h.as_bytes();
    let r = crate::bytes::copy_range(b, 0, b.len());
    proof {
        assert(b@.subrange(0, b@.len() as int) =~= b@);
    }
    r
}

/// The commits from `head` back along the parent chain, newest first; at
/// most `amount` of them when `amount` is not zero.
#[verifier::loop_isolation(false)]
pub fn log_from(store: &Store, head: Commit, amount: u32) -> (r: Result<Vec<Commit>, Error>)
    requires
        store.wf(),
        store.objects.pairs@.len() < usize::MAX,
        commit_in_store(store@, head@),
    ensures
        match r {
            Ok(cs) => {
                &&& cs@.len() >= 1
                &&& cs@[0]@.hash == head@.hash
                &&& forall|i: int|
                    0 <= i < cs@.len() ==> commit_in_store(store@, (#[trigger] cs@[i])@)
                &&& forall|i: int|
                    0 <= i < cs@.len() - 1 ==> (#[trigger] cs@[i])@.parent == Some(
                        cs@[i + 1]@.hash,
                    )
                &&& amount != 0 ==> cs@.len() <= amount
                &&& (amount == 0 || cs@.len() < amount) ==> cs@.last()@.parent is None
            },
            Err(e) => (exists|a: Seq<u8>|
                #[trigger] is_ancestor(store@, a, head@.hash) && spec_step(store@, a) == Err::<
                    Option<Seq<u8>>,
                    Error,
                >(e)) || e is ObjectCorrupted,
        },
{
    let mut out: Vec<Commit> = Vec::new();
    let mut fuel: usize = store.objects.len() + 1;
    let mut cur = head;
    proof {
        assert(ancestor_of(store@, head@.hash, head@.hash, 0nat));
    }
    loop
        invariant
            store.wf(),
            commit_in_store(store@, cur@),
            is_ancestor(store@, cur@.hash, head@.hash),
            out@.len() >= 1 ==> out@[0]@.hash == head@.hash,
            out@.len() == 0 ==> cur@.hash == head@.hash,
            forall|i: int| 0 <= i < out@.len() ==> commit_in_store(store@, (#[trigger] out@[i])@),
            forall|i: int|
                0 <= i < out@.len() - 1 ==> (#[trigger] out@[i])@.parent == Some(
                    out@[i + 1]@.hash,
                ),
            out@.len() >= 1 ==> out@.last()@.parent == Some(cur@.hash),
            amount != 0 ==> out@.len() < amount,
        decreases fuel,
    {
        let next = match step_commit(store, &cur) {
            Ok(n) => n,
            Err(e) => {
                proof {
                    assert(is_ancestor(store@, cur@.hash, head@.hash) && spec_step(
                        store@,
                        cur@.hash,
                    ) == Err::<Option<Seq<u8>>, Error>(e));
                }
                return Err(e);
            },
        };
        let ghost curv = cur@;
        match next {
            None => {
                out.push(cur);
                proof {
                    assert(out@.last()@ == curv);
                    assert(spec_step(store@, curv.hash) == Ok::<Option<Seq<u8>>, Error>(None));
                    assert(curv.parent is None);
                }
                return Ok(out);
            },
            Some(p) => {
                out.push(cur);
                proof {
                    assert(out@.last()@ == curv);
                    assert(curv.parent == Some(p@.hash));
                }
                if amount != 0 && out.len() == amount as usize {
                    return Ok(out);
                }
                if fuel == 0 {
                    return Err(Error::ObjectCorrupted);
                }
                fuel = fuel - 1;
                proof {
                    assert(crate::history::parent_of(store@, curv.hash) == Some(
                        Some(p@.hash),
                    ));
                    lemma_is_ancestor_step(store@, curv.hash, p@.hash, head@.hash);
                }
                cur = p;
            },
        }
    }
}

/// Merging a commit with itself finds that commit as the base at once.
pub proof fn lemma_common_ancestor_self(m: Map<Seq<u8>, Seq<u8>>, a: Seq<u8>, fuel: nat)
    requires
        fuel >= 1,
        spec_step(m, a) is Ok,
    ensures
        spec_common_ancestor(m, a, a, fuel) == Ok::<Seq<u8>, Error>(a),
{
    let sa2 = Seq::<Seq<u8>>::empty().push(a);
    assert(sa2.contains(a)) by {
        assert(sa2[0] == a);
    }
    assert(!Seq::<Seq<u8>>::empty().contains(a));
}

} // verus!
