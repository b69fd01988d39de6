//! An association list from byte-string keys to values, with unique keys,
//! viewed as a mathematical map.  It backs the object store, the branch
//! table and the working-directory snapshot.

use vstd::prelude::*;
use crate::bytes::bytes_eq;

verus! {

pub struct ByteMap<V> {
    pub pairs: Vec<(Vec<u8>, V)>,
}

impl<V: View> View for ByteMap<V> {
    type V = Map<Seq<u8>, V::V>;

    open spec fn view(&self) -> Map<Seq<u8>, V::V> {
        ByteMap::<V>::map_of(self.pairs@)
    }
}

impl<V: View> ByteMap<V> {
    /// The map an association list denotes; later pairs win.
    pub open spec fn map_of(s: Seq<(Vec<u8>, V)>) -> Map<Seq<u8>, V::V>
        decreases s.len(),
    {
        if s.len() == 0 {
            Map::empty()
        } else {
            Self::map_of(s.drop_last()).insert(s.last().0@, s.last().1@)
        }
    }

    /// Keys are pairwise distinct.
    pub open spec fn wf(&self) -> bool {
        forall|i: int, j: int|
            0 <= i < j < self.pairs@.len() ==> (#[trigger] self.pairs@[i]).0@ != (
            #[trigger] self.pairs@[j]).0@
    }

    /// Every listed key is in the map, every map key is listed, and the
    /// domain is finite.
    pub proof fn lemma_map_of_keys(s: Seq<(Vec<u8>, V)>)
        ensures
            forall|i: int|
                0 <= i < s.len() ==> Self::map_of(s).contains_key((#[trigger] s[i]).0@),
            forall|k: Seq<u8>|
                Self::map_of(s).contains_key(k) ==> exists|i: int|
                    0 <= i < s.len() && (#[trigger] s[i]).0@ == k,
            Self::map_of(s).dom().finite(),
        decreases s.len(),
    {
        if s.len() > 0 {
            Self::lemma_map_of_keys(s.drop_last());
            assert(forall|i: int| 0 <= i < s.len() - 1 ==> s[i] == s.drop_last()[i]);
            assert forall|i: int|
                0 <= i < s.len() implies Self::map_of(s).contains_key((#[trigger] s[i]).0@) by {
                if i < s.len() - 1 {
                    assert(Self::map_of(s.drop_last()).contains_key(s.drop_last()[i].0@));
                }
            }
            assert forall|k: Seq<u8>| Self::map_of(s).contains_key(k) implies exists|i: int|
                0 <= i < s.len() && (#[trigger] s[i]).0@ == k by {
                if k == s.last().0@ {
                    assert(s[s.len() - 1].0@ == k);
                } else {
                    assert(Self::map_of(s.drop_last()).contains_key(k));
                    let i = choose|i: int|
                        0 <= i < s.drop_last().len() && (#[trigger] s.drop_last()[i]).0@ == k;
                    assert(s[i].0@ == k);
                }
            }
        }
    }

    /// With distinct keys, each listed pair gives the map's value at its key.
    pub proof fn lemma_map_of_values(s: Seq<(Vec<u8>, V)>)
        requires
            forall|i: int, j: int|
                0 <= i < j < s.len() ==> (#[trigger] s[i]).0@ != (#[trigger] s[j]).0@,
        ensures
            forall|i: int|
                0 <= i < s.len() ==> Self::map_of(s).contains_key((#[trigger] s[i]).0@)
                    && Self::map_of(s)[s[i].0@] == s[i].1@,
        decreases s.len(),
    {
        Self::lemma_map_of_keys(s);
        if s.len() > 0 {
            assert(forall|i: int| 0 <= i < s.len() - 1 ==> s[i] == s.drop_last()[i]);
            Self::lemma_map_of_values(s.drop_last());
            assert forall|i: int|
                0 <= i < s.len() implies Self::map_of(s).contains_key((#[trigger] s[i]).0@)
                && Self::map_of(s)[s[i].0@] == s[i].1@ by {
                if i < s.len() - 1 {
                    assert(Self::map_of(s.drop_last())[s.drop_last()[i].0@] == s.drop_last()[i].1@);
                    assert(s[i].0@ != s.last().0@);
                }
            }
        }
    }

    /// Removing the pair at `i` removes its key from the map.
    pub proof fn lemma_map_of_remove(s: Seq<(Vec<u8>, V)>, i: int)
        requires
            forall|p: int, q: int|
                0 <= p < q < s.len() ==> (#[trigger] s[p]).0@ != (#[trigger] s[q]).0@,
            0 <= i < s.len(),
        ensures
            Self::map_of(s.remove(i)) == Self::map_of(s).remove(s[i].0@),
        decreases s.len(),
    {
        Self::lemma_map_of_keys(s);
        Self::lemma_map_of_keys(s.remove(i));
        if i == s.len() - 1 {
            assert(s.remove(i) =~= s.drop_last());
            assert(Self::map_of(s) == Self::map_of(s.drop_last()).insert(s.last().0@, s.last().1@));
            assert(Self::map_of(s.drop_last()) =~= Self::map_of(s).remove(s[i].0@)) by {
                assert(!Self::map_of(s.drop_last()).contains_key(s.last().0@)) by {
                    if Self::map_of(s.drop_last()).contains_key(s.last().0@) {
                        let j = choose|j: int|
                            0 <= j < s.drop_last().len() && (#[trigger] s.drop_last()[j]).0@
                                == s.last().0@;
                        assert(s[j].0@ == s[s.len() - 1].0@);
                    }
                }
            }
        } else {
            assert(forall|p: int, q: int|
                0 <= p < q < s.drop_last().len() ==> (#[trigger] s.drop_last()[p]).0@ != (
                #[trigger] s.drop_last()[q]).0@);
            Self::lemma_map_of_remove(s.drop_last(), i);
            assert(s.remove(i).drop_last() =~= s.drop_last().remove(i));
            assert(s.remove(i).last() == s.last());
            assert(Self::map_of(s.remove(i)) == Self::map_of(s.drop_last().remove(i)).insert(
                s.last().0@,
                s.last().1@,
            ));
            assert(s.drop_last()[i] == s[i]);
            assert(Self::map_of(s.remove(i)) =~= Self::map_of(s).remove(s[i].0@)) by {
                assert(s[i].0@ != s.last().0@);
            }
        }
    }

    pub fn new() -> (r: Self)
        ensures
            r@ == Map::<Seq<u8>, V::V>::empty(),
            r.wf(),
            r.pairs@.len() == 0,
    {
        ByteMap { pairs: Vec::new() }
    }

    pub fn len(&self) -> (r: usize)
        ensures
            r == self.pairs@.len(),
    {
        self.pairs.len()
    }

    pub fn key_at(&self, i: usize) -> (r: &Vec<u8>)
        requires
            i < self.pairs@.len(),
        ensures
            r@ == self.pairs@[i as int].0@,
    {
        &self.pairs[i].0
    }

    pub fn val_at(&self, i: usize) -> (r: &V)
        requires
            i < self.pairs@.len(),
        ensures
            *r == self.pairs@[i as int].1,
    {
        &self.pairs[i].1
    }

    /// Every listed pair is in the map, and conversely.
    pub proof fn lemma_view(&self)
        requires
            self.wf(),
        ensures
            forall|i: int|
                0 <= i < self.pairs@.len() ==> self@.contains_key(
                    (#[trigger] self.pairs@[i]).0@,
                ) && self@[self.pairs@[i].0@] == self.pairs@[i].1@,
            forall|k: Seq<u8>|
                self@.contains_key(k) ==> exists|i: int|
                    0 <= i < self.pairs@.len() && (#[trigger] self.pairs@[i]).0@ == k,
            self@.dom().finite(),
    {
        Self::lemma_map_of_keys(self.pairs@);
        Self::lemma_map_of_values(self.pairs@);
    }

    pub fn get(&self, k: &Vec<u8>) -> (r: Option<&V>)
        requires
            self.wf(),
        ensures
            match r {
                Some(v) => self@.contains_key(k@) && v@ == self@[k@],
                None => !self@.contains_key(k@),
            },
    {
        proof {
            self.lemma_view();
        }
        let mut i: usize = 0;
        while i < self.pairs.len()
            invariant
                i <= self.pairs@.len(),
                self.wf(),
                forall|j: int| 0 <= j < i ==> (#[trigger] self.pairs@[j]).0@ != k@,
        decreases self.pairs@.len() - i,
        {
            if bytes_eq(&self.pairs[i].0, k) {
                proof {
                    self.lemma_view();
                }
                return Some(&self.pairs[i].1);
            }
            i = i + 1;
        }
        proof {
            self.lemma_view();
            if self@.contains_key(k@) {
                let j = choose|j: int|
                    0 <= j < self.pairs@.len() && (#[trigger] self.pairs@[j]).0@ == k@;
            }
        }
        None
    }

    pub fn contains_key(&self, k: &Vec<u8>) -> (r: bool)
        requires
            self.wf(),
        ensures
            r == self@.contains_key(k@),
    {
        match self.get(k) {
            Some(_) => true,
            None => false,
        }
    }

    /// Inserts or replaces the binding of `k`.
    pub fn insert(&mut self, k: Vec<u8>, v: V)
        requires
            old(self).wf(),
        ensures
            final(self).wf(),
            final(self)@ == old(self)@.insert(k@, v@),
            final(self).pairs@.len() <= old(self).pairs@.len() + 1,
    {
        proof {
            self.lemma_view();
        }
        let mut i: usize = 0;
        while i < self.pairs.len()
            invariant
                i <= self.pairs@.len(),
                self.wf(),
                *self == *old(self),
                forall|j: int| 0 <= j < i ==> (#[trigger] self.pairs@[j]).0@ != k@,
            decreases self.pairs@.len() - i,
        {
            if bytes_eq(&self.pairs[i].0, &k) {
                proof {
                    Self::lemma_map_of_remove(self.pairs@, i as int);
                }
                let ghost removed_key = self.pairs@[i as int].0@;
                self.pairs.remove(i);
                proof {
                    assert(Self::map_of(self.pairs@) == Self::map_of(old(self).pairs@).remove(
                        k@,
                    ));
                    assert(forall|p: int|
                        0 <= p < self.pairs@.len() && p < i ==> self.pairs@[p]
                            == old(self).pairs@[p]);
                    assert(forall|p: int|
                        i <= p < self.pairs@.len() ==> self.pairs@[p] == old(self).pairs@[p + 1]);
                }
                let ghost mid = self.pairs@;
                self.pairs.push((k, v));
                proof {
                    assert(self.pairs@.drop_last() =~= mid);
                    assert(self@ == Self::map_of(mid).insert(k@, v@));
                    assert(self@ =~= old(self)@.insert(k@, v@));
                    assert forall|p: int, q: int|
                        0 <= p < q < self.pairs@.len() implies (#[trigger] self.pairs@[p]).0@ != (
                        #[trigger] self.pairs@[q]).0@ by {
                        if q < self.pairs@.len() - 1 {
                            if p < i && q < i {
                                assert(mid[p] == old(self).pairs@[p]);
                            }
                        } else {
                            // the new last pair has key k, removed from the rest
                            if p < i {
                                assert(mid[p] == old(self).pairs@[p]);
                            } else {
                                assert(mid[p] == old(self).pairs@[p + 1]);
                            }
                        }
                    }
                }
                return ;
            }
            i = i + 1;
        }
        let ghost mid = self.pairs@;
        self.pairs.push((k, v));
        proof {
            assert(self.pairs@.drop_last() =~= mid);
            assert(self@ == Self::map_of(mid).insert(k@, v@));
            assert forall|p: int, q: int|
                0 <= p < q < self.pairs@.len() implies (#[trigger] self.pairs@[p]).0@ != (
                #[trigger] self.pairs@[q]).0@ by {
                if q == self.pairs@.len() - 1 {
                    assert(mid[p].0@ != k@);
                }
            }
        }
    }

    /// Removes the binding of `k`, if any.
    pub fn remove_key(&mut self, k: &Vec<u8>)
        requires
            old(self).wf(),
        ensures
            final(self).wf(),
            final(self)@ == old(self)@.remove(k@),
    {
        proof {
            self.lemma_view();
        }
        let mut i: usize = 0;
        while i < self.pairs.len()
            invariant
                i <= self.pairs@.len(),
                self.wf(),
                *self == *old(self),
                forall|j: int| 0 <= j < i ==> (#[trigger] self.pairs@[j]).0@ != k@,
            decreases self.pairs@.len() - i,
        {
            if bytes_eq(&self.pairs[i].0, k) {
                proof {
                    Self::lemma_map_of_remove(self.pairs@, i as int);
                }
                self.pairs.remove(i);
                proof {
                    assert(forall|p: int|
                        0 <= p < self.pairs@.len() && p < i ==> self.pairs@[p]
                            == old(self).pairs@[p]);
                    assert(forall|p: int|
                        i <= p < self.pairs@.len() ==> self.pairs@[p] == old(self).pairs@[p + 1]);
                    assert forall|p: int, q: int|
                        0 <= p < q < self.pairs@.len() implies (#[trigger] self.pairs@[p]).0@ != (
                        #[trigger] self.pairs@[q]).0@ by {}
                }
                return ;
            }
            i = i + 1;
        }
        proof {
            self.lemma_view();
            assert(!self@.contains_key(k@)) by {
                if self@.contains_key(k@) {
                    let j = choose|j: int|
                        0 <= j < self.pairs@.len() && (#[trigger] self.pairs@[j]).0@ == k@;
                }
            }
            assert(self@ =~= old(self)@.remove(k@));
        }
    }

    /// The listed keys, in list order.
    pub fn keys(&self) -> (r: Vec<Vec<u8>>)
        ensures
            r@.len() == self.pairs@.len(),
            forall|i: int| 0 <= i < r@.len() ==> (#[trigger] r@[i])@ == self.pairs@[i].0@,
    {
        let mut r: Vec<Vec<u8>> = Vec::new();
        let mut i: usize = 0;
        while i < self.pairs.len()
            invariant
                i <= self.pairs@.len(),
                r@.len() == i,
                forall|j: int| 0 <= j < i ==> (#[trigger] r@[j])@ == self.pairs@[j].0@,
            decreases self.pairs@.len() - i,
        {
            r.push(self.pairs[i].0.clone());
            i = i + 1;
        }
        r
    }
}

} // verus!
