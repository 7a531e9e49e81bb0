use vstd::prelude::*;

use crate::bytes_eq;

verus! {

/// The byte-keyed store the chain persists into, modeled as the map it
/// holds. The durable engine behind it lives outside the library; callers
/// mirror every change into it and rebuild this value when they reopen.
pub struct KvStore {
    entries: Vec<(Vec<u8>, Vec<u8>)>,
}

impl View for KvStore {
    type V = Map<Seq<u8>, Seq<u8>>;

    closed spec fn view(&self) -> Map<Seq<u8>, Seq<u8>> {
        Map::new(
            |k: Seq<u8>|
                exists|i: int| 0 <= i < self.entries@.len() && self.entries@[i].0@ == k,
            |k: Seq<u8>|
                {
                    let i = choose|i: int|
                        0 <= i < self.entries@.len() && self.entries@[i].0@ == k;
                    self.entries@[i].1@
                },
        )
    }
}

impl KvStore {
    /// Keys are distinct: each key holds one value.
    pub closed spec fn wf(&self) -> bool {
        forall|i: int, j: int|
            0 <= i < j < self.entries@.len() ==> self.entries@[i].0@ != self.entries@[j].0@
    }

    /// An empty store.
    pub fn new() -> (r: KvStore)
        ensures
            r.wf(),
            r@ == Map::<Seq<u8>, Seq<u8>>::empty(),
    {
        let r = KvStore { entries: Vec::new() };
        proof {
            assert(r@ =~= Map::<Seq<u8>, Seq<u8>>::empty());
        }
        r
    }

    /// The value under a key, if any.
    pub fn get(&self, key: &Vec<u8>) -> (r: Option<&Vec<u8>>)
        requires
            self.wf(),
        ensures
            r is Some <==> self@.contains_key(key@),
            r is Some ==> (r->0)@ == self@[key@],
    {
        let mut k: usize = 0;
        while k < self.entries.len()
            invariant
                k <= self.entries@.len(),
                forall|i: int| 0 <= i < k ==> self.entries@[i].0@ != key@,
                self.wf(),
            decreases self.entries@.len() - k,
        {
            if bytes_eq(&self.entries[k].0, key) {
                proof {
                    assert(self@.contains_key(key@));
                    let i = choose|i: int|
                        0 <= i < self.entries@.len() && self.entries@[i].0@ == key@;
                    assert(i == k);
                }
                return Some(&self.entries[k].1);
            }
            k += 1;
        }
        proof {
            assert(!self@.contains_key(key@));
        }
        None
    }

    /// Bind a key to a value, replacing what the key held before.
    pub fn insert(&mut self, key: Vec<u8>, value: Vec<u8>)
        requires
            old(self).wf(),
        ensures
            final(self).wf(),
            final(self)@ == old(self)@.insert(key@, value@),
    {
        let ghost keyv = key@;
        let ghost valv = value@;
        let mut k: usize = 0;
        while k < self.entries.len()
            invariant
                k <= self.entries@.len(),
                forall|i: int| 0 <= i < k ==> self.entries@[i].0@ != keyv,
                self.wf(),
                self == old(self),
                keyv == key@,
                valv == value@,
            decreases self.entries@.len() - k,
        {
            if bytes_eq(&self.entries[k].0, &key) {
                self.entries.set(k, (key, value));
                proof {
                    let pre = old(self).entries@;
                    assert(self.entries@ =~= pre.update(k as int, (pre[k as int].0, pre[
                    k as int].1)).update(k as int, self.entries@[k as int]));
                    assert forall|i: int, j: int|
                        0 <= i < j < self.entries@.len() implies self.entries@[i].0@
                        != self.entries@[j].0@ by {
                        if i != k && j != k {
                            assert(pre[i].0@ != pre[j].0@);
                        } else if i == k {
                            assert(pre[k as int].0@ != pre[j].0@);
                        } else {
                            assert(pre[i].0@ != pre[k as int].0@);
                        }
                    }
                    assert forall|q: Seq<u8>| #[trigger] self@.contains_key(q)
                        == old(self)@.insert(keyv, valv).contains_key(q) by {
                        if q == keyv {
                            assert(self.entries@[k as int].0@ == q);
                        } else {
                            if self@.contains_key(q) {
                                let i = choose|i: int|
                                    0 <= i < self.entries@.len() && self.entries@[i].0@ == q;
                                assert(pre[i].0@ == q);
                            }
                            if old(self)@.contains_key(q) {
                                let i = choose|i: int|
                                    0 <= i < pre.len() && pre[i].0@ == q;
                                assert(self.entries@[i].0@ == q);
                            }
                        }
                    }
                    assert forall|q: Seq<u8>|
                        self@.contains_key(q) implies self@[q] == old(self)@.insert(
                        keyv,
                        valv,
                    )[q] by {
                        let i = choose|i: int|
                            0 <= i < self.entries@.len() && self.entries@[i].0@ == q;
                        if q == keyv {
                            assert(i == k);
                        } else {
                            assert(i != k);
                            let j = choose|j: int| 0 <= j < pre.len() && pre[j].0@ == q;
                            assert(j == i);
                        }
                    }
                    assert(self@ =~= old(self)@.insert(keyv, valv));
                }
                return ;
            }
            k += 1;
        }
        self.entries.push((key, value));
        proof {
            let pre = old(self).entries@;
            assert forall|q: Seq<u8>| #[trigger] self@.contains_key(q) == old(self)@.insert(
                keyv,
                valv,
            ).contains_key(q) by {
                if q == keyv {
                    assert(self.entries@[pre.len() as int].0@ == q);
                } else {
                    if self@.contains_key(q) {
                        let i = choose|i: int|
                            0 <= i < self.entries@.len() && self.entries@[i].0@ == q;
                        assert(pre[i].0@ == q);
                    }
                    if old(self)@.contains_key(q) {
                        let i = choose|i: int| 0 <= i < pre.len() && pre[i].0@ == q;
                        assert(self.entries@[i].0@ == q);
                    }
                }
            }
            assert forall|q: Seq<u8>| self@.contains_key(q) implies self@[q] == old(
                self,
            )@.insert(keyv, valv)[q] by {
                let i = choose|i: int| 0 <= i < self.entries@.len() && self.entries@[i].0@ == q;
                if q == keyv {
                    assert(forall|j: int| 0 <= j < pre.len() ==> pre[j].0@ != keyv);
                    assert(i == pre.len());
                } else {
                    assert(i != pre.len());
                    let j = choose|j: int| 0 <= j < pre.len() && pre[j].0@ == q;
                    assert(j == i);
                }
            }
            assert(self@ =~= old(self)@.insert(keyv, valv));
        }
    }

    /// Remove everything.
    pub fn clear(&mut self)
        ensures
            final(self).wf(),
            final(self)@ == Map::<Seq<u8>, Seq<u8>>::empty(),
    {
        self.entries = Vec::new();
        proof {
            assert(self@ =~= Map::<Seq<u8>, Seq<u8>>::empty());
        }
    }

    /// Every key/value pair, for callers that mirror the store outward.
    pub fn entries(&self) -> (r: &Vec<(Vec<u8>, Vec<u8>)>)
        requires
            self.wf(),
        ensures
            forall|i: int|
                0 <= i < r@.len() ==> self@.contains_key(#[trigger] r@[i].0@) && self@[r@[i].0@]
                    == r@[i].1@,
            forall|k: Seq<u8>|
                self@.contains_key(k) ==> exists|i: int| 0 <= i < r@.len() && r@[i].0@ == k,
    {
        proof {
            assert forall|i: int|
                0 <= i < self.entries@.len() implies self@.contains_key(
                #[trigger] self.entries@[i].0@,
            ) && self@[self.entries@[i].0@] == self.entries@[i].1@ by {
                let q = self.entries@[i].0@;
                assert(self@.contains_key(q));
                let j = choose|j: int|
                    0 <= j < self.entries@.len() && self.entries@[j].0@ == q;
                assert(j == i);
            }
        }
        &self.entries
    }
}

} // verus!
