use vstd::prelude::*;
use crate::types::{H256, TransactionOutput};

verus! {

/// Whether two byte arrays hold the same bytes.
pub fn same_bytes<const N: usize>(a: &[u8; N], b: &[u8; N]) -> (r: bool)
    ensures
        r == (a@ == b@),
{
    let mut i: usize = 0;
    while i < N
        invariant
            i <= N,
            a@.len() == N,
            b@.len() == N,
            forall|j: int| 0 <= j < i ==> a@[j] == b@[j],
        decreases N - i,
    {
        if a[i] != b[i] {
            return false;
        }
        i = i + 1;
    }
    assert(a@ =~= b@);
    true
}

/// The unspent outputs, each under its key. Its view maps the bytes of each key to the
/// output stored there.
pub struct UtxoStore {
    entries: Vec<(H256, TransactionOutput)>,
    map: Ghost<Map<Seq<u8>, TransactionOutput>>,
}

impl View for UtxoStore {
    type V = Map<Seq<u8>, TransactionOutput>;

    closed spec fn view(&self) -> Map<Seq<u8>, TransactionOutput> {
        self.map@
    }
}

impl UtxoStore {
    /// Well-formedness: the entries hold distinct keys and list exactly the view.
    pub closed spec fn wf(&self) -> bool {
        &&& self.map@.dom().finite()
        &&& forall|i: int, j: int|
            0 <= i < self.entries@.len() && 0 <= j < self.entries@.len() && i != j
                ==> #[trigger] self.entries@[i].0@ != #[trigger] self.entries@[j].0@
        &&& forall|i: int|
            0 <= i < self.entries@.len() ==> {
                &&& self.map@.contains_key(#[trigger] self.entries@[i].0@)
                &&& self.map@[self.entries@[i].0@] == self.entries@[i].1
            }
        &&& forall|k: Seq<u8>|
            #[trigger] self.map@.contains_key(k) ==> exists|i: int|
                0 <= i < self.entries@.len() && #[trigger] self.entries@[i].0@ == k
    }

    /// An empty store.
    pub fn new() -> (s: Self)
        ensures
            s.wf(),
            s@ == Map::<Seq<u8>, TransactionOutput>::empty(),
    {
        UtxoStore { entries: Vec::new(), map: Ghost(Map::empty()) }
    }

    /// The keys are finitely many.
    pub proof fn lemma_finite(&self)
        requires
            self.wf(),
        ensures
            self@.dom().finite(),
    {
    }

    /// Index of the entry under `key`, if any.
    fn find(&self, key: &H256) -> (r: Option<usize>)
        requires
            self.wf(),
        ensures
            r matches Some(i) ==> i < self.entries@.len() && self.entries@[i as int].0@ == key@,
            r is None ==> !self@.contains_key(key@),
    {
        let n = self.entries.len();
        let mut i: usize = 0;
        while i < n
            invariant
                i <= n,
                n == self.entries@.len(),
                forall|j: int| 0 <= j < i ==> #[trigger] self.entries@[j].0@ != key@,
            decreases n - i,
        {
            if same_bytes(&self.entries[i].0, key) {
                return Some(i);
            }
            i = i + 1;
        }
        proof {
            if self@.contains_key(key@) {
                let w = choose|w: int| 0 <= w < self.entries@.len() && #[trigger] self.entries@[w].0@ == key@;
                assert(self.entries@[w].0@ != key@);
            }
        }
        None
    }

    /// The output stored under `key`, if any.
    pub fn get(&self, key: &H256) -> (r: Option<TransactionOutput>)
        requires
            self.wf(),
        ensures
            r == (if self@.contains_key(key@) { Some(self@[key@]) } else { None::<TransactionOutput> }),
    {
        match self.find(key) {
            Some(i) => Some(self.entries[i].1),
            None => None,
        }
    }

    /// Whether an output is stored under `key`.
    pub fn contains_key(&self, key: &H256) -> (r: bool)
        requires
            self.wf(),
        ensures
            r == self@.contains_key(key@),
    {
        self.find(key).is_some()
    }

    /// Removes the output stored under `key`, if any.
    pub fn remove(&mut self, key: &H256)
        requires
            old(self).wf(),
        ensures
            final(self).wf(),
            final(self)@ == old(self)@.remove(key@),
    {
        match self.find(key) {
            None => {
                assert(self@.remove(key@) =~= self@);
            },
            Some(i) => {
                let ghost old_entries = self.entries@;
                let ghost old_map = self.map@;
                self.entries.remove(i);
                self.map = Ghost(old_map.remove(key@));
                proof {
                    let ne = self.entries@;
                    assert(ne == old_entries.remove(i as int));
                    assert forall|a: int| 0 <= a < ne.len() implies
                        #[trigger] ne[a] == old_entries[if a < i { a } else { a + 1 }] by {}
                    assert forall|a: int, b: int|
                        0 <= a < ne.len() && 0 <= b < ne.len() && a != b
                            implies #[trigger] ne[a].0@ != #[trigger] ne[b].0@ by {
                        let oa = if a < i { a } else { a + 1 };
                        let ob = if b < i { b } else { b + 1 };
                        assert(ne[a] == old_entries[oa]);
                        assert(ne[b] == old_entries[ob]);
                    }
                    assert forall|a: int| 0 <= a < ne.len() implies {
                        &&& self.map@.contains_key(#[trigger] ne[a].0@)
                        &&& self.map@[ne[a].0@] == ne[a].1
                    } by {
                        let oa = if a < i { a } else { a + 1 };
                        assert(ne[a] == old_entries[oa]);
                        assert(old_entries[oa].0@ != old_entries[i as int].0@);
                    }
                    assert forall|k: Seq<u8>| #[trigger] self.map@.contains_key(k) implies exists|a: int|
                        0 <= a < ne.len() && #[trigger] ne[a].0@ == k by {
                        let w = choose|w: int| 0 <= w < old_entries.len() && #[trigger] old_entries[w].0@ == k;
                        assert(w != i);
                        let a = if w < i { w } else { w - 1 };
                        assert(ne[a] == old_entries[w]);
                    }
                }
            },
        }
    }

    /// Stores `value` under `key`, replacing what was stored there.
    pub fn insert(&mut self, key: H256, value: TransactionOutput)
        requires
            old(self).wf(),
        ensures
            final(self).wf(),
            final(self)@ == old(self)@.insert(key@, value),
    {
        let ghost old_map = self.map@;
        match self.find(&key) {
            Some(i) => {
                let ghost old_entries = self.entries@;
                self.entries.set(i, (key, value));
                self.map = Ghost(old_map.insert(key@, value));
                proof {
                    let ne = self.entries@;
                    assert forall|a: int| 0 <= a < ne.len() implies {
                        &&& self.map@.contains_key(#[trigger] ne[a].0@)
                        &&& self.map@[ne[a].0@] == ne[a].1
                    } by {
                        if a != i {
                            assert(ne[a] == old_entries[a]);
                            assert(old_entries[a].0@ != old_entries[i as int].0@);
                        }
                    }
                    assert forall|k: Seq<u8>| #[trigger] self.map@.contains_key(k) implies exists|a: int|
                        0 <= a < ne.len() && #[trigger] ne[a].0@ == k by {
                        if k == key@ {
                            assert(ne[i as int].0@ == k);
                        } else {
                            let w = choose|w: int| 0 <= w < old_entries.len() && #[trigger] old_entries[w].0@ == k;
                            assert(ne[w] == old_entries[w]);
                        }
                    }
                }
            },
            None => {
                let ghost old_entries = self.entries@;
                self.entries.push((key, value));
                self.map = Ghost(old_map.insert(key@, value));
                proof {
                    let ne = self.entries@;
                    let n = old_entries.len() as int;
                    assert forall|a: int| 0 <= a < n implies #[trigger] ne[a] == old_entries[a] by {}
                    assert forall|a: int| 0 <= a < ne.len() implies {
                        &&& self.map@.contains_key(#[trigger] ne[a].0@)
                        &&& self.map@[ne[a].0@] == ne[a].1
                    } by {
                        if a < n {
                            assert(ne[a] == old_entries[a]);
                            assert(old_map.contains_key(old_entries[a].0@));
                        }
                    }
                    assert forall|k: Seq<u8>| #[trigger] self.map@.contains_key(k) implies exists|a: int|
                        0 <= a < ne.len() && #[trigger] ne[a].0@ == k by {
                        if k == key@ {
                            assert(ne[n].0@ == k);
                        } else {
                            let w = choose|w: int| 0 <= w < old_entries.len() && #[trigger] old_entries[w].0@ == k;
                            assert(ne[w] == old_entries[w]);
                        }
                    }
                    assert forall|a: int, b: int|
                        0 <= a < ne.len() && 0 <= b < ne.len() && a != b
                            implies #[trigger] ne[a].0@ != #[trigger] ne[b].0@ by {
                        if a < n && b < n {
                            assert(ne[a] == old_entries[a]);
                            assert(ne[b] == old_entries[b]);
                        } else if a < n {
                            assert(ne[a] == old_entries[a]);
                            assert(old_map.contains_key(old_entries[a].0@));
                        } else {
                            assert(ne[b] == old_entries[b]);
                            assert(old_map.contains_key(old_entries[b].0@));
                        }
                    }
                }
            },
        }
    }
}

} // verus!
