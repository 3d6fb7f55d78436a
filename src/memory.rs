use vstd::prelude::*;

use crate::engine::{
    bytes_eq, bytes_lt, copy_bytes, in_range, lemma_lex_irreflexive, lemma_lex_total,
    lemma_lex_transitive, lex_lt, lookup, Call, Engine, Error, Status,
};

verus! {

/// An in-memory engine: the pairs are kept in a vector sorted by key. It
/// counts the writes and flushes it has performed.
pub struct Memory {
    items: Vec<(Vec<u8>, Vec<u8>)>,
    contents: Ghost<Map<Seq<u8>, Seq<u8>>>,
    flushed: Ghost<bool>,
    trace: Ghost<Seq<Call>>,
    writes: u64,
    flushes: u64,
}

impl Memory {
    /// An empty engine.
    pub fn new() -> (r: Memory)
        ensures
            r.valid(),
            r.store() == Map::<Seq<u8>, Seq<u8>>::empty(),
            r.calls() == Seq::<Call>::empty(),
            r.synced(),
    {
        Memory {
            items: Vec::new(),
            contents: Ghost(Map::empty()),
            flushed: Ghost(true),
            trace: Ghost(Seq::empty()),
            writes: 0,
            flushes: 0,
        }
    }

    /// The number of writes (sets and deletes) performed so far, saturating.
    pub closed spec fn writes(&self) -> u64 {
        self.writes
    }

    /// The number of flushes performed so far, saturating.
    pub closed spec fn flushes(&self) -> u64 {
        self.flushes
    }

    pub fn write_count(&self) -> (r: u64)
        ensures
            r == self.writes(),
    {
        self.writes
    }

    pub fn flush_count(&self) -> (r: u64)
        ensures
            r == self.flushes(),
    {
        self.flushes
    }

    /// The position of the first pair whose key does not sort before `key`.
    fn position(&self, key: &[u8]) -> (p: usize)
        requires
            self.valid(),
        ensures
            p <= self.items@.len(),
            forall|j: int| 0 <= j < p ==> lex_lt(#[trigger] self.items@[j].0@, key@),
            p < self.items@.len() ==> !lex_lt(self.items@[p as int].0@, key@),
    {
        let mut p: usize = 0;
        while p < self.items.len()
            invariant
                p <= self.items@.len(),
                forall|j: int| 0 <= j < p ==> lex_lt(#[trigger] self.items@[j].0@, key@),
            decreases self.items@.len() - p,
        {
            if !bytes_lt(&self.items[p].0, key) {
                return p;
            }
            p = p + 1;
        }
        p
    }

    /// Whether the pair at `p` holds `key`; if not, `key` is absent.
    fn found(&self, key: &[u8], p: usize) -> (r: bool)
        requires
            self.valid(),
            p <= self.items@.len(),
            forall|j: int| 0 <= j < p ==> lex_lt(#[trigger] self.items@[j].0@, key@),
            p < self.items@.len() ==> !lex_lt(self.items@[p as int].0@, key@),
        ensures
            r ==> p < self.items@.len() && self.items@[p as int].0@ == key@,
            !r ==> !self.store().contains_key(key@),
            !r && p < self.items@.len() ==> lex_lt(key@, self.items@[p as int].0@),
    {
        let r = p < self.items.len() && bytes_eq(&self.items[p].0, key);
        proof {
        if !r {
            if p < self.items@.len() {
                lemma_lex_total(self.items@[p as int].0@, key@);
            }
            if self.store().contains_key(key@) {
                let j = choose|j: int| 0 <= j < self.items@.len() && #[trigger] self.items@[j].0@ == key@;
                if j < p {
                    lemma_lex_irreflexive(key@);
                } else if j > p {
                    lemma_lex_transitive(key@, self.items@[p as int].0@, key@);
                    lemma_lex_irreflexive(key@);
                }
            }
        }
        }
        r
    }
}

impl Memory {
    proof fn lemma_unfold(&self)
        requires
            self.valid(),
        ensures
            forall|j: int|
                0 <= j < self.items@.len() ==> {
                    &&& #[trigger] self.contents@.contains_key(self.items@[j].0@)
                    &&& self.contents@[self.items@[j].0@] == self.items@[j].1@
                },
            forall|k: Seq<u8>|
                #[trigger] self.contents@.contains_key(k) ==> exists|j: int|
                    0 <= j < self.items@.len() && #[trigger] self.items@[j].0@ == k,
            forall|j1: int, j2: int|
                0 <= j1 < j2 < self.items@.len() ==> lex_lt(
                    #[trigger] self.items@[j1].0@,
                    #[trigger] self.items@[j2].0@,
                ),
    {
    }

    proof fn lemma_fold(&self)
        requires
            forall|j: int|
                0 <= j < self.items@.len() ==> {
                    &&& #[trigger] self.contents@.contains_key(self.items@[j].0@)
                    &&& self.contents@[self.items@[j].0@] == self.items@[j].1@
                },
            forall|k: Seq<u8>|
                #[trigger] self.contents@.contains_key(k) ==> exists|j: int|
                    0 <= j < self.items@.len() && #[trigger] self.items@[j].0@ == k,
            forall|j1: int, j2: int|
                0 <= j1 < j2 < self.items@.len() ==> lex_lt(
                    #[trigger] self.items@[j1].0@,
                    #[trigger] self.items@[j2].0@,
                ),
        ensures
            self.valid(),
    {
    }
}

impl Engine for Memory {
    closed spec fn valid(&self) -> bool {
        &&& forall|j: int|
            0 <= j < self.items@.len() ==> {
                &&& #[trigger] self.contents@.contains_key(self.items@[j].0@)
                &&& self.contents@[self.items@[j].0@] == self.items@[j].1@
            }
        &&& forall|k: Seq<u8>|
            #[trigger] self.contents@.contains_key(k) ==> exists|j: int|
                0 <= j < self.items@.len() && #[trigger] self.items@[j].0@ == k
        &&& forall|j1: int, j2: int|
            0 <= j1 < j2 < self.items@.len() ==> lex_lt(
                #[trigger] self.items@[j1].0@,
                #[trigger] self.items@[j2].0@,
            )
    }

    closed spec fn store(&self) -> Map<Seq<u8>, Seq<u8>> {
        self.contents@
    }

    closed spec fn synced(&self) -> bool {
        self.flushed@
    }

    closed spec fn calls(&self) -> Seq<Call> {
        self.trace@
    }

    fn get(&mut self, key: &[u8]) -> (r: Result<Option<Vec<u8>>, Error>) {
        let p = self.position(key);
        if self.found(key, p) {
            Ok(Some(copy_bytes(&self.items[p].1)))
        } else {
            Ok(None)
        }
    }

    fn set(&mut self, key: &[u8], value: Vec<u8>) -> (r: Result<(), Error>) {
        proof {
            self.lemma_unfold();
        }
        let p = self.position(key);
        let ghost old_items = self.items@;
        let ghost new_map = self.contents@.insert(key@, value@);
        let ghost val = value@;
        if self.found(key, p) {
            self.items.set(p, (copy_bytes(key), value));
            assert forall|j: int| 0 <= j < self.items@.len() implies #[trigger] self.items@[j].0@ == old_items[j].0@ by {
                if j != p {
                    assert(self.items@[j] == old_items[j]);
                }
            }
            assert forall|k: Seq<u8>| #[trigger] new_map.contains_key(k) implies exists|j: int|
                0 <= j < self.items@.len() && #[trigger] self.items@[j].0@ == k by {
                if k != key@ {
                    assert(self.contents@.contains_key(k));
                    let j = choose|j: int| 0 <= j < old_items.len() && #[trigger] old_items[j].0@ == k;
                    assert(self.items@[j].0@ == k);
                } else {
                    assert(self.items@[p as int].0@ == k);
                }
            }
            assert forall|j: int| 0 <= j < self.items@.len() implies {
                &&& #[trigger] new_map.contains_key(self.items@[j].0@)
                &&& new_map[self.items@[j].0@] == self.items@[j].1@
            } by {
                if j != p {
                    assert(self.items@[j] == old_items[j]);
                    assert(old_items[j].0@ != key@) by {
                        if j < p {
                            lemma_lex_irreflexive(key@);
                        } else {
                            assert(lex_lt(old_items[p as int].0@, old_items[j].0@));
                            lemma_lex_irreflexive(key@);
                        }
                    }
                }
            }
        } else {
            self.items.insert(p, (copy_bytes(key), value));
            assert forall|k: Seq<u8>| #[trigger] new_map.contains_key(k) implies exists|j: int|
                0 <= j < self.items@.len() && #[trigger] self.items@[j].0@ == k by {
                if k != key@ {
                    assert(self.contents@.contains_key(k));
                    let j = choose|j: int| 0 <= j < old_items.len() && #[trigger] old_items[j].0@ == k;
                    if j < p {
                        assert(self.items@[j].0@ == k);
                    } else {
                        assert(self.items@[j + 1].0@ == k);
                    }
                } else {
                    assert(self.items@[p as int].0@ == k);
                }
            }
            assert forall|j: int| 0 <= j < self.items@.len() implies {
                &&& #[trigger] new_map.contains_key(self.items@[j].0@)
                &&& new_map[self.items@[j].0@] == self.items@[j].1@
            } by {
                if j < p {
                    assert(self.items@[j] == old_items[j]);
                    lemma_lex_irreflexive(key@);
                } else if j > p {
                    assert(self.items@[j] == old_items[j - 1]);
                    if old_items[j - 1].0@ == key@ {
                        lemma_lex_irreflexive(key@);
                    }
                }
            }
            assert forall|q: int| p <= q < old_items.len() implies lex_lt(key@, #[trigger] old_items[q].0@) by {
                if q > p {
                    lemma_lex_transitive(key@, old_items[p as int].0@, old_items[q].0@);
                }
            }
            assert forall|j1: int, j2: int| 0 <= j1 < j2 < self.items@.len() implies lex_lt(
                #[trigger] self.items@[j1].0@,
                #[trigger] self.items@[j2].0@,
            ) by {
                if j1 < p {
                    assert(self.items@[j1] == old_items[j1]);
                    if j2 < p {
                        assert(self.items@[j2] == old_items[j2]);
                    } else if j2 > p {
                        assert(self.items@[j2] == old_items[j2 - 1]);
                        lemma_lex_transitive(old_items[j1].0@, key@, old_items[j2 - 1].0@);
                    }
                } else if j1 == p {
                    assert(self.items@[j2] == old_items[j2 - 1]);
                } else {
                    assert(self.items@[j1] == old_items[j1 - 1]);
                    assert(self.items@[j2] == old_items[j2 - 1]);
                }
            }
        }
        let ghost new_items = self.items@;
        self.contents = Ghost(new_map);
        self.writes = self.writes.saturating_add(1);
        self.flushed = Ghost(false);
        self.trace = Ghost(self.trace@.push(Call::Put(key@, val)));
        proof {
            assert(self.items@ == new_items);
            assert(self.contents@ == new_map);
            self.lemma_fold();
        }
        Ok(())
    }

    fn delete(&mut self, key: &[u8]) -> (r: Result<(), Error>) {
        proof {
            self.lemma_unfold();
        }
        let p = self.position(key);
        let ghost old_items = self.items@;
        let ghost new_map = self.contents@.remove(key@);
        if self.found(key, p) {
            self.items.remove(p);
            assert forall|k: Seq<u8>| #[trigger] new_map.contains_key(k) implies exists|j: int|
                0 <= j < self.items@.len() && #[trigger] self.items@[j].0@ == k by {
                assert(self.contents@.contains_key(k));
                let j = choose|j: int| 0 <= j < old_items.len() && #[trigger] old_items[j].0@ == k;
                if j < p {
                    assert(self.items@[j].0@ == k);
                } else {
                    assert(j != p);
                    assert(self.items@[j - 1].0@ == k);
                }
            }
            assert forall|j: int| 0 <= j < self.items@.len() implies {
                &&& #[trigger] new_map.contains_key(self.items@[j].0@)
                &&& new_map[self.items@[j].0@] == self.items@[j].1@
            } by {
                let q = if j < p { j } else { j + 1 };
                assert(self.items@[j] == old_items[q]);
                assert(q != p);
                if q < p {
                    assert(lex_lt(old_items[q].0@, old_items[p as int].0@));
                } else {
                    assert(lex_lt(old_items[p as int].0@, old_items[q].0@));
                }
                lemma_lex_irreflexive(key@);
                assert(old_items[q].0@ != key@);
                assert(self.contents@.contains_key(old_items[q].0@));
            }
            assert forall|j1: int, j2: int| 0 <= j1 < j2 < self.items@.len() implies lex_lt(
                #[trigger] self.items@[j1].0@,
                #[trigger] self.items@[j2].0@,
            ) by {
                let a = if j1 < p { j1 } else { j1 + 1 };
                let b = if j2 < p { j2 } else { j2 + 1 };
                assert(self.items@[j1] == old_items[a]);
                assert(self.items@[j2] == old_items[b]);
            }
        } else {
            assert(new_map =~= self.contents@);
        }
        let ghost new_items = self.items@;
        self.contents = Ghost(new_map);
        self.writes = self.writes.saturating_add(1);
        self.flushed = Ghost(false);
        self.trace = Ghost(self.trace@.push(Call::Delete(key@)));
        proof {
            assert(self.items@ == new_items);
            assert(self.contents@ == new_map);
            self.lemma_fold();
        }
        Ok(())
    }

    fn flush(&mut self) -> (r: Result<(), Error>) {
        proof {
            self.lemma_unfold();
        }
        let ghost it = self.items@;
        let ghost c = self.contents@;
        self.flushed = Ghost(true);
        self.trace = Ghost(self.trace@.push(Call::Flush));
        self.flushes = self.flushes.saturating_add(1);
        proof {
            assert(self.items@ == it);
            assert(self.contents@ == c);
            self.lemma_fold();
        }
        Ok(())
    }

    fn scan(&mut self, from: &[u8], to: &[u8]) -> (r: Result<Vec<(Vec<u8>, Vec<u8>)>, Error>) {
        proof {
            self.lemma_unfold();
        }
        let mut out: Vec<(Vec<u8>, Vec<u8>)> = Vec::new();
        let ghost mut idx: Seq<int> = Seq::empty();
        let mut i: usize = 0;
        while i < self.items.len()
            invariant
                self.valid(),
                i <= self.items@.len(),
                idx.len() == out@.len(),
                forall|j: int|
                    0 <= j < out@.len() ==> 0 <= #[trigger] idx[j] < i && out@[j].0@
                        == self.items@[idx[j]].0@ && out@[j].1@ == self.items@[idx[j]].1@,
                forall|j: int| 0 <= j < out@.len() ==> in_range(#[trigger] out@[j].0@, from@, to@),
                forall|j1: int, j2: int| 0 <= j1 < j2 < out@.len() ==> #[trigger] idx[j1] < #[trigger] idx[j2],
                forall|q: int|
                    0 <= q < i && in_range(#[trigger] self.items@[q].0@, from@, to@) ==> exists|j: int|
                        0 <= j < out@.len() && #[trigger] out@[j].0@ == self.items@[q].0@,
            decreases self.items@.len() - i,
        {
            let k = &self.items[i].0;
            let lo = bytes_eq(from, k) || bytes_lt(from, k);
            let hi = bytes_eq(k, to) || bytes_lt(k, to);
            let ghost old_out = out@;
            if lo && hi {
                out.push((copy_bytes(k), copy_bytes(&self.items[i].1)));
                proof {
                    idx = idx.push(i as int);
                    assert(out@[out@.len() - 1].0@ == self.items@[i as int].0@);
                }
            }
            proof {
                assert forall|q: int|
                    0 <= q < i + 1 && in_range(#[trigger] self.items@[q].0@, from@, to@) implies exists|j: int|
                        0 <= j < out@.len() && #[trigger] out@[j].0@ == self.items@[q].0@ by {
                    if q < i {
                        let j = choose|j: int| 0 <= j < old_out.len() && #[trigger] old_out[j].0@ == self.items@[q].0@;
                        assert(out@[j] == old_out[j]);
                    } else {
                        assert(out@[out@.len() - 1].0@ == self.items@[q].0@);
                    }
                }
            }
            i = i + 1;
        }
        proof {
            assert forall|j1: int, j2: int| 0 <= j1 < j2 < out@.len() implies lex_lt(
                #[trigger] out@[j1].0@,
                #[trigger] out@[j2].0@,
            ) by {
                assert(idx[j1] < idx[j2]);
            }
            assert forall|k: Seq<u8>|
                #[trigger] self.store().contains_key(k) && in_range(k, from@, to@) implies exists|j: int|
                    0 <= j < out@.len() && #[trigger] out@[j].0@ == k by {
                let q = choose|q: int| 0 <= q < self.items@.len() && #[trigger] self.items@[q].0@ == k;
                assert(in_range(self.items@[q].0@, from@, to@));
            }
            assert forall|j: int| 0 <= j < out@.len() implies {
                &&& #[trigger] self.store().contains_key(out@[j].0@)
                &&& self.store()[out@[j].0@] == out@[j].1@
                &&& in_range(out@[j].0@, from@, to@)
            } by {
                assert(self.contents@.contains_key(self.items@[idx[j]].0@));
            }
        }
        let ghost found = out@;
        let r: Result<Vec<(Vec<u8>, Vec<u8>)>, Error> = Ok(out);
        proof {
            let v = r->Ok_0;
            assert(v@ == found);
            assert forall|k: Seq<u8>|
                #[trigger] old(self).store().contains_key(k) && in_range(k, from@, to@) implies exists|j: int|
                    0 <= j < v@.len() && #[trigger] v@[j].0@ == k by {
                let j = choose|j: int| 0 <= j < found.len() && #[trigger] found[j].0@ == k;
                assert(v@[j].0@ == k);
            }
        }
        r
    }

    fn status(&mut self) -> (r: Result<Status, Error>) {
        Ok(Status { name: String::from_str("memory"), keys: self.items.len() as u64 })
    }
}

} // verus!
