use vstd::prelude::*;

use crate::engine::{copy_bytes, in_range, lemma_lex_le_pointwise, lookup, Call, Engine, Error, Status};
use crate::entry::{
    commit_bytes, commit_of, decode_commit, decode_term_vote, encode_commit, encode_term_vote,
    entry_bytes, lemma_commit_round_trip, lemma_entry_round_trip,
    lemma_term_vote_round_trip, term_vote_bytes, term_vote_of, Entry, EntryView, NodeID, Term,
};
use crate::keycode::{entry_key, key_bytes, key_of, lemma_key_canonical, lemma_key_injective, Index, Key};

verus! {

/// The term of the entry at index `i` of `log`, or 0 for index 0.
pub open spec fn term_of(log: Seq<EntryView>, i: int) -> Term {
    if i == 0 {
        0
    } else {
        log[i - 1].term
    }
}

/// `s` holds exactly the entries of `log`, each under its index.
pub open spec fn stores_log(s: Map<Seq<u8>, Seq<u8>>, log: Seq<EntryView>) -> bool {
    &&& forall|i: u64| #[trigger] s.contains_key(entry_key(i)) <==> 1 <= i <= log.len()
    &&& forall|i: u64| 1 <= i <= log.len() ==> s[#[trigger] entry_key(i)] == entry_bytes(log[i - 1])
}

/// The Raft log invariants on a sequence of entries: indexes run from 1 with
/// no gaps, terms are positive, never decrease and never exceed `term`.
pub open spec fn log_ok(log: Seq<EntryView>, term: Term) -> bool {
    &&& log.len() <= u64::MAX
    &&& forall|k: int| 0 <= k < log.len() ==> (#[trigger] log[k]).index == k + 1 && 0 < log[k].term <= term
    &&& forall|a: int, b: int| 0 <= a < b < log.len() ==> (#[trigger] log[a]).term <= (#[trigger] log[b]).term
}

/// The term and vote that store `s` holds; `(0, None)` where it holds none.
pub open spec fn stored_term_vote(s: Map<Seq<u8>, Seq<u8>>) -> Option<(Term, Option<NodeID>)> {
    match lookup(s, key_bytes(Key::TermVote)) {
        None => Some((0, None)),
        Some(b) => term_vote_of(b),
    }
}

/// The commit index and term that store `s` holds; `(0, 0)` where it holds none.
pub open spec fn stored_commit(s: Map<Seq<u8>, Seq<u8>>) -> Option<(Index, Term)> {
    match lookup(s, key_bytes(Key::CommitIndex)) {
        None => Some((0, 0)),
        Some(b) => commit_of(b),
    }
}

/// Store `s` holds a well-formed log `log` with its term, vote and commit index.
pub open spec fn consistent(s: Map<Seq<u8>, Seq<u8>>, log: Seq<EntryView>) -> bool {
    &&& stores_log(s, log)
    &&& stored_term_vote(s) is Some
    &&& log_ok(log, stored_term_vote(s)->Some_0.0)
    &&& stored_commit(s) is Some
    &&& stored_commit(s)->Some_0.0 <= log.len()
    &&& stored_commit(s)->Some_0.1 == term_of(log, stored_commit(s)->Some_0.0 as int)
}

/// A log can be recovered from store `s`.
pub open spec fn recoverable(s: Map<Seq<u8>, Seq<u8>>) -> bool {
    exists|log: Seq<EntryView>| consistent(s, log)
}

/// An end of an index range.
#[derive(Clone, Copy, Debug, PartialEq, Eq, Structural)]
pub enum Bound {
    Included(Index),
    Excluded(Index),
    Unbounded,
}

/// The lowest index that a range starting at `from` takes in.
pub open spec fn bound_lo(from: Bound) -> int {
    match from {
        Bound::Included(i) => i as int,
        Bound::Excluded(i) => i + 1,
        Bound::Unbounded => 0,
    }
}

/// The highest index that a range ending at `to` takes in.
pub open spec fn bound_hi(to: Bound) -> int {
    match to {
        Bound::Included(i) => i as int,
        Bound::Excluded(i) => i - 1,
        Bound::Unbounded => u64::MAX as int,
    }
}

/// The entries of `log` whose indexes lie in `[lo, hi]`, in index order.
pub open spec fn entries_in(log: Seq<EntryView>, lo: int, hi: int) -> Seq<EntryView> {
    let a = if lo < 1 { 1 } else { lo };
    let b = if hi > log.len() { log.len() as int } else { hi };
    if a <= b {
        log.subrange(a - 1, b)
    } else {
        Seq::empty()
    }
}

/// Entries read from the log, in index order, followed by the error that
/// ended the read, if one did.
pub struct Iterator {
    entries: Vec<Entry>,
    error: Option<Error>,
    next: usize,
}

impl Iterator {
    /// The entries not yet handed out.
    pub closed spec fn rest(&self) -> Seq<EntryView> {
        views(self.entries@).subrange(self.next as int, self.entries@.len() as int)
    }

    /// The read failed; the error follows the entries.
    pub closed spec fn failed(&self) -> bool {
        self.error is Some
    }

    pub closed spec fn wf(&self) -> bool {
        self.next <= self.entries@.len()
    }

    pub(crate) fn new(entries: Vec<Entry>, error: Option<Error>) -> (r: Iterator)
        ensures
            r.wf(),
            r.rest() == views(entries@),
            r.failed() == (error is Some),
    {
        proof {
            assert(views(entries@).subrange(0, entries@.len() as int) =~= views(entries@));
        }
        Iterator { entries, error, next: 0 }
    }

    /// Hands out the next entry; after the last one the error, if any; then
    /// `None`.
    pub fn next(&mut self) -> (r: Option<Result<Entry, Error>>)
        requires
            old(self).wf(),
        ensures
            final(self).wf(),
            old(self).rest().len() > 0 ==> {
                &&& r matches Some(Ok(e)) && e@ == old(self).rest()[0]
                &&& final(self).rest() == old(self).rest().drop_first()
                &&& final(self).failed() == old(self).failed()
            },
            old(self).rest().len() == 0 && old(self).failed() ==> {
                &&& r matches Some(Err(_))
                &&& final(self).rest().len() == 0
                &&& !final(self).failed()
            },
            old(self).rest().len() == 0 && !old(self).failed() ==> r is None && final(self).rest().len()
                == 0 && !final(self).failed(),
    {
        if self.next < self.entries.len() {
            let e = copy_entry(&self.entries[self.next]);
            proof {
                assert(views(self.entries@)[self.next as int] == self.entries@[self.next as int]@);
            }
            self.next = self.next + 1;
            proof {
                assert(self.rest() =~= old(self).rest().drop_first());
            }
            Some(Ok(e))
        } else {
            match self.error.take() {
                Some(err) => Some(Err(err)),
                None => None,
            }
        }
    }
}

/// Copies an entry.
fn copy_entry(e: &Entry) -> (r: Entry)
    ensures
        r@ == e@,
{
    let command = match &e.command {
        Some(c) => Some(copy_bytes(c.as_slice())),
        None => None,
    };
    Entry { index: e.index, term: e.term, command }
}

/// An empty store holds the empty log, so a log can be opened on it.
pub proof fn lemma_empty_recoverable()
    ensures
        recoverable(Map::<Seq<u8>, Seq<u8>>::empty()),
        consistent(Map::<Seq<u8>, Seq<u8>>::empty(), Seq::<EntryView>::empty()),
        stored_term_vote(Map::<Seq<u8>, Seq<u8>>::empty()) == Some((0u64, None::<NodeID>)),
        stored_commit(Map::<Seq<u8>, Seq<u8>>::empty()) == Some((0u64, 0u64)),
{
    assert(consistent(Map::<Seq<u8>, Seq<u8>>::empty(), Seq::<EntryView>::empty()));
}

/// The Raft log: a sequence of commands replicated across nodes and applied
/// in order to the local state machine, kept in a storage engine together
/// with the current term, the vote and the commit index. A small cache of
/// that state is held in memory.
pub struct Log<E: Engine> {
    /// The underlying storage engine.
    pub engine: E,
    /// The current term.
    term: Term,
    /// Our vote in the current term, if any.
    vote: Option<NodeID>,
    /// The index of the last stored entry.
    last_index: Index,
    /// The term of the last stored entry.
    last_term: Term,
    /// The index of the last committed entry.
    commit_index: Index,
    /// The term of the last committed entry.
    commit_term: Term,
    /// Whether appended and spliced entries are flushed to durable storage.
    fsync: bool,
    /// The entries, the one at index `i` at position `i - 1`.
    log: Ghost<Seq<EntryView>>,
}

impl<E: Engine> Log<E> {
    /// The entries of the log, the one at index `i` at position `i - 1`.
    pub closed spec fn entries(&self) -> Seq<EntryView> {
        self.log@
    }

    /// What the engine holds.
    pub closed spec fn store(&self) -> Map<Seq<u8>, Seq<u8>> {
        self.engine.store()
    }

    /// Every write to the engine so far is durable.
    pub closed spec fn synced(&self) -> bool {
        self.engine.synced()
    }

    /// The calls that changed the engine so far.
    pub closed spec fn calls(&self) -> Seq<Call> {
        self.engine.calls()
    }

    /// Gives the engine back, to reopen the log on it later.
    pub fn into_engine(self) -> (e: E)
        ensures
            e.store() == self.store(),
            e.calls() == self.calls(),
            e.synced() == self.synced(),
            self.wf() ==> e.valid() && recoverable(e.store()),
    {
        self.engine
    }

    pub closed spec fn term(&self) -> Term {
        self.term
    }

    pub closed spec fn vote(&self) -> Option<NodeID> {
        self.vote
    }

    pub closed spec fn last_index(&self) -> Index {
        self.last_index
    }

    pub closed spec fn last_term(&self) -> Term {
        self.last_term
    }

    pub closed spec fn commit_index(&self) -> Index {
        self.commit_index
    }

    pub closed spec fn commit_term(&self) -> Term {
        self.commit_term
    }

    pub closed spec fn fsync(&self) -> bool {
        self.fsync
    }

    /// The log is well-formed: the store holds the entries and metadata, and
    /// the cache agrees with it.
    pub closed spec fn wf(&self) -> bool {
        &&& self.engine.valid()
        &&& consistent(self.engine.store(), self.log@)
        &&& self.last_index == self.log@.len()
        &&& self.last_term == term_of(self.log@, self.last_index as int)
        &&& stored_term_vote(self.engine.store()) == Some((self.term, self.vote))
        &&& stored_commit(self.engine.store()) == Some((self.commit_index, self.commit_term))
    }

    /// The cached state of `self` and `other` agree.
    pub open spec fn same_cache(&self, other: &Self) -> bool {
        &&& self.term() == other.term()
        &&& self.vote() == other.vote()
        &&& self.last_index() == other.last_index()
        &&& self.last_term() == other.last_term()
        &&& self.commit_index() == other.commit_index()
        &&& self.commit_term() == other.commit_term()
        &&& self.fsync() == other.fsync()
    }

    /// Facts of a well-formed log that callers rely on.
    pub proof fn lemma_wf(&self)
        requires
            self.wf(),
        ensures
            self.last_index() == self.entries().len(),
            self.last_term() == term_of(self.entries(), self.last_index() as int),
            self.commit_index() <= self.last_index(),
            self.commit_term() == term_of(self.entries(), self.commit_index() as int),
            log_ok(self.entries(), self.term()),
            consistent(self.store(), self.entries()),
            stored_term_vote(self.store()) == Some((self.term(), self.vote())),
            stored_commit(self.store()) == Some((self.commit_index(), self.commit_term())),
            recoverable(self.store()),
    {
    }

    /// Initializes a log from the given storage engine, recovering the
    /// current term and vote, the last entry and the commit index from it.
    /// The engine must be empty or hold what a well-formed log left there;
    /// beyond finding the last entry, no integrity scan is made.
    pub fn new(engine: E) -> (r: Result<Self, Error>)
        requires
            engine.valid(),
            recoverable(engine.store()),
        ensures
            r matches Ok(log) ==> {
                &&& log.wf()
                &&& log.store() == engine.store()
                &&& log.calls() == engine.calls()
                &&& log.synced() == engine.synced()
                &&& log.fsync()
                &&& consistent(engine.store(), log.entries())
                &&& stored_term_vote(engine.store()) == Some((log.term(), log.vote()))
                &&& stored_commit(engine.store()) == Some((log.commit_index(), log.commit_term()))
                &&& log.last_index() == log.entries().len()
                &&& log.last_term() == term_of(log.entries(), log.last_index() as int)
                &&& engine.store() == Map::<Seq<u8>, Seq<u8>>::empty() ==> log.entries().len() == 0
            },
    {
        let ghost s = engine.store();
        let ghost c = engine.calls();
        let ghost old_synced = engine.synced();
        let ghost log = choose|log: Seq<EntryView>| consistent(s, log);
        proof {
            if log.len() > 0 {
                assert(s.contains_key(entry_key(log.len() as u64)));
            }
        }
        let mut engine = engine;
        let tv_key = Key::TermVote.encode();
        let (term, vote) = match engine.get(tv_key.as_slice()) {
            Err(e) => return Err(e),
            Ok(None) => (0u64, None),
            Ok(Some(b)) => match decode_term_vote(b.as_slice()) {
                Some(tv) => tv,
                None => return Err(Error::InvalidData(String::from_str("invalid term and vote"))),
            },
        };
        let from = Key::Entry(0).encode();
        let to = Key::Entry(u64::MAX).encode();
        let items = match engine.scan(from.as_slice(), to.as_slice()) {
            Err(e) => return Err(e),
            Ok(items) => items,
        };
        // The entry with the highest index in the scan is the last one.
        let mut best: Option<usize> = None;
        let mut best_index: u64 = 0;
        let mut j: usize = 0;
        while j < items.len()
            invariant
                engine.valid(),
                engine.store() == s,
                engine.calls() == c,
                engine.synced() == old_synced,
                consistent(s, log),
                s == Map::<Seq<u8>, Seq<u8>>::empty() ==> log.len() == 0,
                j <= items@.len(),
                forall|q: int| 0 <= q < items@.len() ==> #[trigger] s.contains_key(items@[q].0@) && s[items@[q].0@] == items@[q].1@,
                forall|k: Seq<u8>|
                    #[trigger] s.contains_key(k) && in_range(k, from@, to@) ==> exists|q: int|
                        0 <= q < items@.len() && #[trigger] items@[q].0@ == k,
                best is None ==> best_index == 0,
                best matches Some(b) ==> b < j && key_of(items@[b as int].0@) == Some(Key::Entry(best_index)),
                forall|q: int| 0 <= q < j ==> (#[trigger] key_of(items@[q].0@) matches Some(Key::Entry(i)) ==> i <= best_index),
            decreases items@.len() - j,
        {
            if let Some(Key::Entry(i)) = Key::decode(items[j].0.as_slice()) {
                if best.is_none() || i > best_index {
                    best = Some(j);
                    best_index = i;
                }
            }
            j = j + 1;
        }
        let (last_index, last_term) = match best {
            None => (0u64, 0u64),
            Some(b) => match Entry::decode(items[b].1.as_slice()) {
                Some(e) => (e.index, e.term),
                None => return Err(Error::InvalidData(String::from_str("invalid entry"))),
            },
        };
        let ci_key = Key::CommitIndex.encode();
        let (commit_index, commit_term) = match engine.get(ci_key.as_slice()) {
            Err(e) => return Err(e),
            Ok(None) => (0u64, 0u64),
            Ok(Some(b)) => match decode_commit(b.as_slice()) {
                Some(c) => c,
                None => return Err(Error::InvalidData(String::from_str("invalid commit index"))),
            },
        };
        proof {
            let n = log.len();
            if let Some(b) = best {
                lemma_key_canonical(items@[b as int].0@);
                assert(entry_key(best_index) == items@[b as int].0@);
                assert(s.contains_key(items@[b as int].0@));
                assert(s.contains_key(entry_key(best_index)));
                assert(1 <= best_index <= n);
                lemma_entry_round_trip(log[best_index - 1]);
            }
            if n > 0 {
                let nk = entry_key(n as u64);
                assert(s.contains_key(nk));
                lemma_entry_key_in_scan(n as u64);
                assert(in_range(nk, from@, to@));
                let q = choose|q: int| 0 <= q < items@.len() && #[trigger] items@[q].0@ == nk;
                crate::keycode::lemma_key_round_trip(Key::Entry(n as u64));
                assert(key_of(items@[q].0@) == Some(Key::Entry(n as u64)));
                assert(best is Some);
                assert(best_index == n);
                assert(items@[best->Some_0 as int].1@ == entry_bytes(log[n - 1]));
            }
        }
        Ok(Log {
            engine,
            term,
            vote,
            last_index,
            last_term,
            commit_index,
            commit_term,
            fsync: true,
            log: Ghost(log),
        })
    }
}

impl<E: Engine> Log<E> {
    /// Controls whether appended and spliced entries are flushed. Turning it
    /// off may lose acknowledged entries on a crash.
    pub fn enable_fsync(&mut self, fsync: bool)
        ensures
            final(self).fsync() == fsync,
            final(self).term() == old(self).term(),
            final(self).vote() == old(self).vote(),
            final(self).last_index() == old(self).last_index(),
            final(self).last_term() == old(self).last_term(),
            final(self).commit_index() == old(self).commit_index(),
            final(self).commit_term() == old(self).commit_term(),
            final(self).entries() == old(self).entries(),
            final(self).store() == old(self).store(),
            final(self).synced() == old(self).synced(),
            final(self).calls() == old(self).calls(),
            old(self).wf() ==> final(self).wf(),
    {
        self.fsync = fsync;
    }

    /// Returns the commit index and term.
    pub fn get_commit_index(&self) -> (r: (Index, Term))
        ensures
            r == (self.commit_index(), self.commit_term()),
    {
        (self.commit_index, self.commit_term)
    }

    /// Returns the last log index and term.
    pub fn get_last_index(&self) -> (r: (Index, Term))
        ensures
            r == (self.last_index(), self.last_term()),
    {
        (self.last_index, self.last_term)
    }

    /// Returns the current term (0 if none) and vote.
    pub fn get_term_vote(&self) -> (r: (Term, Option<NodeID>))
        ensures
            r == (self.term(), self.vote()),
    {
        (self.term, self.vote)
    }

    /// Stores the current term and vote, and always flushes them: a lost vote
    /// could let this node vote twice in a term. The term never regresses, and
    /// within a term the vote may only go from none to some node.
    pub fn set_term_vote(&mut self, term: Term, vote: Option<NodeID>) -> (r: Result<(), Error>)
        requires
            old(self).wf(),
            term > 0,
            term >= old(self).term(),
            term > old(self).term() || old(self).vote() is None || vote == old(self).vote(),
        ensures
            r is Ok ==> {
                &&& final(self).wf()
                &&& final(self).term() == term
                &&& final(self).vote() == vote
                &&& final(self).entries() == old(self).entries()
                &&& final(self).last_index() == old(self).last_index()
                &&& final(self).last_term() == old(self).last_term()
                &&& final(self).commit_index() == old(self).commit_index()
                &&& final(self).commit_term() == old(self).commit_term()
                &&& final(self).fsync() == old(self).fsync()
            },
            r is Ok && (term, vote) != (old(self).term(), old(self).vote()) ==> final(self).synced(),
            (term, vote) == (old(self).term(), old(self).vote()) ==> {
                &&& r is Ok
                &&& final(self).store() == old(self).store()
                &&& final(self).calls() == old(self).calls()
                &&& final(self).same_cache(old(self))
                &&& final(self).entries() == old(self).entries()
            },
            r is Ok && (term, vote) != (old(self).term(), old(self).vote()) ==> final(self).calls()
                == old(self).calls().push(Call::Put(key_bytes(Key::TermVote), term_vote_bytes(term, vote))).push(
                Call::Flush,
            ),
            r is Err ==> final(self).same_cache(old(self)),
    {
        if term == self.term && vote == self.vote {
            return Ok(());
        }
        let key = Key::TermVote.encode();
        let value = encode_term_vote(term, vote);
        let ghost s = self.engine.store();
        match self.engine.set(key.as_slice(), value) {
            Err(e) => return Err(e),
            Ok(()) => {},
        }
        proof {
            lemma_keys_distinct();
            lemma_term_vote_round_trip(term, vote);
            lemma_set_other_key(s, self.log@, key@, term_vote_bytes(term, vote));
        }
        match self.engine.flush() {
            Err(e) => return Err(e),
            Ok(()) => {},
        }
        self.term = term;
        self.vote = vote;
        Ok(())
    }

    /// Appends a command at the current term and returns its index. The
    /// entry is flushed when fsync is on. `None` is a no-op command, which a
    /// new leader appends.
    pub fn append(&mut self, command: Option<Vec<u8>>) -> (r: Result<Index, Error>)
        requires
            old(self).wf(),
            old(self).term() > 0,
            old(self).last_index() < u64::MAX,
        ensures
            r matches Ok(i) ==> {
                &&& final(self).wf()
                &&& i == old(self).last_index() + 1
                &&& final(self).entries() == old(self).entries().push(
                    EntryView { index: i, term: old(self).term(), command: crate::entry::opt_bytes_view(command) },
                )
                &&& final(self).last_index() == i
                &&& final(self).last_term() == old(self).term()
                &&& final(self).term() == old(self).term()
                &&& final(self).vote() == old(self).vote()
                &&& final(self).commit_index() == old(self).commit_index()
                &&& final(self).commit_term() == old(self).commit_term()
                &&& final(self).fsync() == old(self).fsync()
                &&& old(self).fsync() ==> final(self).synced()
                &&& final(self).calls() == old(self).calls().push(
                    Call::Put(
                        entry_key(i),
                        entry_bytes(EntryView { index: i, term: old(self).term(), command: crate::entry::opt_bytes_view(command) }),
                    ),
                ) + flush_calls(old(self).fsync())
            },
            r is Err ==> final(self).same_cache(old(self)),
    {
        let entry = Entry { index: self.last_index + 1, term: self.term, command };
        let key = Key::Entry(entry.index).encode();
        let value = entry.encode();
        let ghost s = self.engine.store();
        let ghost e = entry@;
        let ghost c0 = self.engine.calls();
        match self.engine.set(key.as_slice(), value) {
            Err(err) => return Err(err),
            Ok(()) => {},
        }
        proof {
            lemma_keys_distinct();
            lemma_store_insert_entry(s, self.log@, e);
        }
        if self.fsync {
            match self.engine.flush() {
                Err(err) => return Err(err),
                Ok(()) => {},
            }
        }
        proof {
            if self.fsync {
                assert(self.engine.calls() =~= c0.push(Call::Put(entry_key(e.index), entry_bytes(e))) + flush_calls(true));
            } else {
                assert(self.engine.calls() =~= c0.push(Call::Put(entry_key(e.index), entry_bytes(e))) + flush_calls(false));
            }
        }
        self.last_index = entry.index;
        self.last_term = entry.term;
        self.log = Ghost(self.log@.push(e));
        Ok(entry.index)
    }

    /// Commits entries up to and including `index`, which must exist and not
    /// lie below the commit index. The commit index is not flushed: it can be
    /// recovered from a quorum.
    pub fn commit(&mut self, index: Index) -> (r: Result<Index, Error>)
        requires
            old(self).wf(),
            1 <= index <= old(self).last_index(),
            index >= old(self).commit_index(),
        ensures
            r matches Ok(i) ==> {
                &&& final(self).wf()
                &&& i == index
                &&& final(self).commit_index() == index
                &&& final(self).commit_term() == term_of(old(self).entries(), index as int)
                &&& final(self).entries() == old(self).entries()
                &&& final(self).term() == old(self).term()
                &&& final(self).vote() == old(self).vote()
                &&& final(self).last_index() == old(self).last_index()
                &&& final(self).last_term() == old(self).last_term()
                &&& final(self).fsync() == old(self).fsync()
            },
            r is Ok && index == old(self).commit_index() ==> {
                &&& final(self).store() == old(self).store()
                &&& final(self).calls() == old(self).calls()
            },
            r is Ok && index > old(self).commit_index() ==> final(self).calls() == old(self).calls().push(
                Call::Put(key_bytes(Key::CommitIndex), commit_bytes(index, term_of(old(self).entries(), index as int))),
            ),
            r is Err ==> final(self).same_cache(old(self)),
    {
        let entry = match self.get(index) {
            Err(e) => return Err(e),
            Ok(o) => o.unwrap(),
        };
        if entry.index == self.commit_index {
            return Ok(index);
        }
        let term = entry.term;
        let key = Key::CommitIndex.encode();
        let value = encode_commit(index, term);
        let ghost s = self.engine.store();
        match self.engine.set(key.as_slice(), value) {
            Err(e) => return Err(e),
            Ok(()) => {},
        }
        proof {
            lemma_keys_distinct();
            lemma_commit_round_trip(index, term);
            lemma_set_other_key(s, self.log@, key@, commit_bytes(index, term));
        }
        self.commit_index = index;
        self.commit_term = term;
        Ok(index)
    }

    /// Fetches the entry at `index`, or `None` if there is none.
    pub fn get(&mut self, index: Index) -> (r: Result<Option<Entry>, Error>)
        requires
            old(self).wf(),
        ensures
            final(self).wf(),
            final(self).same_cache(old(self)),
            final(self).entries() == old(self).entries(),
            final(self).store() == old(self).store(),
            final(self).synced() == old(self).synced(),
            final(self).calls() == old(self).calls(),
            r matches Ok(o) ==> (o is Some <==> 1 <= index <= old(self).last_index()),
            r matches Ok(Some(e)) ==> e@ == old(self).entries()[index - 1],
    {
        let key = Key::Entry(index).encode();
        proof {
            assert(key@ == entry_key(index));
            assert(self.engine.store().contains_key(entry_key(index)) <==> 1 <= index <= self.log@.len());
        }
        match self.engine.get(key.as_slice()) {
            Err(e) => Err(e),
            Ok(None) => Ok(None),
            Ok(Some(b)) => {
                proof {
                    assert(1 <= index <= self.log@.len());
                    assert(b@ == entry_bytes(self.log@[index - 1]));
                    lemma_entry_round_trip(self.log@[index - 1]);
                }
                match Entry::decode(b.as_slice()) {
                    Some(e) => Ok(Some(e)),
                    None => Err(Error::InvalidData(String::from_str("invalid entry"))),
                }
            },
        }
    }

    /// Checks whether the log holds an entry with this index and term.
    pub fn has(&mut self, index: Index, term: Term) -> (r: Result<bool, Error>)
        requires
            old(self).wf(),
        ensures
            final(self).wf(),
            final(self).same_cache(old(self)),
            final(self).entries() == old(self).entries(),
            final(self).store() == old(self).store(),
            final(self).synced() == old(self).synced(),
            final(self).calls() == old(self).calls(),
            r matches Ok(b) ==> b == (1 <= index <= old(self).last_index() && old(
                self,
            ).entries()[index - 1].term == term),
            index == 0 || index > old(self).last_index() ==> r == Ok::<bool, Error>(false),
            index >= 1 && index == old(self).last_index() && term == old(self).last_term() ==> r
                == Ok::<bool, Error>(true),
    {
        if index == 0 || index > self.last_index {
            return Ok(false);
        }
        if index == self.last_index && term == self.last_term {
            return Ok(true);
        }
        match self.get(index) {
            Err(e) => Err(e),
            Ok(Some(e)) => Ok(e.term == term),
            Ok(None) => Ok(false),
        }
    }

    /// Splices entries received from a leader into the log and returns the
    /// last index. Entries the log already holds are skipped; at the first
    /// entry whose term differs from the stored one, the log is cut and the
    /// rest written, and any stored entries past the batch are removed. The
    /// writes are flushed when fsync is on.
    pub fn splice(&mut self, entries: Vec<Entry>) -> (r: Result<Index, Error>)
        requires
            old(self).wf(),
            batch_ok(old(self).entries(), views(entries@), old(self).term()),
            splice_allowed(old(self).entries(), views(entries@), old(self).commit_index()),
        ensures
            r matches Ok(i) ==> {
                &&& final(self).wf()
                &&& final(self).entries() == splice_result(old(self).entries(), views(entries@))
                &&& i == final(self).last_index()
                &&& final(self).term() == old(self).term()
                &&& final(self).vote() == old(self).vote()
                &&& final(self).commit_index() == old(self).commit_index()
                &&& final(self).commit_term() == old(self).commit_term()
                &&& final(self).fsync() == old(self).fsync()
            },
            is_matched_prefix(old(self).entries(), views(entries@), entries@.len() as int) ==> (r is Ok
                ==> {
                &&& r == Ok::<Index, Error>(old(self).last_index())
                &&& final(self).store() == old(self).store()
                &&& final(self).calls() == old(self).calls()
                &&& final(self).same_cache(old(self))
            }),
            entries@.len() == 0 ==> {
                &&& r == Ok::<Index, Error>(old(self).last_index())
                &&& final(self).store() == old(self).store()
                &&& final(self).calls() == old(self).calls()
                &&& final(self).same_cache(old(self))
                &&& final(self).entries() == old(self).entries()
            },
            r is Ok && !is_matched_prefix(old(self).entries(), views(entries@), entries@.len() as int)
                ==> exists|k: int|
                is_matched_prefix(old(self).entries(), views(entries@), k) && final(self).calls() == old(
                    self,
                ).calls() + put_calls(views(entries@).subrange(k, entries@.len() as int)) + delete_calls(
                    views(entries@).last().index as int,
                    old(self).last_index() as int,
                ) + flush_calls(old(self).fsync()),
            r is Ok && !is_matched_prefix(old(self).entries(), views(entries@), entries@.len() as int)
                && old(self).fsync() ==> final(self).synced(),
            r is Err ==> final(self).same_cache(old(self)),
    {
        let ghost es = views(entries@);
        let ghost log0 = self.log@;
        let ghost s0 = self.engine.store();
        let n = entries.len();
        if n == 0 {
            proof {
                assert(is_matched_prefix(log0, es, 0));
            }
            return Ok(self.last_index);
        }
        let first = entries[0].index;
        let last = entries[n - 1].index;
        let last_term = entries[n - 1].term;
        proof {
            assert(es[0] == entries@[0]@);
            assert(es[n - 1] == entries@[n - 1]@);
        }
        // Skip the entries that the log already holds.
        let mut k: usize = 0;
        let mut conflict = false;
        while k < n && !conflict && entries[k].index <= self.last_index
            invariant
                self.wf(),
                self.log@ == log0,
                self.engine.store() == s0,
                self.engine.calls() == old(self).engine.calls(),
                self.same_cache(old(self)),
                es == views(entries@),
                n == entries@.len(),
                n > 0,
                batch_ok(log0, es, self.term),
                k <= n,
                forall|q: int| 0 <= q < k ==> matches_at(log0, #[trigger] es[q]),
                conflict ==> k < n && !matches_at(log0, es[k as int]),
            decreases n - k + (if conflict { 0int } else { 1int }),
        {
            proof {
                assert(es[k as int] == entries@[k as int]@);
            }
            let existing = match self.get(entries[k].index) {
                Err(e) => return Err(e),
                Ok(o) => o.unwrap(),
            };
            if existing.term != entries[k].term {
                conflict = true;
            } else {
                k = k + 1;
            }
        }
        proof {
            if k < n && !conflict {
                assert(es[k as int] == entries@[k as int]@);
            }
            assert(is_matched_prefix(log0, es, k as int));
        }
        if k == n {
            return Ok(self.last_index);
        }
        // Write the entries the log does not hold yet.
        let mut j: usize = k;
        while j < n
            invariant
                self.engine.valid(),
                self.log@ == log0,
                self.same_cache(old(self)),
                es == views(entries@),
                n == entries@.len(),
                batch_ok(log0, es, self.term),
                k <= j <= n,
                n > 0,
                k < n,
                is_matched_prefix(log0, es, k as int),
                first == es[0].index,
                self.engine.calls() == old(self).engine.calls() + put_calls(es.subrange(k as int, j as int)),
                forall|i: u64|
                    #[trigger] lookup(self.engine.store(), entry_key(i)) == if first + k <= i < first + j {
                        Some(entry_bytes(es[i - first]))
                    } else {
                        lookup(s0, entry_key(i))
                    },
                lookup(self.engine.store(), key_bytes(Key::TermVote)) == lookup(s0, key_bytes(Key::TermVote)),
                lookup(self.engine.store(), key_bytes(Key::CommitIndex)) == lookup(s0, key_bytes(Key::CommitIndex)),
            decreases n - j,
        {
            proof {
                assert(es[j as int] == entries@[j as int]@);
                lemma_keys_distinct();
            }
            let key = Key::Entry(entries[j].index).encode();
            let value = entries[j].encode();
            let ghost prev = self.engine.store();
            let ghost prev_calls = self.engine.calls();
            match self.engine.set(key.as_slice(), value) {
                Err(e) => return Err(e),
                Ok(()) => {},
            }
            proof {
                assert(key@ == entry_key(es[j as int].index));
                assert(put_calls(es.subrange(k as int, j + 1)) =~= put_calls(es.subrange(k as int, j as int)).push(
                    Call::Put(entry_key(es[j as int].index), entry_bytes(es[j as int])),
                ));
                assert(es[j as int].index == first + j);
                assert forall|i: u64|
                    #[trigger] lookup(self.engine.store(), entry_key(i)) == if first + k <= i < first + j + 1 {
                        Some(entry_bytes(es[i - first]))
                    } else {
                        lookup(s0, entry_key(i))
                    } by {
                    assert(key@ == entry_key(entries@[j as int].index));
                    if i != first + j {
                        assert(entry_key(i) != key@);
                        assert(lookup(self.engine.store(), entry_key(i)) == lookup(prev, entry_key(i)));
                    }
                }
            }
            j = j + 1;
        }
        // Remove the stored entries past the batch.
        let ghost s1 = self.engine.store();
        let ghost c1 = self.engine.calls();
        let mut d: u64 = last;
        while d < self.last_index
            invariant
                self.engine.valid(),
                self.log@ == log0,
                self.same_cache(old(self)),
                last <= d,
                d <= self.last_index || d == last,
                entries@.len() > 0,
                self.engine.calls() == c1 + delete_calls(last as int, d as int),
                forall|i: u64|
                    #[trigger] lookup(self.engine.store(), entry_key(i)) == if last < i <= d {
                        None
                    } else {
                        lookup(s1, entry_key(i))
                    },
                lookup(self.engine.store(), key_bytes(Key::TermVote)) == lookup(s1, key_bytes(Key::TermVote)),
                lookup(self.engine.store(), key_bytes(Key::CommitIndex)) == lookup(s1, key_bytes(Key::CommitIndex)),
            decreases self.last_index - d,
        {
            d = d + 1;
            proof {
                lemma_keys_distinct();
            }
            let key = Key::Entry(d).encode();
            let ghost prev = self.engine.store();
            proof {
                assert(delete_calls(last as int, d as int) =~= delete_calls(last as int, d - 1).push(
                    Call::Delete(entry_key(d)),
                ));
            }
            match self.engine.delete(key.as_slice()) {
                Err(e) => return Err(e),
                Ok(()) => {},
            }
            proof {
                assert forall|i: u64|
                    #[trigger] lookup(self.engine.store(), entry_key(i)) == if last < i <= d {
                        None
                    } else {
                        lookup(s1, entry_key(i))
                    } by {
                    assert(key@ == entry_key(d));
                    if i != d {
                        assert(entry_key(i) != key@);
                        assert(lookup(self.engine.store(), entry_key(i)) == lookup(prev, entry_key(i)));
                    }
                }
            }
        }
        if self.fsync {
            match self.engine.flush() {
                Err(e) => return Err(e),
                Ok(()) => {},
            }
        }
        proof {
            lemma_splice_store(s0, self.engine.store(), log0, es, k as int, self.term, self.commit_index);
            assert(es.last().index == last);
            assert(self.engine.calls() == old(self).engine.calls() + put_calls(es.subrange(k as int, n as int))
                + delete_calls(last as int, old(self).last_index as int) + flush_calls(self.fsync)) by {
                if self.fsync {
                } else {
                    assert(c1 + delete_calls(last as int, old(self).last_index as int) + flush_calls(false)
                        =~= c1 + delete_calls(last as int, old(self).last_index as int));
                }
            }
            assert(!is_matched_prefix(log0, es, n as int));
        }
        self.last_index = last;
        self.last_term = last_term;
        self.log = Ghost(splice_result(log0, es));
        Ok(self.last_index)
    }

    /// Returns the entries whose indexes lie in the range from `from` to
    /// `to`, in index order. A read error ends the entries.
    pub fn scan(&mut self, from: Bound, to: Bound) -> (r: Iterator)
        requires
            old(self).wf(),
        ensures
            final(self).wf(),
            final(self).same_cache(old(self)),
            final(self).entries() == old(self).entries(),
            final(self).store() == old(self).store(),
            final(self).synced() == old(self).synced(),
            final(self).calls() == old(self).calls(),
            r.wf(),
            !r.failed() ==> r.rest() == entries_in(old(self).entries(), bound_lo(from), bound_hi(to)),
            r.failed() ==> r.rest().is_prefix_of(entries_in(old(self).entries(), bound_lo(from), bound_hi(to))),
            entries_in(old(self).entries(), bound_lo(from), bound_hi(to)).len() == 0 ==> !r.failed(),
    {
        let ghost want = entries_in(self.log@, bound_lo(from), bound_hi(to));
        let mut out: Vec<Entry> = Vec::new();
        let lo: u64 = match from {
            Bound::Included(i) => if i == 0 { 1 } else { i },
            Bound::Excluded(i) => if i == u64::MAX {
                return Iterator::new(out, None);
            } else {
                i + 1
            },
            Bound::Unbounded => 1,
        };
        let hi: u64 = match to {
            Bound::Included(i) => if i > self.last_index { self.last_index } else { i },
            Bound::Excluded(i) => if i == 0 {
                return Iterator::new(out, None);
            } else if i - 1 > self.last_index {
                self.last_index
            } else {
                i - 1
            },
            Bound::Unbounded => self.last_index,
        };
        if lo > hi {
            proof {
                assert(want =~= Seq::<EntryView>::empty());
                assert(views(out@) =~= Seq::<EntryView>::empty());
            }
            return Iterator::new(out, None);
        }
        let count: u64 = hi - lo + 1;
        let mut pos: u64 = 0;
        proof {
            assert(want =~= self.log@.subrange(lo - 1, hi as int));
        }
        while pos < count
            invariant
                self.wf(),
                self.same_cache(old(self)),
                self.log@ == old(self).log@,
                self.engine.store() == old(self).engine.store(),
                self.engine.synced() == old(self).engine.synced(),
                self.engine.calls() == old(self).engine.calls(),
                1 <= lo <= hi <= self.last_index,
                count == hi - lo + 1,
                pos <= count,
                want == self.log@.subrange(lo - 1, hi as int),
                want == entries_in(old(self).log@, bound_lo(from), bound_hi(to)),
                views(out@) == want.subrange(0, pos as int),
            decreases count - pos,
        {
            match self.get(lo + pos) {
                Err(e) => {
                    proof {
                        assert(want.len() == count);
                        assert(views(out@).is_prefix_of(want));
                    }
                    let it = Iterator::new(out, Some(e));
                    proof {
                        assert(it.rest().is_prefix_of(want));
                        assert(want == entries_in(old(self).entries(), bound_lo(from), bound_hi(to)));
                    }
                    return it;
                },
                Ok(o) => {
                    let e = o.unwrap();
                    let ghost before = out@;
                    out.push(e);
                    pos = pos + 1;
                    proof {
                        assert(out@ == before.push(e));
                        assert(views(out@) =~= views(before).push(e@));
                        assert(e@ == want[pos - 1]);
                        assert(views(out@) =~= want.subrange(0, pos as int));
                    }
                },
            }
        }
        proof {
            assert(want.subrange(0, count as int) =~= want);
        }
        Iterator::new(out, None)
    }

    /// Returns the committed entries after `applied_index`, to be applied to
    /// the state machine.
    pub fn scan_apply(&mut self, applied_index: Index) -> (r: Iterator)
        requires
            old(self).wf(),
        ensures
            final(self).wf(),
            final(self).same_cache(old(self)),
            final(self).entries() == old(self).entries(),
            final(self).store() == old(self).store(),
            final(self).synced() == old(self).synced(),
            final(self).calls() == old(self).calls(),
            r.wf(),
            !r.failed() ==> r.rest() == entries_in(
                old(self).entries(),
                applied_index + 1,
                old(self).commit_index() as int,
            ),
            r.failed() ==> r.rest().is_prefix_of(
                entries_in(old(self).entries(), applied_index + 1, old(self).commit_index() as int),
            ),
            applied_index >= old(self).commit_index() ==> !r.failed() && r.rest().len() == 0,
    {
        if applied_index >= self.commit_index {
            let ghost want = entries_in(self.log@, applied_index + 1, self.commit_index as int);
            let none: Vec<Entry> = Vec::new();
            proof {
                assert(want =~= Seq::<EntryView>::empty());
                assert(views(none@) =~= Seq::<EntryView>::empty());
            }
            return Iterator::new(none, None);
        }
        self.scan(Bound::Included(applied_index + 1), Bound::Included(self.commit_index))
    }

    /// Returns the engine's status.
    pub fn status(&mut self) -> (r: Result<Status, Error>)
        requires
            old(self).wf(),
        ensures
            final(self).wf(),
            final(self).same_cache(old(self)),
            final(self).entries() == old(self).entries(),
            final(self).store() == old(self).store(),
            final(self).synced() == old(self).synced(),
            final(self).calls() == old(self).calls(),
    {
        self.engine.status()
    }
}

/// The calls that write `es`, one per entry, in order.
pub open spec fn put_calls(es: Seq<EntryView>) -> Seq<Call> {
    es.map_values(|e: EntryView| Call::Put(entry_key(e.index), entry_bytes(e)))
}

/// The calls that remove the entries with indexes in `(from, to]`, in order.
pub open spec fn delete_calls(from: int, to: int) -> Seq<Call> {
    if from < to {
        Seq::new((to - from) as nat, |j: int| Call::Delete(entry_key((from + 1 + j) as u64)))
    } else {
        Seq::empty()
    }
}

/// A flush call where `fsync` is on, else nothing.
pub open spec fn flush_calls(fsync: bool) -> Seq<Call> {
    if fsync {
        seq![Call::Flush]
    } else {
        Seq::empty()
    }
}

/// The mathematical values of a batch of entries.
pub open spec fn views(es: Seq<Entry>) -> Seq<EntryView> {
    es.map_values(|e: Entry| e@)
}

/// A batch that may be spliced into `log` at current term `term`: indexes
/// run on without gaps from a positive first index that touches the log,
/// terms are positive, never decrease, do not fall below the term of the
/// entry before the first, and do not exceed `term`.
pub open spec fn batch_ok(log: Seq<EntryView>, es: Seq<EntryView>, term: Term) -> bool {
    es.len() > 0 ==> {
        &&& 0 < es[0].index <= log.len() + 1
        &&& es[0].term > 0
        &&& forall|k: int| 0 <= k < es.len() ==> (#[trigger] es[k]).index == es[0].index + k
        &&& forall|a: int, b: int| 0 <= a < b < es.len() ==> (#[trigger] es[a]).term <= (#[trigger] es[b]).term
        &&& es.last().term <= term
        &&& es[0].index > 1 ==> log[es[0].index - 2].term <= es[0].term
    }
}

/// `log` holds an entry with the index and term of `e`.
pub open spec fn matches_at(log: Seq<EntryView>, e: EntryView) -> bool {
    1 <= e.index <= log.len() && log[e.index - 1].term == e.term
}

/// The first `m` entries of `es` are in `log`, and the next one, if any, is not.
pub open spec fn is_matched_prefix(log: Seq<EntryView>, es: Seq<EntryView>, m: int) -> bool {
    &&& 0 <= m <= es.len()
    &&& forall|q: int| 0 <= q < m ==> matches_at(log, #[trigger] es[q])
    &&& m < es.len() ==> !matches_at(log, es[m])
}

/// Entries of `es` that `log` already holds carry the same command, and
/// the first one it does not hold lies above the commit index `commit`.
pub open spec fn splice_allowed(log: Seq<EntryView>, es: Seq<EntryView>, commit: Index) -> bool {
    forall|m: int| #[trigger] is_matched_prefix(log, es, m) ==> {
        &&& forall|q: int| 0 <= q < m ==> (#[trigger] es[q]).command == log[es[q].index - 1].command
        &&& m < es.len() ==> es[m].index > commit
    }
}

/// The log after splicing `es` into `log`: unchanged where `log` already
/// holds every entry of `es`; otherwise the entries below the first of `es`
/// followed by `es`, so that a conflicting tail is dropped.
pub open spec fn splice_result(log: Seq<EntryView>, es: Seq<EntryView>) -> Seq<EntryView> {
    if is_matched_prefix(log, es, es.len() as int) {
        log
    } else {
        log.subrange(0, es[0].index - 1) + es
    }
}

impl<E: Engine> Log<E> {
    /// Recovery fidelity: the store alone determines a well-formed log, so
    /// reopening a log on its engine gives back the same entries, last
    /// entry, commit index, term and vote.
    pub proof fn lemma_recovery_fidelity(a: &Self, b: &Self)
        requires
            a.wf(),
            b.wf(),
            a.store() == b.store(),
        ensures
            a.entries() == b.entries(),
            a.last_index() == b.last_index(),
            a.last_term() == b.last_term(),
            a.commit_index() == b.commit_index(),
            a.commit_term() == b.commit_term(),
            a.term() == b.term(),
            a.vote() == b.vote(),
    {
        lemma_stored_log_unique(a.engine.store(), a.log@, b.log@);
    }
}

/// A store holds at most one log.
proof fn lemma_stored_log_unique(s: Map<Seq<u8>, Seq<u8>>, l1: Seq<EntryView>, l2: Seq<EntryView>)
    requires
        stores_log(s, l1),
        stores_log(s, l2),
        l1.len() <= u64::MAX,
        l2.len() <= u64::MAX,
    ensures
        l1 == l2,
{
    if l1.len() < l2.len() {
        assert(s.contains_key(entry_key(l2.len() as u64)));
    } else if l2.len() < l1.len() {
        assert(s.contains_key(entry_key(l1.len() as u64)));
    }
    assert forall|k: int| 0 <= k < l1.len() implies l1[k] == l2[k] by {
        let i = (k + 1) as u64;
        assert(s[entry_key(i)] == entry_bytes(l1[i - 1]));
        lemma_entry_round_trip(l1[k]);
        lemma_entry_round_trip(l2[k]);
    }
    assert(l1 =~= l2);
}

/// Splice idempotence: once a batch is spliced in, splicing it again is
/// allowed, finds every entry already held, and leaves the log as it is;
/// by the contract of `splice`, that second call then makes no engine call.
pub proof fn lemma_splice_idempotent(log: Seq<EntryView>, es: Seq<EntryView>, term: Term, commit: Index)
    requires
        log_ok(log, term),
        commit <= log.len(),
        batch_ok(log, es, term),
        splice_allowed(log, es, commit),
    ensures
        batch_ok(splice_result(log, es), es, term),
        splice_allowed(splice_result(log, es), es, commit),
        is_matched_prefix(splice_result(log, es), es, es.len() as int),
        splice_result(splice_result(log, es), es) == splice_result(log, es),
{
    let l2 = splice_result(log, es);
    if es.len() > 0 {
        if !is_matched_prefix(log, es, es.len() as int) {
            let k = choose_matched(log, es);
            lemma_splice_log(log, es, k, term, commit);
            assert(l2 == log.subrange(0, es[0].index - 1) + es);
            assert(es[es.len() - 1].index == es[0].index + es.len() - 1);
            assert forall|q: int| 0 <= q < es.len() implies matches_at(l2, #[trigger] es[q]) by {
                assert(es[q].index == es[0].index + q);
                assert(l2[es[0].index - 1 + q] == es[q]);
            }
            if es[0].index > 1 {
                assert(l2[es[0].index - 2] == log[es[0].index - 2]);
            }
            assert forall|m: int| #[trigger] is_matched_prefix(l2, es, m) implies {
                &&& forall|q: int| 0 <= q < m ==> (#[trigger] es[q]).command == l2[es[q].index - 1].command
                &&& m < es.len() ==> es[m].index > commit
            } by {
                assert forall|q: int| 0 <= q < m implies (#[trigger] es[q]).command == l2[es[q].index - 1].command by {
                    assert(es[q].index == es[0].index + q);
                    assert(l2[es[0].index - 1 + q] == es[q]);
                }
                if m < es.len() {
                    assert(matches_at(l2, es[m]));
                }
            }
        } else {
            assert(forall|q: int| 0 <= q < es.len() ==> matches_at(log, #[trigger] es[q]));
        }
    } else {
        assert(is_matched_prefix(log, es, 0));
    }
}

/// The length of the part of `es` that `log` already holds.
proof fn choose_matched(log: Seq<EntryView>, es: Seq<EntryView>) -> (k: int)
    ensures
        is_matched_prefix(log, es, k),
    decreases es.len(),
{
    if es.len() == 0 {
        0
    } else if !matches_at(log, es[0]) {
        0
    } else {
        let k = choose_matched(log, es.drop_first());
        assert forall|q: int| 0 <= q < k + 1 implies matches_at(log, #[trigger] es[q]) by {
            if q > 0 {
                assert(es[q] == es.drop_first()[q - 1]);
            }
        }
        if k + 1 < es.len() {
            assert(es[k + 1] == es.drop_first()[k]);
        }
        k + 1
    }
}

/// Commit immutability: an allowed splice keeps every entry at or below the
/// commit index.
pub proof fn lemma_splice_keeps_committed(log: Seq<EntryView>, es: Seq<EntryView>, term: Term, commit: Index)
    requires
        log_ok(log, term),
        commit <= log.len(),
        batch_ok(log, es, term),
        splice_allowed(log, es, commit),
    ensures
        commit <= splice_result(log, es).len(),
        splice_result(log, es).subrange(0, commit as int) == log.subrange(0, commit as int),
{
    if es.len() > 0 && !is_matched_prefix(log, es, es.len() as int) {
        let k = choose_matched(log, es);
        lemma_splice_log(log, es, k, term, commit);
    }
}

/// Entry keys have nine bytes; the two metadata keys differ from each other
/// and from every entry key; distinct indexes have distinct keys.
proof fn lemma_keys_distinct()
    ensures
        forall|i: u64| (#[trigger] entry_key(i)).len() == 9,
        key_bytes(Key::TermVote).len() == 1,
        key_bytes(Key::CommitIndex).len() == 1,
        key_bytes(Key::TermVote) != key_bytes(Key::CommitIndex),
        forall|i: u64, j: u64| #[trigger] entry_key(i) == #[trigger] entry_key(j) ==> i == j,
{
    assert forall|i: u64, j: u64| #[trigger] entry_key(i) == #[trigger] entry_key(j) implies i == j by {
        lemma_key_injective(Key::Entry(i), Key::Entry(j));
    }
    assert(key_bytes(Key::TermVote)[0] != key_bytes(Key::CommitIndex)[0]);
}

/// Writing a key that is no entry key keeps the stored entries.
proof fn lemma_set_other_key(s: Map<Seq<u8>, Seq<u8>>, log: Seq<EntryView>, k: Seq<u8>, v: Seq<u8>)
    requires
        stores_log(s, log),
        k.len() == 1,
    ensures
        stores_log(s.insert(k, v), log),
{
    lemma_keys_distinct();
}

/// Writing the entry after the last keeps the log stored, one entry longer.
proof fn lemma_store_insert_entry(s: Map<Seq<u8>, Seq<u8>>, log: Seq<EntryView>, e: EntryView)
    requires
        stores_log(s, log),
        e.index == log.len() + 1,
    ensures
        stores_log(s.insert(entry_key(e.index), entry_bytes(e)), log.push(e)),
{
    lemma_keys_distinct();
    let s2 = s.insert(entry_key(e.index), entry_bytes(e));
    let l2 = log.push(e);
    assert forall|i: u64| 1 <= i <= l2.len() implies s2[#[trigger] entry_key(i)] == entry_bytes(l2[i - 1]) by {
        if i != e.index {
            assert(entry_key(i) != entry_key(e.index));
        }
    }
}

/// The spliced log keeps every entry below the first one written, in
/// particular every committed one, and meets the log invariants.
proof fn lemma_splice_log(log: Seq<EntryView>, es: Seq<EntryView>, k: int, term: Term, commit: Index)
    requires
        log_ok(log, term),
        commit <= log.len(),
        es.len() > 0,
        batch_ok(log, es, term),
        splice_allowed(log, es, commit),
        is_matched_prefix(log, es, k),
        k < es.len(),
    ensures
        splice_result(log, es) == log.subrange(0, es[0].index - 1) + es,
        splice_result(log, es).len() == es.last().index,
        es[0].index + k - 1 <= log.len(),
        forall|i: int| 0 <= i < es[0].index + k - 1 ==> #[trigger] splice_result(log, es)[i] == log[i],
        commit < es[0].index + k,
        log_ok(splice_result(log, es), term),
        term_of(splice_result(log, es), es.last().index as int) == es.last().term,
        splice_result(log, es).subrange(0, commit as int) == log.subrange(0, commit as int),
{
    assert(is_matched_prefix(log, es, k));
    assert(forall|q: int| 0 <= q < k ==> (#[trigger] es[q]).command == log[es[q].index - 1].command);
    assert(es[k].index > commit);
    assert(!is_matched_prefix(log, es, es.len() as int)) by {
        assert(!matches_at(log, es[k]));
    }
    lemma_splice_prefix(log, es, k, term, commit);
    lemma_splice_log_ok(log, es, term);
}

proof fn lemma_splice_prefix(log: Seq<EntryView>, es: Seq<EntryView>, k: int, term: Term, commit: Index)
    requires
        log_ok(log, term),
        es.len() > 0,
        0 < es[0].index <= log.len() + 1,
        forall|j: int| 0 <= j < es.len() ==> (#[trigger] es[j]).index == es[0].index + j,
        0 <= k < es.len(),
        forall|q: int| 0 <= q < k ==> matches_at(log, #[trigger] es[q]),
        forall|q: int| 0 <= q < k ==> (#[trigger] es[q]).command == log[es[q].index - 1].command,
        es[k].index > commit,
        !is_matched_prefix(log, es, es.len() as int),
    ensures
        splice_result(log, es) == log.subrange(0, es[0].index - 1) + es,
        splice_result(log, es).len() == es.last().index,
        es[0].index + k - 1 <= log.len(),
        forall|i: int| 0 <= i < es[0].index + k - 1 ==> #[trigger] splice_result(log, es)[i] == log[i],
        commit < es[0].index + k,
        splice_result(log, es).subrange(0, commit as int) == log.subrange(0, commit as int),
{
    let first = es[0].index;
    let l2 = splice_result(log, es);
    assert(es[es.len() - 1].index == first + es.len() - 1);
    if k > 0 {
        assert(matches_at(log, es[k - 1]));
        assert(es[k - 1].index == first + k - 1);
    }
    assert forall|i: int| 0 <= i < first + k - 1 implies #[trigger] l2[i] == log[i] by {
        if i >= first - 1 {
            let q = i - (first - 1);
            assert(es[q].index == first + q);
            assert(matches_at(log, es[q]));
            assert(es[q].command == log[es[q].index - 1].command);
            assert(log[i].index == i + 1);
            assert(l2[i] == es[q]);
        }
    }
    assert(es[k].index == first + k);
    assert(l2.subrange(0, commit as int) =~= log.subrange(0, commit as int));
}

proof fn lemma_splice_log_ok(log: Seq<EntryView>, es: Seq<EntryView>, term: Term)
    requires
        log_ok(log, term),
        es.len() > 0,
        batch_ok(log, es, term),
        !is_matched_prefix(log, es, es.len() as int),
    ensures
        log_ok(splice_result(log, es), term),
        term_of(splice_result(log, es), es.last().index as int) == es.last().term,
{
    let l2 = splice_result(log, es);
    assert(es[es.len() - 1].index == es[0].index + es.len() - 1);
    assert(l2 == log.subrange(0, es[0].index - 1) + es);
    lemma_spliced_entries_ok(log, es, term);
    lemma_spliced_terms_ok(log, es, term);
    assert(l2[es.last().index - 1] == es[es.len() - 1]);
}

proof fn lemma_spliced_entries_ok(log: Seq<EntryView>, es: Seq<EntryView>, term: Term)
    requires
        log_ok(log, term),
        es.len() > 0,
        batch_ok(log, es, term),
    ensures
        forall|q: int|
            0 <= q < (log.subrange(0, es[0].index - 1) + es).len() ==> (#[trigger] (log.subrange(
                0,
                es[0].index - 1,
            ) + es)[q]).index == q + 1 && 0 < (log.subrange(0, es[0].index - 1) + es)[q].term <= term,
{
    let first = es[0].index;
    let l2 = log.subrange(0, first - 1) + es;
    assert forall|q: int| 0 <= q < l2.len() implies (#[trigger] l2[q]).index == q + 1 && 0 < l2[q].term <= term by {
        if q >= first - 1 {
            let e = q - (first - 1);
            assert(l2[q] == es[e]);
            assert(es[e].index == first + e);
            if e > 0 {
                assert(es[0].term <= es[e].term);
            }
            if e < es.len() - 1 {
                assert(es[e].term <= es[es.len() - 1].term);
            }
        } else {
            assert(l2[q] == log[q]);
        }
    }
}

proof fn lemma_spliced_terms_ok(log: Seq<EntryView>, es: Seq<EntryView>, term: Term)
    requires
        log_ok(log, term),
        es.len() > 0,
        batch_ok(log, es, term),
    ensures
        forall|a: int, b: int|
            0 <= a < b < (log.subrange(0, es[0].index - 1) + es).len() ==> (#[trigger] (log.subrange(
                0,
                es[0].index - 1,
            ) + es)[a]).term <= (#[trigger] (log.subrange(0, es[0].index - 1) + es)[b]).term,
{
    let first = es[0].index;
    let l2 = log.subrange(0, first - 1) + es;
    assert forall|a: int, b: int| 0 <= a < b < l2.len() implies (#[trigger] l2[a]).term <= (#[trigger] l2[b]).term by {
        if b < first - 1 {
            assert(l2[a] == log[a]);
            assert(l2[b] == log[b]);
        } else if a >= first - 1 {
            assert(l2[a] == es[a - (first - 1)]);
            assert(l2[b] == es[b - (first - 1)]);
        } else {
            assert(l2[a] == log[a]);
            assert(log[a].term <= log[first - 2].term) by {
                if a < first - 2 {
                }
            }
            assert(l2[b] == es[b - (first - 1)]);
            if b - (first - 1) > 0 {
                assert(es[0].term <= es[b - (first - 1)].term);
            }
        }
    }
}

/// The store after a splice holds the spliced log: entries below the first
/// written one are kept, the written ones follow, and the old tail is gone.
proof fn lemma_splice_store(
    s0: Map<Seq<u8>, Seq<u8>>,
    s2: Map<Seq<u8>, Seq<u8>>,
    log: Seq<EntryView>,
    es: Seq<EntryView>,
    k: int,
    term: Term,
    commit: Index,
)
    requires
        consistent(s0, log),
        stored_term_vote(s0) matches Some((t, _)) && t == term,
        stored_commit(s0) matches Some((c, _)) && c == commit,
        es.len() > 0,
        batch_ok(log, es, term),
        splice_allowed(log, es, commit),
        is_matched_prefix(log, es, k),
        k < es.len(),
        forall|i: u64|
            #[trigger] lookup(s2, entry_key(i)) == if es[0].index + k <= i <= es.last().index {
                Some(entry_bytes(es[i - es[0].index]))
            } else if es.last().index < i <= log.len() {
                None
            } else {
                lookup(s0, entry_key(i))
            },
        lookup(s2, key_bytes(Key::TermVote)) == lookup(s0, key_bytes(Key::TermVote)),
        lookup(s2, key_bytes(Key::CommitIndex)) == lookup(s0, key_bytes(Key::CommitIndex)),
    ensures
        consistent(s2, splice_result(log, es)),
        splice_result(log, es).len() == es.last().index,
        stored_term_vote(s2) == stored_term_vote(s0),
        stored_commit(s2) == stored_commit(s0),
        term_of(splice_result(log, es), es.last().index as int) == es.last().term,
        splice_result(log, es).subrange(0, commit as int) == log.subrange(0, commit as int),
{
    lemma_splice_log(log, es, k, term, commit);
    let first = es[0].index;
    let l2 = splice_result(log, es);
    assert forall|i: u64| #[trigger] s2.contains_key(entry_key(i)) <==> 1 <= i <= l2.len() by {
        assert(lookup(s2, entry_key(i)) is Some <==> s2.contains_key(entry_key(i)));
        assert(lookup(s0, entry_key(i)) is Some <==> s0.contains_key(entry_key(i)));
        assert(s0.contains_key(entry_key(i)) <==> 1 <= i <= log.len());
    }
    assert forall|i: u64| 1 <= i <= l2.len() implies s2[#[trigger] entry_key(i)] == entry_bytes(l2[i - 1]) by {
        assert(lookup(s2, entry_key(i)) is Some);
        if i < first + k {
            assert(l2[i - 1] == log[i - 1]);
        } else {
            assert(l2[i - 1] == es[i - first]);
        }
    }
    let (c, ct) = stored_commit(s0)->Some_0;
    if c > 0 {
        assert(l2[c - 1] == log[c - 1]);
    }
}

/// Every entry key lies in the range from the key of index 0 to that of the
/// largest index.
proof fn lemma_entry_key_in_scan(i: u64)
    ensures
        in_range(entry_key(i), entry_key(0), entry_key(u64::MAX)),
{
    let k = entry_key(i);
    let lo = entry_key(0);
    let hi = entry_key(u64::MAX);
    assert(lo =~= seq![0u8, 0u8, 0u8, 0u8, 0u8, 0u8, 0u8, 0u8, 0u8]) by {
        assert((0u64 >> 56u64) as u8 == 0 && (0u64 >> 48u64) as u8 == 0 && (0u64 >> 40u64) as u8 == 0
            && (0u64 >> 32u64) as u8 == 0) by (bit_vector);
        assert((0u64 >> 24u64) as u8 == 0 && (0u64 >> 16u64) as u8 == 0 && (0u64 >> 8u64) as u8 == 0
            && 0u64 as u8 == 0) by (bit_vector);
    }
    assert(hi =~= seq![0u8, 255u8, 255u8, 255u8, 255u8, 255u8, 255u8, 255u8, 255u8]) by {
        let m = 0xffff_ffff_ffff_ffffu64;
        assert((m >> 56u64) as u8 == 255 && (m >> 48u64) as u8 == 255 && (m >> 40u64) as u8 == 255
            && (m >> 32u64) as u8 == 255) by (bit_vector)
            requires m == 0xffff_ffff_ffff_ffffu64;
        assert((m >> 24u64) as u8 == 255 && (m >> 16u64) as u8 == 255 && (m >> 8u64) as u8 == 255
            && m as u8 == 255) by (bit_vector)
            requires m == 0xffff_ffff_ffff_ffffu64;
    }
    assert(k.len() == 9 && k[0] == 0);
    lemma_lex_le_pointwise(lo, k);
    lemma_lex_le_pointwise(k, hi);
}

} // verus!
