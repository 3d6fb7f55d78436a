use vstd::prelude::*;

use crate::codec::{be_bytes, be_value, get_u64, lemma_be_round_trip, put_u64};
use crate::keycode::Index;

verus! {

/// A leadership term. 0 means "no term".
pub type Term = u64;

/// The identifier of a Raft node.
pub type NodeID = u8;

/// A log entry containing a state machine command.
#[derive(Clone, Debug, PartialEq, Eq)]
pub struct Entry {
    /// The entry index.
    pub index: Index,
    /// The term in which the entry was added.
    pub term: Term,
    /// The state machine command. `None` is a no-op, which a new leader
    /// appends to commit entries of earlier terms.
    pub command: Option<Vec<u8>>,
}

/// What an entry holds, as mathematical values.
pub struct EntryView {
    pub index: Index,
    pub term: Term,
    pub command: Option<Seq<u8>>,
}

pub open spec fn opt_bytes_view(c: Option<Vec<u8>>) -> Option<Seq<u8>> {
    match c {
        Some(v) => Some(v@),
        None => None,
    }
}

impl View for Entry {
    type V = EntryView;

    open spec fn view(&self) -> EntryView {
        EntryView { index: self.index, term: self.term, command: opt_bytes_view(self.command) }
    }
}

/// The stored form of an entry: index, term, then a tag byte and the command.
pub open spec fn entry_bytes(e: EntryView) -> Seq<u8> {
    be_bytes(e.index) + be_bytes(e.term) + match e.command {
        None => seq![0u8],
        Some(c) => seq![1u8] + c,
    }
}

/// The entry that the bytes `b` stand for, if any.
pub open spec fn entry_of(b: Seq<u8>) -> Option<EntryView> {
    if b.len() == 17 && b[16] == 0 {
        Some(EntryView { index: be_value(b, 0), term: be_value(b, 8), command: None })
    } else if b.len() >= 17 && b[16] == 1 {
        Some(
            EntryView {
                index: be_value(b, 0),
                term: be_value(b, 8),
                command: Some(b.subrange(17, b.len() as int)),
            },
        )
    } else {
        None
    }
}

/// Decoding an encoded entry gives the entry back.
pub proof fn lemma_entry_round_trip(e: EntryView)
    ensures
        entry_of(entry_bytes(e)) == Some(e),
{
    let tail = match e.command {
        None => seq![0u8],
        Some(c) => seq![1u8] + c,
    };
    let b = entry_bytes(e);
    lemma_be_round_trip(e.index, Seq::empty(), be_bytes(e.term) + tail);
    lemma_be_round_trip(e.term, be_bytes(e.index), tail);
    assert(Seq::<u8>::empty() + be_bytes(e.index) + (be_bytes(e.term) + tail) =~= b);
    assert(be_bytes(e.index) + be_bytes(e.term) + tail =~= b);
    assert(b[16] == tail[0]);
    if let Some(c) = e.command {
        assert(b.subrange(17, b.len() as int) =~= c);
    }
}

/// The stored form of the current term and vote.
pub open spec fn term_vote_bytes(term: Term, vote: Option<NodeID>) -> Seq<u8> {
    be_bytes(term) + match vote {
        None => seq![0u8],
        Some(n) => seq![1u8, n],
    }
}

/// The term and vote that the bytes `b` stand for, if any.
pub open spec fn term_vote_of(b: Seq<u8>) -> Option<(Term, Option<NodeID>)> {
    if b.len() == 9 && b[8] == 0 {
        Some((be_value(b, 0), None))
    } else if b.len() == 10 && b[8] == 1 {
        Some((be_value(b, 0), Some(b[9])))
    } else {
        None
    }
}

pub proof fn lemma_term_vote_round_trip(term: Term, vote: Option<NodeID>)
    ensures
        term_vote_of(term_vote_bytes(term, vote)) == Some((term, vote)),
{
    let tail = match vote {
        None => seq![0u8],
        Some(n) => seq![1u8, n],
    };
    lemma_be_round_trip(term, Seq::empty(), tail);
    assert(Seq::<u8>::empty() + be_bytes(term) + tail =~= term_vote_bytes(term, vote));
    assert(term_vote_bytes(term, vote)[8] == tail[0]);
}

/// The stored form of the commit index and its term.
pub open spec fn commit_bytes(index: Index, term: Term) -> Seq<u8> {
    be_bytes(index) + be_bytes(term)
}

/// The commit index and term that the bytes `b` stand for, if any.
pub open spec fn commit_of(b: Seq<u8>) -> Option<(Index, Term)> {
    if b.len() == 16 {
        Some((be_value(b, 0), be_value(b, 8)))
    } else {
        None
    }
}

pub proof fn lemma_commit_round_trip(index: Index, term: Term)
    ensures
        commit_of(commit_bytes(index, term)) == Some((index, term)),
{
    lemma_be_round_trip(index, Seq::empty(), be_bytes(term));
    lemma_be_round_trip(term, be_bytes(index), Seq::empty());
    assert(Seq::<u8>::empty() + be_bytes(index) + be_bytes(term) =~= commit_bytes(index, term));
    assert(be_bytes(index) + be_bytes(term) + Seq::<u8>::empty() =~= commit_bytes(index, term));
}

impl Entry {
    /// Encodes the entry into bytes.
    pub fn encode(&self) -> (r: Vec<u8>)
        ensures
            r@ == entry_bytes(self@),
    {
        let mut out: Vec<u8> = Vec::new();
        put_u64(&mut out, self.index);
        put_u64(&mut out, self.term);
        match &self.command {
            None => {
                out.push(0u8);
            },
            Some(c) => {
                out.push(1u8);
                let mut i: usize = 0;
                let ghost start = out@;
                while i < c.len()
                    invariant
                        i <= c@.len(),
                        out@ == start + c@.subrange(0, i as int),
                    decreases c@.len() - i,
                {
                    out.push(c[i]);
                    i = i + 1;
                    assert(out@ =~= start + c@.subrange(0, i as int));
                }
                assert(c@.subrange(0, c@.len() as int) =~= c@);
            },
        }
        assert(out@ =~= entry_bytes(self@));
        out
    }

    /// Decodes an entry from bytes; `None` if the bytes are no entry.
    pub fn decode(b: &[u8]) -> (r: Option<Entry>)
        ensures
            match r {
                Some(e) => entry_of(b@) == Some(e@),
                None => entry_of(b@) is None,
            },
    {
        if b.len() < 17 {
            return None;
        }
        let index = get_u64(b, 0);
        let term = get_u64(b, 8);
        if b.len() == 17 && b[16] == 0 {
            Some(Entry { index, term, command: None })
        } else if b[16] == 1 {
            let mut c: Vec<u8> = Vec::new();
            let mut i: usize = 17;
            while i < b.len()
                invariant
                    17 <= i <= b@.len(),
                    c@ == b@.subrange(17, i as int),
                decreases b@.len() - i,
            {
                c.push(b[i]);
                i = i + 1;
                assert(c@ =~= b@.subrange(17, i as int));
            }
            Some(Entry { index, term, command: Some(c) })
        } else {
            None
        }
    }
}

/// Encodes the current term and vote.
pub fn encode_term_vote(term: Term, vote: Option<NodeID>) -> (r: Vec<u8>)
    ensures
        r@ == term_vote_bytes(term, vote),
{
    let mut out: Vec<u8> = Vec::new();
    put_u64(&mut out, term);
    match vote {
        None => {
            out.push(0u8);
        },
        Some(n) => {
            out.push(1u8);
            out.push(n);
        },
    }
    assert(out@ =~= term_vote_bytes(term, vote));
    out
}

/// Decodes the current term and vote.
pub fn decode_term_vote(b: &[u8]) -> (r: Option<(Term, Option<NodeID>)>)
    ensures
        r == term_vote_of(b@),
{
    if b.len() == 9 && b[8] == 0 {
        Some((get_u64(b, 0), None))
    } else if b.len() == 10 && b[8] == 1 {
        Some((get_u64(b, 0), Some(b[9])))
    } else {
        None
    }
}

/// Encodes the commit index and its term.
pub fn encode_commit(index: Index, term: Term) -> (r: Vec<u8>)
    ensures
        r@ == commit_bytes(index, term),
{
    let mut out: Vec<u8> = Vec::new();
    put_u64(&mut out, index);
    put_u64(&mut out, term);
    assert(out@ =~= commit_bytes(index, term));
    out
}

/// Decodes the commit index and its term.
pub fn decode_commit(b: &[u8]) -> (r: Option<(Index, Term)>)
    ensures
        r == commit_of(b@),
{
    if b.len() == 16 {
        Some((get_u64(b, 0), get_u64(b, 8)))
    } else {
        None
    }
}

} // verus!
