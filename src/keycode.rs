use vstd::prelude::*;

use crate::codec::{be_bytes, be_value, get_u64, lemma_be_bytes_of_value, lemma_be_round_trip, put_u64};

verus! {

/// A log index (entry position). Starts at 1; 0 means "no entry".
pub type Index = u64;

/// A storage key of the log.
#[derive(Clone, Copy, Debug, PartialEq, Eq, Structural)]
pub enum Key {
    /// A log entry, storing its term and command.
    Entry(Index),
    /// Stores the current term and vote (if any).
    TermVote,
    /// Stores the commit index and its term.
    CommitIndex,
}

/// The bytes that key `k` is stored under: a tag byte, then for an entry its
/// index in big-endian order, so that entry keys sort by index.
pub open spec fn key_bytes(k: Key) -> Seq<u8> {
    match k {
        Key::Entry(i) => seq![0u8] + be_bytes(i),
        Key::TermVote => seq![1u8],
        Key::CommitIndex => seq![2u8],
    }
}

/// The key that the bytes `b` stand for, if any.
pub open spec fn key_of(b: Seq<u8>) -> Option<Key> {
    if b.len() == 9 && b[0] == 0 {
        Some(Key::Entry(be_value(b, 1)))
    } else if b.len() == 1 && b[0] == 1 {
        Some(Key::TermVote)
    } else if b.len() == 1 && b[0] == 2 {
        Some(Key::CommitIndex)
    } else {
        None
    }
}

/// The bytes that the entry at index `i` is stored under.
pub open spec fn entry_key(i: u64) -> Seq<u8> {
    key_bytes(Key::Entry(i))
}

/// Decoding an encoded key gives the key back.
pub proof fn lemma_key_round_trip(k: Key)
    ensures
        key_of(key_bytes(k)) == Some(k),
{
    if let Key::Entry(i) = k {
        lemma_be_round_trip(i, seq![0u8], Seq::empty());
        assert(seq![0u8] + be_bytes(i) + Seq::<u8>::empty() =~= key_bytes(k));
    }
}

/// Bytes that decode to a key are that key's encoding.
pub proof fn lemma_key_canonical(b: Seq<u8>)
    requires
        key_of(b) is Some,
    ensures
        key_bytes(key_of(b)->Some_0) == b,
{
    if b.len() == 9 && b[0] == 0 {
        lemma_be_bytes_of_value(b, 1);
        assert(key_bytes(key_of(b)->Some_0) =~= b);
    } else {
        assert(key_bytes(key_of(b)->Some_0) =~= b);
    }
}

/// Distinct keys are stored under distinct bytes.
pub proof fn lemma_key_injective(a: Key, b: Key)
    requires
        key_bytes(a) == key_bytes(b),
    ensures
        a == b,
{
    lemma_key_round_trip(a);
    lemma_key_round_trip(b);
}

impl Key {
    /// Encodes the key into bytes.
    pub fn encode(&self) -> (r: Vec<u8>)
        ensures
            r@ == key_bytes(*self),
    {
        let mut out: Vec<u8> = Vec::new();
        match self {
            Key::Entry(i) => {
                out.push(0u8);
                put_u64(&mut out, *i);
            },
            Key::TermVote => {
                out.push(1u8);
            },
            Key::CommitIndex => {
                out.push(2u8);
            },
        }
        assert(out@ =~= key_bytes(*self));
        out
    }

    /// Decodes a key from bytes; `None` if the bytes are no key.
    pub fn decode(b: &[u8]) -> (r: Option<Key>)
        ensures
            r == key_of(b@),
    {
        if b.len() == 9 && b[0] == 0 {
            Some(Key::Entry(get_u64(b, 1)))
        } else if b.len() == 1 && b[0] == 1 {
            Some(Key::TermVote)
        } else if b.len() == 1 && b[0] == 2 {
            Some(Key::CommitIndex)
        } else {
            None
        }
    }
}

} // verus!
