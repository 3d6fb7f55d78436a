use vstd::prelude::*;

verus! {

/// The eight big-endian bytes of `x`.
pub open spec fn be_bytes(x: u64) -> Seq<u8> {
    seq![
        (x >> 56u64) as u8,
        (x >> 48u64) as u8,
        (x >> 40u64) as u8,
        (x >> 32u64) as u8,
        (x >> 24u64) as u8,
        (x >> 16u64) as u8,
        (x >> 8u64) as u8,
        x as u8,
    ]
}

/// The integer whose big-endian bytes are `b[at..at + 8]`.
pub open spec fn be_value(b: Seq<u8>, at: int) -> u64 {
    be_combine(b[at], b[at + 1], b[at + 2], b[at + 3], b[at + 4], b[at + 5], b[at + 6], b[at + 7])
}

pub open spec fn be_combine(b0: u8, b1: u8, b2: u8, b3: u8, b4: u8, b5: u8, b6: u8, b7: u8) -> u64 {
    (b0 as u64) << 56u64 | (b1 as u64) << 48u64 | (b2 as u64) << 40u64 | (b3 as u64) << 32u64 | (
    b4 as u64) << 24u64 | (b5 as u64) << 16u64 | (b6 as u64) << 8u64 | (b7 as u64)
}

proof fn lemma_combine_split(x: u64)
    by (bit_vector)
    ensures
        be_combine(
            (x >> 56u64) as u8,
            (x >> 48u64) as u8,
            (x >> 40u64) as u8,
            (x >> 32u64) as u8,
            (x >> 24u64) as u8,
            (x >> 16u64) as u8,
            (x >> 8u64) as u8,
            x as u8,
        ) == x,
{
}

proof fn lemma_split_combine(b0: u8, b1: u8, b2: u8, b3: u8, b4: u8, b5: u8, b6: u8, b7: u8)
    by (bit_vector)
    ensures
        (be_combine(b0, b1, b2, b3, b4, b5, b6, b7) >> 56u64) as u8 == b0,
        (be_combine(b0, b1, b2, b3, b4, b5, b6, b7) >> 48u64) as u8 == b1,
        (be_combine(b0, b1, b2, b3, b4, b5, b6, b7) >> 40u64) as u8 == b2,
        (be_combine(b0, b1, b2, b3, b4, b5, b6, b7) >> 32u64) as u8 == b3,
        (be_combine(b0, b1, b2, b3, b4, b5, b6, b7) >> 24u64) as u8 == b4,
        (be_combine(b0, b1, b2, b3, b4, b5, b6, b7) >> 16u64) as u8 == b5,
        (be_combine(b0, b1, b2, b3, b4, b5, b6, b7) >> 8u64) as u8 == b6,
        be_combine(b0, b1, b2, b3, b4, b5, b6, b7) as u8 == b7,
{
}

/// Reading back the bytes of an integer gives the integer.
pub proof fn lemma_be_round_trip(x: u64, pre: Seq<u8>, post: Seq<u8>)
    ensures
        be_value(pre + be_bytes(x) + post, pre.len() as int) == x,
{
    let b = pre + be_bytes(x) + post;
    let n = pre.len() as int;
    assert(b.subrange(n, n + 8) =~= be_bytes(x));
    assert(b[n] == be_bytes(x)[0] && b[n + 1] == be_bytes(x)[1] && b[n + 2] == be_bytes(x)[2]
        && b[n + 3] == be_bytes(x)[3]);
    assert(b[n + 4] == be_bytes(x)[4] && b[n + 5] == be_bytes(x)[5] && b[n + 6] == be_bytes(x)[6]
        && b[n + 7] == be_bytes(x)[7]);
    lemma_combine_split(x);
}

/// Eight bytes are the big-endian bytes of the integer they spell.
pub proof fn lemma_be_bytes_of_value(b: Seq<u8>, at: int)
    requires
        0 <= at,
        at + 8 <= b.len(),
    ensures
        be_bytes(be_value(b, at)) == b.subrange(at, at + 8),
{
    lemma_split_combine(b[at], b[at + 1], b[at + 2], b[at + 3], b[at + 4], b[at + 5], b[at + 6], b[at + 7]);
    assert(be_bytes(be_value(b, at)) =~= b.subrange(at, at + 8));
}

/// Appends the big-endian bytes of `x` to `out`.
pub fn put_u64(out: &mut Vec<u8>, x: u64)
    ensures
        final(out)@ == old(out)@ + be_bytes(x),
{
    out.push((x >> 56u64) as u8);
    out.push((x >> 48u64) as u8);
    out.push((x >> 40u64) as u8);
    out.push((x >> 32u64) as u8);
    out.push((x >> 24u64) as u8);
    out.push((x >> 16u64) as u8);
    out.push((x >> 8u64) as u8);
    out.push(x as u8);
    assert(final(out)@ =~= old(out)@ + be_bytes(x));
}

/// Reads the big-endian integer at `b[at..at + 8]`.
pub fn get_u64(b: &[u8], at: usize) -> (r: u64)
    requires
        at + 8 <= b@.len(),
    ensures
        r == be_value(b@, at as int),
{
    (b[at] as u64) << 56u64 | (b[at + 1] as u64) << 48u64 | (b[at + 2] as u64) << 40u64 | (b[at
        + 3] as u64) << 32u64 | (b[at + 4] as u64) << 24u64 | (b[at + 5] as u64) << 16u64 | (b[at
        + 6] as u64) << 8u64 | (b[at + 7] as u64)
}

} // verus!
