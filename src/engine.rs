use vstd::prelude::*;

verus! {

/// An error of the storage engine or of decoding what it holds.
#[derive(Clone, Debug, PartialEq, Eq)]
pub enum Error {
    /// The engine failed to read or write.
    IO(String),
    /// Stored bytes could not be decoded.
    InvalidData(String),
}

/// The status of a storage engine.
#[derive(Clone, Debug, PartialEq, Eq)]
pub struct Status {
    /// The name of the engine.
    pub name: String,
    /// The number of live keys.
    pub keys: u64,
}

/// A call that changes an engine, as recorded in its trace.
pub enum Call {
    Put(Seq<u8>, Seq<u8>),
    Delete(Seq<u8>),
    Flush,
}

/// Byte strings in lexicographic order: `a` sorts strictly before `b`.
pub open spec fn lex_lt(a: Seq<u8>, b: Seq<u8>) -> bool
    decreases a.len(),
{
    if b.len() == 0 {
        false
    } else if a.len() == 0 {
        true
    } else if a[0] != b[0] {
        a[0] < b[0]
    } else {
        lex_lt(a.drop_first(), b.drop_first())
    }
}

/// `a` sorts before `b` or equals it.
pub open spec fn lex_le(a: Seq<u8>, b: Seq<u8>) -> bool {
    a == b || lex_lt(a, b)
}

/// The key `k` lies in the closed range `[from, to]`.
pub open spec fn in_range(k: Seq<u8>, from: Seq<u8>, to: Seq<u8>) -> bool {
    lex_le(from, k) && lex_le(k, to)
}

/// What map `m` holds under key `k`.
pub open spec fn lookup(m: Map<Seq<u8>, Seq<u8>>, k: Seq<u8>) -> Option<Seq<u8>> {
    if m.contains_key(k) {
        Some(m[k])
    } else {
        None
    }
}

pub proof fn lemma_lex_irreflexive(a: Seq<u8>)
    ensures
        !lex_lt(a, a),
    decreases a.len(),
{
    if a.len() > 0 {
        lemma_lex_irreflexive(a.drop_first());
    }
}

pub proof fn lemma_lex_transitive(a: Seq<u8>, b: Seq<u8>, c: Seq<u8>)
    requires
        lex_lt(a, b),
        lex_lt(b, c),
    ensures
        lex_lt(a, c),
    decreases a.len(),
{
    if a.len() > 0 && a[0] == b[0] && b[0] == c[0] {
        lemma_lex_transitive(a.drop_first(), b.drop_first(), c.drop_first());
    }
}

pub proof fn lemma_lex_total(a: Seq<u8>, b: Seq<u8>)
    requires
        a != b,
    ensures
        lex_lt(a, b) || lex_lt(b, a),
    decreases a.len(),
{
    if a.len() > 0 && b.len() > 0 && a[0] == b[0] {
        if a.drop_first() == b.drop_first() {
            assert(a =~= seq![a[0]] + a.drop_first());
            assert(b =~= seq![b[0]] + b.drop_first());
        }
        lemma_lex_total(a.drop_first(), b.drop_first());
    } else if a.len() == 0 && b.len() == 0 {
        assert(a =~= b);
    }
}

/// Of two byte strings of one length, the one that is nowhere larger sorts
/// first or equals the other.
pub proof fn lemma_lex_le_pointwise(a: Seq<u8>, b: Seq<u8>)
    requires
        a.len() == b.len(),
        forall|j: int| 0 <= j < a.len() ==> a[j] <= b[j],
    ensures
        lex_le(a, b),
    decreases a.len(),
{
    if a.len() > 0 {
        if a[0] == b[0] {
            lemma_lex_le_pointwise(a.drop_first(), b.drop_first());
            if a.drop_first() == b.drop_first() {
                assert(a =~= seq![a[0]] + a.drop_first());
                assert(b =~= seq![b[0]] + b.drop_first());
            }
        }
    } else {
        assert(a =~= b);
    }
}

/// Compares two byte strings in lexicographic order.
pub fn bytes_lt(a: &[u8], b: &[u8]) -> (r: bool)
    ensures
        r == lex_lt(a@, b@),
{
    let mut i: usize = 0;
    assert(a@.subrange(0, a@.len() as int) =~= a@);
    assert(b@.subrange(0, b@.len() as int) =~= b@);
    while i < a.len() && i < b.len()
        invariant
            i <= a@.len(),
            i <= b@.len(),
            forall|j: int| 0 <= j < i ==> a@[j] == b@[j],
            lex_lt(a@, b@) == lex_lt(a@.subrange(i as int, a@.len() as int), b@.subrange(i as int, b@.len() as int)),
        decreases a@.len() - i,
    {
        if a[i] != b[i] {
            return a[i] < b[i];
        }
        assert(a@.subrange(i as int, a@.len() as int).drop_first() =~= a@.subrange(i + 1, a@.len() as int));
        assert(b@.subrange(i as int, b@.len() as int).drop_first() =~= b@.subrange(i + 1, b@.len() as int));
        i = i + 1;
    }
    i < b.len()
}

/// Tells whether two byte strings are equal.
pub fn bytes_eq(a: &[u8], b: &[u8]) -> (r: bool)
    ensures
        r == (a@ == b@),
{
    if a.len() != b.len() {
        return false;
    }
    let mut i: usize = 0;
    while i < a.len()
        invariant
            i <= a@.len(),
            a@.len() == b@.len(),
            forall|j: int| 0 <= j < i ==> a@[j] == b@[j],
        decreases a@.len() - i,
    {
        if a[i] != b[i] {
            return false;
        }
        i = i + 1;
    }
    assert(a@ =~= b@);
    true
}

/// Copies a byte string.
pub fn copy_bytes(a: &[u8]) -> (r: Vec<u8>)
    ensures
        r@ == a@,
{
    let mut out: Vec<u8> = Vec::new();
    let mut i: usize = 0;
    while i < a.len()
        invariant
            i <= a@.len(),
            out@ == a@.subrange(0, i as int),
        decreases a@.len() - i,
    {
        out.push(a[i]);
        i = i + 1;
        assert(out@ =~= a@.subrange(0, i as int));
    }
    assert(out@ =~= a@);
    out
}

/// An ordered key-value store with byte keys and byte values, which the log
/// keeps its entries and metadata in. Its contents are `store()`; `synced()`
/// holds when every write so far has been made durable by a flush.
pub trait Engine {
    /// The engine's own well-formedness, kept by every operation.
    spec fn valid(&self) -> bool;

    /// The key-value pairs the engine holds.
    spec fn store(&self) -> Map<Seq<u8>, Seq<u8>>;

    /// Every write so far has been made durable.
    spec fn synced(&self) -> bool;

    /// The calls that change the engine (set, delete, flush) made so far, in order.
    spec fn calls(&self) -> Seq<Call>;

    /// Reads the value under `key`.
    fn get(&mut self, key: &[u8]) -> (r: Result<Option<Vec<u8>>, Error>)
        requires
            old(self).valid(),
        ensures
            final(self).valid(),
            final(self).calls() == old(self).calls(),
            final(self).store() == old(self).store(),
            final(self).synced() == old(self).synced(),
            r matches Ok(v) ==> match v {
                Some(b) => lookup(old(self).store(), key@) == Some(b@),
                None => lookup(old(self).store(), key@) is None,
            },
    ;

    /// Writes `value` under `key`. A failed write changes nothing.
    fn set(&mut self, key: &[u8], value: Vec<u8>) -> (r: Result<(), Error>)
        requires
            old(self).valid(),
        ensures
            final(self).valid(),
            final(self).calls() == old(self).calls().push(Call::Put(key@, value@)),
            r is Ok ==> final(self).store() == old(self).store().insert(key@, value@),
            r is Err ==> final(self).store() == old(self).store(),
    ;

    /// Removes `key`, if present. A failed delete changes nothing.
    fn delete(&mut self, key: &[u8]) -> (r: Result<(), Error>)
        requires
            old(self).valid(),
        ensures
            final(self).valid(),
            final(self).calls() == old(self).calls().push(Call::Delete(key@)),
            r is Ok ==> final(self).store() == old(self).store().remove(key@),
            r is Err ==> final(self).store() == old(self).store(),
    ;

    /// Makes every write so far durable.
    fn flush(&mut self) -> (r: Result<(), Error>)
        requires
            old(self).valid(),
        ensures
            final(self).valid(),
            final(self).calls() == old(self).calls().push(Call::Flush),
            final(self).store() == old(self).store(),
            r is Ok ==> final(self).synced(),
    ;

    /// The pairs whose key lies in `[from, to]`, in ascending key order.
    fn scan(&mut self, from: &[u8], to: &[u8]) -> (r: Result<Vec<(Vec<u8>, Vec<u8>)>, Error>)
        requires
            old(self).valid(),
        ensures
            final(self).valid(),
            final(self).calls() == old(self).calls(),
            final(self).store() == old(self).store(),
            final(self).synced() == old(self).synced(),
            r matches Ok(v) ==> forall|j: int|
                0 <= j < v@.len() ==> {
                    &&& #[trigger] old(self).store().contains_key(v@[j].0@)
                    &&& old(self).store()[v@[j].0@] == v@[j].1@
                    &&& in_range(v@[j].0@, from@, to@)
                },
            r matches Ok(v) ==> forall|k: Seq<u8>|
                #[trigger] old(self).store().contains_key(k) && in_range(k, from@, to@) ==> exists|j: int|
                    0 <= j < v@.len() && #[trigger] v@[j].0@ == k,
            r matches Ok(v) ==> forall|j1: int, j2: int|
                0 <= j1 < j2 < v@.len() ==> lex_lt(#[trigger] v@[j1].0@, #[trigger] v@[j2].0@),
    ;

    /// Reports the engine's status.
    fn status(&mut self) -> (r: Result<Status, Error>)
        requires
            old(self).valid(),
        ensures
            final(self).valid(),
            final(self).calls() == old(self).calls(),
            final(self).store() == old(self).store(),
            final(self).synced() == old(self).synced(),
    ;
}

} // verus!
