//! The engine contract: reads, forward seeks and batched writes over
//! byte-string keys, with one uniform error type.
use vstd::prelude::*;
use crate::keys::lex_lt;
use crate::memory::MemoryEngine;

verus! {

/// One intended change to one key, borrowing the caller's buffers.
#[derive(Debug)]
pub enum Modify<'a> {
    Delete(&'a [u8]),
    Put((&'a [u8], &'a [u8])),
}

/// The abstract state of an engine: each stored key with its value.
pub type Contents = Map<Seq<u8>, Seq<u8>>;

/// The effect of one mutation: a put is an upsert, a delete removes the key
/// if present.
pub open spec fn apply_modify(m: Contents, op: Modify) -> Contents {
    match op {
        Modify::Delete(k) => m.remove(k@),
        Modify::Put((k, v)) => m.insert(k@, v@),
    }
}

/// The effect of a batch: its mutations in sequence order, so that for two
/// mutations of one key the later one decides.
pub open spec fn apply_batch(m: Contents, ops: Seq<Modify>) -> Contents
    decreases ops.len(),
{
    if ops.len() == 0 {
        m
    } else {
        apply_modify(apply_batch(m, ops.drop_last()), ops.last())
    }
}

/// The effect of several batches, one after the other.
pub open spec fn apply_batches(m: Contents, batches: Seq<Seq<Modify>>) -> Contents
    decreases batches.len(),
{
    if batches.len() == 0 {
        m
    } else {
        apply_batch(apply_batches(m, batches.drop_last()), batches.last())
    }
}

/// What a point lookup of `k` in `m` yields.
pub open spec fn lookup(m: Contents, k: Seq<u8>) -> Option<Seq<u8>> {
    if m.contains_key(k) {
        Some(m[k])
    } else {
        None
    }
}

/// The bytes held by an optional buffer.
pub open spec fn opt_bytes(o: Option<Vec<u8>>) -> Option<Seq<u8>> {
    match o {
        Some(v) => Some(v@),
        None => None,
    }
}

/// `r` is the answer to a forward seek from `k` in `m`: the smallest stored
/// key not below `k`, with its value, or nothing when every stored key is
/// below `k`.
pub open spec fn is_seek_result(m: Contents, k: Seq<u8>, r: Option<(Seq<u8>, Seq<u8>)>) -> bool {
    match r {
        None => forall|s: Seq<u8>| #[trigger] m.contains_key(s) ==> lex_lt(s, k),
        Some((fk, v)) => {
            &&& m.contains_key(fk)
            &&& m[fk] == v
            &&& !lex_lt(fk, k)
            &&& forall|s: Seq<u8>| #[trigger] m.contains_key(s) && !lex_lt(s, k) ==> !lex_lt(s, fk)
        },
    }
}

/// The bytes held by an optional key/value pair.
pub open spec fn opt_pair(o: Option<(Vec<u8>, Vec<u8>)>) -> Option<(Seq<u8>, Seq<u8>)> {
    match o {
        Some((k, v)) => Some((k@, v@)),
        None => None,
    }
}

/// The one error of the engine contract: a backend failure, carried as the
/// backend's own description of it.
#[derive(Debug)]
pub enum Error {
    Other(String),
}

impl Error {
    /// The text the wrapped failure gave of itself.
    pub open spec fn text(&self) -> Seq<char> {
        match self {
            Error::Other(s) => s@,
        }
    }

    /// Describes the wrapped failure.
    pub fn description(&self) -> (r: &str)
        ensures
            r@ == self.text(),
    {
        match self {
            Error::Other(s) => s.as_str(),
        }
    }
}

/// What every backend offers. Reads never change the contents; a write
/// applies a whole batch, or on failure leaves the contents as they were.
pub trait Engine {
    /// The key/value pairs that the engine holds.
    spec fn contents(&self) -> Contents;

    /// The backend's internal invariant, which every operation keeps.
    spec fn well_formed(&self) -> bool;

    /// The value stored under `key`, if any.
    fn get(&self, key: &[u8]) -> (r: Result<Option<Vec<u8>>, Error>)
        requires
            self.well_formed(),
        ensures
            r is Ok ==> opt_bytes(r->Ok_0) == lookup(self.contents(), key@),
    ;

    /// The smallest stored key not below `key`, with its value.
    fn seek(&self, key: &[u8]) -> (r: Result<Option<(Vec<u8>, Vec<u8>)>, Error>)
        requires
            self.well_formed(),
        ensures
            r is Ok ==> is_seek_result(self.contents(), key@, opt_pair(r->Ok_0)),
    ;

    /// Applies `batch` in order, as one unit.
    fn write(&mut self, batch: Vec<Modify>) -> (r: Result<(), Error>)
        requires
            old(self).well_formed(),
        ensures
            final(self).well_formed(),
            r is Ok ==> final(self).contents() == apply_batch(old(self).contents(), batch@),
            r is Err ==> final(self).contents() == old(self).contents(),
    ;

    /// Stores `value` under `key`: a batch of that one mutation.
    fn put(&mut self, key: &[u8], value: &[u8]) -> (r: Result<(), Error>)
        requires
            old(self).well_formed(),
        ensures
            final(self).well_formed(),
            r is Ok ==> final(self).contents() == old(self).contents().insert(key@, value@),
            r is Err ==> final(self).contents() == old(self).contents(),
    {
        let mut batch: Vec<Modify> = Vec::new();
        batch.push(Modify::Put((key, value)));
        proof {
            assert(batch@.drop_last() =~= Seq::<Modify>::empty());
            assert(apply_batch(self.contents(), batch@.drop_last()) == self.contents());
        }
        self.write(batch)
    }

    /// Removes `key` if present: a batch of that one mutation.
    fn delete(&mut self, key: &[u8]) -> (r: Result<(), Error>)
        requires
            old(self).well_formed(),
        ensures
            final(self).well_formed(),
            r is Ok ==> final(self).contents() == old(self).contents().remove(key@),
            r is Err ==> final(self).contents() == old(self).contents(),
    {
        let mut batch: Vec<Modify> = Vec::new();
        batch.push(Modify::Delete(key));
        proof {
            assert(batch@.drop_last() =~= Seq::<Modify>::empty());
            assert(apply_batch(self.contents(), batch@.drop_last()) == self.contents());
        }
        self.write(batch)
    }
}

/// Which backend to build: an ephemeral in-memory one, or a persistent
/// store at a filesystem path.
#[derive(Debug)]
pub enum Dsn<'a> {
    Memory,
    RocksDBPath(&'a str),
}

/// Builds the backend that `desc` names. The in-memory backend is always
/// built, empty. No persistent store library is linked into this crate, so
/// a persistent backend cannot be opened at any path and the call fails.
pub fn new_engine(desc: Dsn) -> (r: Result<MemoryEngine, Error>)
    ensures
        desc is Memory <==> r is Ok,
        r is Ok ==> r->Ok_0.well_formed() && r->Ok_0.contents() == Contents::empty(),
{
    match desc {
        Dsn::Memory => Ok(MemoryEngine::new()),
        Dsn::RocksDBPath(_) => Err(Error::Other("cannot open a persistent store: none is available".to_owned())),
    }
}

} // verus!
