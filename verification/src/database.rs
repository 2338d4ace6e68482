//! The storage backend interface and an in-memory backend.
use vstd::prelude::*;
use crate::errors::ErrorKind;
use crate::utils::bytes_eq;
use crate::Result;

verus! {

/// A byte store addressed by key. The tree keeps each serialized node under
/// the node's hash.
///
/// `contents` is what the store holds, as a map from key to value. A backend
/// may fail at any call, unless it is of a kind that never fails; it then
/// reports an error of kind `Backend`.
pub trait Database: Sized {
    /// What the store holds. A backend that says nothing of it holds some
    /// map, of which nothing else is known.
    open spec fn contents(&self) -> Map<Seq<u8>, Seq<u8>> {
        some_contents(*self)
    }

    /// Whether backends of this type answer every call without an error.
    /// A backend that says nothing of it may fail.
    open spec fn never_fails() -> bool {
        false
    }

    /// Whether `self` is in the state in which `new` hands out the backend
    /// at `dbpath`. What a store on disk holds when it is opened depends on
    /// the disk; a backend that says nothing of it may open in any state.
    open spec fn fresh_at(&self, dbpath: Seq<char>) -> bool {
        true
    }

    /// Opens the store at `dbpath`.
    fn new(dbpath: &str) -> (db: Self)
        ensures
            db.fresh_at(dbpath@),
    ;

    /// Reads the value under `key`, if there is one. The store is unchanged.
    fn get(&mut self, key: &[u8]) -> (r: Result<Option<Vec<u8>>>)
        ensures
            Self::never_fails() ==> r is Ok,
            final(self).contents() == old(self).contents(),
            match r {
                Ok(Some(v)) => old(self).contents().contains_key(key@) && old(self).contents()[key@]
                    == v@,
                Ok(None) => !old(self).contents().contains_key(key@),
                Err(e) => e.kind() == ErrorKind::Backend,
            },
    ;

    /// Binds `key` to `value`, replacing what was there.
    fn put(&mut self, key: &[u8], value: Vec<u8>) -> (r: Result<()>)
        ensures
            Self::never_fails() ==> r is Ok,
            match r {
                Ok(_) => final(self).contents() == old(self).contents().insert(key@, value@),
                Err(e) => e.kind() == ErrorKind::Backend,
            },
    ;

    /// Removes `key` and its value.
    fn delete(&mut self, key: &[u8]) -> (r: Result<()>)
        ensures
            Self::never_fails() ==> r is Ok,
            match r {
                Ok(_) => final(self).contents() == old(self).contents().remove(key@),
                Err(e) => e.kind() == ErrorKind::Backend,
            },
    ;

    /// Announces a run of writes. What the store holds does not change.
    fn init_batch(&mut self) -> (r: Result<()>)
        ensures
            Self::never_fails() ==> r is Ok,
            match r {
                Ok(_) => final(self).contents() == old(self).contents(),
                Err(e) => e.kind() == ErrorKind::Backend,
            },
    ;

    /// Closes a run of writes. What the store holds does not change.
    fn finish_batch(&mut self) -> (r: Result<()>)
        ensures
            Self::never_fails() ==> r is Ok,
            match r {
                Ok(_) => final(self).contents() == old(self).contents(),
                Err(e) => e.kind() == ErrorKind::Backend,
            },
    ;
}

/// Some map for each backend.
pub closed spec fn some_contents<D>(db: D) -> Map<Seq<u8>, Seq<u8>> {
    arbitrary::<spec_fn(D) -> Map<Seq<u8>, Seq<u8>>>()(db)
}

/// One entry of the in-memory log: a key bound to a value, or unbound.
pub struct Record {
    pub key: Vec<u8>,
    pub value: Option<Vec<u8>>,
}

/// An in-memory store that appends every write to a log and answers a read
/// with the latest entry for the key. It never fails.
pub struct MemoryDB {
    log: Vec<Record>,
}

/// What the latest entry for `key` in `log` binds it to.
pub open spec fn lookup(log: Seq<Record>, key: Seq<u8>) -> Option<Seq<u8>>
    decreases log.len(),
{
    if log.len() == 0 {
        None
    } else if log.last().key@ == key {
        match log.last().value {
            Some(v) => Some(v@),
            None => None,
        }
    } else {
        lookup(log.drop_last(), key)
    }
}

/// The map that a log of writes amounts to.
pub open spec fn replay(log: Seq<Record>) -> Map<Seq<u8>, Seq<u8>>
    decreases log.len(),
{
    if log.len() == 0 {
        Map::empty()
    } else {
        match log.last().value {
            Some(v) => replay(log.drop_last()).insert(log.last().key@, v@),
            None => replay(log.drop_last()).remove(log.last().key@),
        }
    }
}

/// The map of a log binds a key to what its latest entry says.
pub proof fn lemma_replay_lookup(log: Seq<Record>, key: Seq<u8>)
    ensures
        replay(log).contains_key(key) <==> lookup(log, key) is Some,
        lookup(log, key) is Some ==> replay(log)[key] == lookup(log, key)->0,
    decreases log.len(),
{
    if log.len() > 0 {
        lemma_replay_lookup(log.drop_last(), key);
    }
}

impl MemoryDB {
    /// What the store holds.
    pub closed spec fn entries(&self) -> Map<Seq<u8>, Seq<u8>> {
        replay(self.log@)
    }
}

impl Database for MemoryDB {
    open spec fn contents(&self) -> Map<Seq<u8>, Seq<u8>> {
        self.entries()
    }

    open spec fn never_fails() -> bool {
        true
    }

    /// The store in memory opens empty, whatever the path.
    open spec fn fresh_at(&self, dbpath: Seq<char>) -> bool {
        self.entries() == Map::<Seq<u8>, Seq<u8>>::empty()
    }

    /// An empty store; the path is not used.
    fn new(dbpath: &str) -> (db: Self)
        ensures
            db.contents() == Map::<Seq<u8>, Seq<u8>>::empty(),
    {
        MemoryDB { log: Vec::new() }
    }

    #[verifier::rlimit(30)]
    fn get(&mut self, key: &[u8]) -> (r: Result<Option<Vec<u8>>>) {
        let mut i: usize = self.log.len();
        assert(self.log@.take(i as int) =~= self.log@);
        while i > 0
            invariant
                i <= self.log@.len(),
                lookup(self.log@, key@) == lookup(self.log@.take(i as int), key@),
                *self == *old(self),
            decreases i,
        {
            let ghost head = self.log@.take(i as int);
            assert(head.drop_last() =~= self.log@.take(i - 1));
            assert(head.last() == self.log@[i - 1]);
            i -= 1;
            if bytes_eq(self.log[i].key.as_slice(), key) {
                proof {
                    lemma_replay_lookup(self.log@, key@);
                }
                return Ok(
                    match &self.log[i].value {
                        Some(v) => Some(v.clone()),
                        None => None,
                    },
                );
            }
        }
        proof {
            assert(self.log@.take(0).len() == 0);
            lemma_replay_lookup(self.log@, key@);
        }
        Ok(None)
    }

    fn put(&mut self, key: &[u8], value: Vec<u8>) -> (r: Result<()>) {
        let ghost before = self.log@;
        let mut k: Vec<u8> = Vec::new();
        k.extend_from_slice(key);
        assert(k@ =~= key@);
        self.log.push(Record { key: k, value: Some(value) });
        assert(self.log@.drop_last() =~= before);
        Ok(())
    }

    fn delete(&mut self, key: &[u8]) -> (r: Result<()>) {
        let ghost before = self.log@;
        let mut k: Vec<u8> = Vec::new();
        k.extend_from_slice(key);
        assert(k@ =~= key@);
        self.log.push(Record { key: k, value: None });
        assert(self.log@.drop_last() =~= before);
        Ok(())
    }

    fn init_batch(&mut self) -> (r: Result<()>) {
        Ok(())
    }

    fn finish_batch(&mut self) -> (r: Result<()>) {
        Ok(())
    }
}

} // verus!
