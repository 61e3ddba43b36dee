//! The storage engine boundary.
//!
//! The engine (sled) holds named stores, each an ordered map from
//! encoded key bytes to payload bytes. Verified code sees one
//! `Storage` handle whose contents are modelled, store by store, by
//! the uninterpreted `store_at`; every operation below is a trusted
//! wrapper whose contract states what sled's documentation and source
//! show. A `Storage` value is the unique handle on its engine
//! instance: the library never clones the underlying handle, so
//! mutation through one `Storage` is visible through no other.

use crate::codec::{has_prefix, lex_le};
use crate::errors::Error;
use sled::Transactional;
use vstd::prelude::*;

verus! {

/// A handle on one open storage engine instance. The handle it
/// holds is hidden whole because the engine mutates through shared
/// references; all reading and writing goes through the trusted
/// wrappers below, phrased over `store_at`.
#[verifier::external_body]
pub struct Storage {
    inner: sled::Db,
}

/// What the engine behind `s` holds in the store called `name`:
/// encoded record key to payload bytes. A store never opened or
/// never written is empty.
pub uninterp spec fn store_at(s: Storage, name: Seq<char>) -> Map<Seq<u8>, Seq<u8>>;

/// One record write: store name, encoded key, payload.
pub struct PutOp {
    pub store: String,
    pub key: Vec<u8>,
    pub value: Vec<u8>,
}

/// One record removal: store name, encoded key.
pub struct DelOp {
    pub store: String,
    pub key: Vec<u8>,
}

/// The contents of store `name` after the writes in `puts`, applied
/// in order (a later write to the same key wins).
pub open spec fn puts_applied(
    m: Map<Seq<u8>, Seq<u8>>,
    name: Seq<char>,
    puts: Seq<PutOp>,
) -> Map<Seq<u8>, Seq<u8>>
    decreases puts.len(),
{
    if puts.len() == 0 {
        m
    } else {
        let rest = puts_applied(m, name, puts.drop_last());
        if puts.last().store@ == name {
            rest.insert(puts.last().key@, puts.last().value@)
        } else {
            rest
        }
    }
}

/// The contents of store `name` after the removals in `dels`.
pub open spec fn dels_applied(
    m: Map<Seq<u8>, Seq<u8>>,
    name: Seq<char>,
    dels: Seq<DelOp>,
) -> Map<Seq<u8>, Seq<u8>>
    decreases dels.len(),
{
    if dels.len() == 0 {
        m
    } else {
        let rest = dels_applied(m, name, dels.drop_last());
        if dels.last().store@ == name {
            rest.remove(dels.last().key@)
        } else {
            rest
        }
    }
}

/// Applying a single write only touches its own store and key.
pub proof fn lemma_puts_applied_singleton(m: Map<Seq<u8>, Seq<u8>>, n: Seq<char>, ops: Seq<PutOp>)
    requires
        ops.len() == 1,
    ensures
        ops[0].store@ == n ==> puts_applied(m, n, ops) == m.insert(ops[0].key@, ops[0].value@),
        ops[0].store@ != n ==> puts_applied(m, n, ops) == m,
{
    assert(ops.drop_last() =~= Seq::<PutOp>::empty());
    assert(puts_applied(m, n, ops.drop_last()) == m);
    assert(ops.last() == ops[0]);
}

/// Applying a single removal only touches its own store and key.
pub proof fn lemma_dels_applied_singleton(m: Map<Seq<u8>, Seq<u8>>, n: Seq<char>, ops: Seq<DelOp>)
    requires
        ops.len() == 1,
    ensures
        ops[0].store@ == n ==> dels_applied(m, n, ops) == m.remove(ops[0].key@),
        ops[0].store@ != n ==> dels_applied(m, n, ops) == m,
{
    assert(ops.drop_last() =~= Seq::<DelOp>::empty());
    assert(dels_applied(m, n, ops.drop_last()) == m);
    assert(ops.last() == ops[0]);
}

/// Applying two writes inserts both, later one last.
pub proof fn lemma_puts_applied_pair(m: Map<Seq<u8>, Seq<u8>>, n: Seq<char>, ops: Seq<PutOp>)
    requires
        ops.len() == 2,
        ops[0].store@ == ops[1].store@,
    ensures
        ops[0].store@ == n ==> puts_applied(m, n, ops) == m.insert(ops[0].key@, ops[0].value@)
            .insert(ops[1].key@, ops[1].value@),
        ops[0].store@ != n ==> puts_applied(m, n, ops) == m,
{
    lemma_puts_applied_singleton(m, n, ops.drop_last());
    assert(ops.drop_last()[0] == ops[0]);
    assert(ops.last() == ops[1]);
}

/// Applying two removals removes both.
pub proof fn lemma_dels_applied_pair(m: Map<Seq<u8>, Seq<u8>>, n: Seq<char>, ops: Seq<DelOp>)
    requires
        ops.len() == 2,
        ops[0].store@ == ops[1].store@,
    ensures
        ops[0].store@ == n ==> dels_applied(m, n, ops) == m.remove(ops[0].key@).remove(
            ops[1].key@,
        ),
        ops[0].store@ != n ==> dels_applied(m, n, ops) == m,
{
    lemma_dels_applied_singleton(m, n, ops.drop_last());
    assert(ops.drop_last()[0] == ops[0]);
    assert(ops.last() == ops[1]);
}

/// Applying two writes to possibly different stores.
pub proof fn lemma_puts_applied_two(m: Map<Seq<u8>, Seq<u8>>, n: Seq<char>, ops: Seq<PutOp>)
    requires
        ops.len() == 2,
    ensures
        ops[0].store@ == n && ops[1].store@ == n ==> puts_applied(m, n, ops) == m.insert(
            ops[0].key@,
            ops[0].value@,
        ).insert(ops[1].key@, ops[1].value@),
        ops[0].store@ == n && ops[1].store@ != n ==> puts_applied(m, n, ops) == m.insert(
            ops[0].key@,
            ops[0].value@,
        ),
        ops[0].store@ != n && ops[1].store@ == n ==> puts_applied(m, n, ops) == m.insert(
            ops[1].key@,
            ops[1].value@,
        ),
        ops[0].store@ != n && ops[1].store@ != n ==> puts_applied(m, n, ops) == m,
{
    lemma_puts_applied_singleton(m, n, ops.drop_last());
    assert(ops.drop_last()[0] == ops[0]);
    assert(ops.last() == ops[1]);
}

/// Removals that never name store `n` leave it untouched.
pub proof fn lemma_dels_applied_other_store(m: Map<Seq<u8>, Seq<u8>>, n: Seq<char>, dels: Seq<DelOp>)
    requires
        forall|i: int| 0 <= i < dels.len() ==> (#[trigger] dels[i]).store@ != n,
    ensures
        dels_applied(m, n, dels) == m,
    decreases dels.len(),
{
    if dels.len() > 0 {
        assert(forall|i: int|
            0 <= i < dels.len() - 1 ==> dels.drop_last()[i] == dels[i]);
        lemma_dels_applied_other_store(m, n, dels.drop_last());
        assert(dels.last() == dels[dels.len() - 1]);
    }
}

/// A key survives the removals exactly when no removal names it, and
/// then keeps its value.
pub proof fn lemma_dels_applied_membership(
    m: Map<Seq<u8>, Seq<u8>>,
    n: Seq<char>,
    dels: Seq<DelOp>,
    k: Seq<u8>,
)
    ensures
        dels_applied(m, n, dels).contains_key(k) == (m.contains_key(k) && !exists|i: int|
            0 <= i < dels.len() && (#[trigger] dels[i].store@) == n && dels[i].key@ == k),
        dels_applied(m, n, dels).contains_key(k) ==> dels_applied(m, n, dels)[k] == m[k],
    decreases dels.len(),
{
    if dels.len() > 0 {
        lemma_dels_applied_membership(m, n, dels.drop_last(), k);
        let last = dels.last();
        assert(dels[dels.len() - 1] == last);
        if dels_applied(m, n, dels).contains_key(k) {
            assert(forall|i: int|
                0 <= i < dels.len() - 1 ==> dels.drop_last()[i] == dels[i]);
        }
        if m.contains_key(k) && !exists|i: int|
            0 <= i < dels.len() && (#[trigger] dels[i].store@) == n && dels[i].key@ == k {
            assert(forall|i: int|
                0 <= i < dels.len() - 1 ==> dels.drop_last()[i] == dels[i]);
            assert(!(last.store@ == n && last.key@ == k));
        }
    }
}

impl Storage {
    /// The contents of the store called `name`.
    pub open spec fn store_view(&self, name: Seq<char>) -> Map<Seq<u8>, Seq<u8>> {
        store_at(*self, name)
    }

    /// Every store of the engine instance is empty.
    pub open spec fn is_empty(&self) -> bool {
        forall|n: Seq<char>| #[trigger] store_at(*self, n) =~= Map::<Seq<u8>, Seq<u8>>::empty()
    }

    /// Relies on sled::Config::open with `temporary`: a fresh engine
    /// instance backed by a new empty directory, removed on drop.
    #[verifier::external_body]
    pub fn open_temporary() -> (r: Result<Storage, Error>)
        ensures
            r matches Ok(s) ==> s.is_empty(),
            r matches Err(e) ==> e is StorageEngineError,
    {
        match sled::Config::new().temporary(true).open() {
            Ok(db) => Ok(Storage { inner: db }),
            Err(_) => Err(Error::StorageEngineError),
        }
    }

    /// Relies on sled::open: opens (creating on first use) the engine
    /// instance persisted at `path`. Nothing is known of its contents:
    /// they are whatever the directory holds.
    #[verifier::external_body]
    pub fn open(path: &str) -> (r: Result<Storage, Error>)
        ensures
            r matches Err(e) ==> e is StorageEngineError,
    {
        match sled::open(path) {
            Ok(db) => Ok(Storage { inner: db }),
            Err(_) => Err(Error::StorageEngineError),
        }
    }

    /// Relies on sled::Tree::get (via Db::open_tree): the value last
    /// written under `key` in store `store`, if any.
    #[verifier::external_body]
    pub fn get(&self, store: &str, key: &[u8]) -> (r: Result<Option<Vec<u8>>, Error>)
        ensures
            r matches Err(e) ==> e is StorageEngineError,
            r matches Ok(o) ==> (o is Some <==> store_at(*self, store@).contains_key(key@)),
            r matches Ok(Some(v)) ==> v@ == store_at(*self, store@)[key@],
    {
        let t = match self.inner.open_tree(store) {
            Ok(t) => t,
            Err(_) => return Err(Error::StorageEngineError),
        };
        match t.get(key) {
            Ok(Some(v)) => Ok(Some(v.as_ref().to_vec())),
            Ok(None) => Ok(None),
            Err(_) => Err(Error::StorageEngineError),
        }
    }

    /// Relies on sled::Tree::scan_prefix: every record of the store
    /// whose key starts with `prefix`, in ascending byte order.
    #[verifier::external_body]
    pub fn scan_prefix(&self, store: &str, prefix: &[u8]) -> (r: Result<
        Vec<(Vec<u8>, Vec<u8>)>,
        Error,
    >)
        ensures
            r matches Err(e) ==> e is StorageEngineError,
            r matches Ok(v) ==> forall|i: int|
                0 <= i < v@.len() ==> has_prefix(#[trigger] v@[i].0@, prefix@)
                    && store_at(*self, store@).contains_key(v@[i].0@)
                    && v@[i].1@ == store_at(*self, store@)[v@[i].0@],
            r matches Ok(v) ==> forall|k: Seq<u8>|
                store_at(*self, store@).contains_key(k) && has_prefix(k, prefix@)
                    ==> exists|i: int| 0 <= i < v@.len() && #[trigger] v@[i].0@ == k,
            r matches Ok(v) ==> forall|i: int, j: int|
                0 <= i < j < v@.len() ==> lex_le(#[trigger] v@[i].0@, #[trigger] v@[j].0@)
                    && v@[i].0@ != v@[j].0@,
    {
        let t = match self.inner.open_tree(store) {
            Ok(t) => t,
            Err(_) => return Err(Error::StorageEngineError),
        };
        let mut out: Vec<(Vec<u8>, Vec<u8>)> = Vec::new();
        for item in t.scan_prefix(prefix) {
            match item {
                Ok((k, v)) => out.push((k.as_ref().to_vec(), v.as_ref().to_vec())),
                Err(_) => return Err(Error::StorageEngineError),
            }
        }
        Ok(out)
    }

    /// Relies on sled's multi-tree transaction over `[&Tree]`: all
    /// writes commit atomically, or none does and every store is as
    /// it was.
    #[verifier::external_body]
    pub fn put_many(&mut self, puts: &Vec<PutOp>) -> (r: Result<(), Error>)
        requires
            puts@.len() > 0,
        ensures
            r matches Err(e) ==> e is StorageEngineError,
            r is Ok ==> forall|n: Seq<char>|
                #[trigger] store_at(*final(self), n) =~= puts_applied(
                    store_at(*old(self), n),
                    n,
                    puts@,
                ),
            r is Err ==> forall|n: Seq<char>|
                #[trigger] store_at(*final(self), n) =~= store_at(*old(self), n),
    {
        let mut trees: Vec<sled::Tree> = Vec::new();
        for p in puts.iter() {
            trees.push(self.inner.open_tree(p.store.as_str()).map_err(|_| Error::StorageEngineError)?);
        }
        let refs: Vec<&sled::Tree> = trees.iter().collect();
        let res: sled::transaction::TransactionResult<(), ()> = refs[..].transaction(|tts| {
            for (i, p) in puts.iter().enumerate() {
                tts[i].insert(p.key.as_slice(), p.value.as_slice())?;
            }
            Ok(())
        });
        res.map_err(|_| Error::StorageEngineError)
    }

    /// Relies on sled's multi-tree transaction over `[&Tree]`: all
    /// removals commit atomically, or none does and every store is as
    /// it was.
    #[verifier::external_body]
    pub fn del_many(&mut self, dels: &Vec<DelOp>) -> (r: Result<(), Error>)
        requires
            dels@.len() > 0,
        ensures
            r matches Err(e) ==> e is StorageEngineError,
            r is Ok ==> forall|n: Seq<char>|
                #[trigger] store_at(*final(self), n) =~= dels_applied(
                    store_at(*old(self), n),
                    n,
                    dels@,
                ),
            r is Err ==> forall|n: Seq<char>|
                #[trigger] store_at(*final(self), n) =~= store_at(*old(self), n),
    {
        let mut trees: Vec<sled::Tree> = Vec::new();
        for d in dels.iter() {
            trees.push(self.inner.open_tree(d.store.as_str()).map_err(|_| Error::StorageEngineError)?);
        }
        let refs: Vec<&sled::Tree> = trees.iter().collect();
        let res: sled::transaction::TransactionResult<(), ()> = refs[..].transaction(|tts| {
            for (i, d) in dels.iter().enumerate() {
                tts[i].remove(d.key.as_slice())?;
            }
            Ok(())
        });
        res.map_err(|_| Error::StorageEngineError)
    }
}

} // verus!
