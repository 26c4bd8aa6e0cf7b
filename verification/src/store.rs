use vstd::prelude::*;

use crate::byteseq::starts_with;

verus! {

#[verifier::external_type_specification]
#[verifier::external_body]
pub struct ExDb(sled::Db);

#[verifier::external_type_specification]
#[verifier::external_body]
pub struct ExSledError(sled::Error);

/// What a store holds: the map from persisted keys to persisted values.
pub uninterp spec fn db_map(db: sled::Db) -> Map<Seq<u8>, Seq<u8>>;

/// One write of an atomic batch.
pub enum BatchOp {
    Put(Vec<u8>, Vec<u8>),
    Del(Vec<u8>),
}

/// The effect of one batched write on the store's contents.
pub open spec fn apply_op(m: Map<Seq<u8>, Seq<u8>>, op: BatchOp) -> Map<Seq<u8>, Seq<u8>> {
    match op {
        BatchOp::Put(k, v) => m.insert(k@, v@),
        BatchOp::Del(k) => m.remove(k@),
    }
}

/// The effect of a whole batch, applied in order.
pub open spec fn apply_ops(m: Map<Seq<u8>, Seq<u8>>, ops: Seq<BatchOp>) -> Map<Seq<u8>, Seq<u8>>
    decreases ops.len(),
{
    if ops.len() == 0 {
        m
    } else {
        apply_ops(apply_op(m, ops[0]), ops.subrange(1, ops.len() as int))
    }
}

/// The persistent key-value store. Its abstract contents are `db_map` of the
/// underlying handle; mutation goes through `apply_batch` alone, so the view
/// follows every write.
pub struct Store {
    pub db: sled::Db,
}

impl View for Store {
    type V = Map<Seq<u8>, Seq<u8>>;

    open spec fn view(&self) -> Map<Seq<u8>, Seq<u8>> {
        db_map(self.db)
    }
}

impl Store {
    /// Wraps an opened database handle.
    pub fn new(db: sled::Db) -> (s: Store)
        ensures
            s@ == db_map(db),
    {
        Store { db }
    }

    /// Relies on sled::Db::scan_prefix: it yields exactly the entries whose
    /// key begins with the prefix, each key once, with the stored value.
    #[verifier::external_body]
    pub fn scan_prefix(&self, prefix: &Vec<u8>) -> (r: Result<
        Vec<(Vec<u8>, Vec<u8>)>,
        sled::Error,
    >)
        ensures
            r matches Ok(entries) ==> {
                &&& forall|j: int|
                    0 <= j < entries@.len() ==> starts_with(#[trigger] entries@[j].0@, prefix@)
                        && db_map(self.db).contains_key(entries@[j].0@) && db_map(
                        self.db,
                    )[entries@[j].0@] == entries@[j].1@
                &&& forall|k: Seq<u8>|
                    #[trigger] db_map(self.db).contains_key(k) && starts_with(k, prefix@)
                        ==> exists|j: int| 0 <= j < entries@.len() && entries@[j].0@ == k
                &&& forall|j1: int, j2: int|
                    0 <= j1 < j2 < entries@.len() ==> entries@[j1].0@ != entries@[j2].0@
            },
    {
        let mut entries = Vec::new();
        for item in self.db.scan_prefix(prefix.as_slice()) {
            let (k, v) = item?;
            entries.push((k.as_ref().to_vec(), v.as_ref().to_vec()));
        }
        Ok(entries)
    }

    /// Relies on sled::Db::apply_batch: the batch is applied atomically and
    /// in order, and on failure nothing of it is applied.
    #[verifier::external_body]
    pub fn apply_batch(&mut self, ops: &Vec<BatchOp>) -> (r: Result<(), sled::Error>)
        ensures
            r is Ok ==> db_map(final(self).db) == apply_ops(db_map(old(self).db), ops@),
            r is Err ==> db_map(final(self).db) == db_map(old(self).db),
    {
        let mut batch = sled::Batch::default();
        for op in ops.iter() {
            match op {
                BatchOp::Put(k, v) => batch.insert(k.as_slice(), v.as_slice()),
                BatchOp::Del(k) => batch.remove(k.as_slice()),
            }
        }
        self.db.apply_batch(batch)
    }
}

} // verus!
