//! The mutation log: an ordered buffer of put, delete and delete-range
//! records tagged with their target family, with a stack of save points for
//! rollback. Nothing is validated at append time; a commit replays every
//! record in append order against the engine and applies the whole batch
//! atomically, or not at all.

use vstd::prelude::*;
use vstd::slice::slice_to_vec;
use crate::engine::{AgateEngine, WriteOptions};
use crate::error::Error;
use crate::keyspace::{
    all_keys_wf, contains_key, lemma_all_wf_after_set, lemma_all_wf_subset, same_except,
    spec_range_match, value_of, Keyspace,
};
use crate::order::{bytes_lt, lex_lt};
use crate::utils::{default_cf, lemma_encode_wf, spec_encode};

verus! {

/// A batch holding more records than this should be flushed by its caller.
pub const WRITE_BATCH_MAX_KEYS: usize = 128;

/// One buffered mutation record; `None` as family means the default one.
enum WriteBatchOpType {
    Put(Vec<u8>, Vec<u8>, Option<Vec<u8>>),
    Delete(Vec<u8>, Option<Vec<u8>>),
    DeleteRange(Vec<u8>, Vec<u8>, Option<Vec<u8>>),
}

/// The mathematical reading of one record.
pub enum BatchOp {
    Put(Seq<u8>, Seq<u8>, Option<Seq<u8>>),
    Delete(Seq<u8>, Option<Seq<u8>>),
    DeleteRange(Seq<u8>, Seq<u8>, Option<Seq<u8>>),
}

/// The family bytes a record addresses: the named family or the default.
pub open spec fn cf_or_default(cf: Option<Seq<u8>>) -> Seq<u8> {
    match cf {
        Some(c) => c,
        None => default_cf(),
    }
}

spec fn opt_view(v: Option<Vec<u8>>) -> Option<Seq<u8>> {
    match v {
        Some(b) => Some(b@),
        None => None,
    }
}

spec fn op_view(op: WriteBatchOpType) -> BatchOp {
    match op {
        WriteBatchOpType::Put(k, v, cf) => BatchOp::Put(k@, v@, opt_view(cf)),
        WriteBatchOpType::Delete(k, cf) => BatchOp::Delete(k@, opt_view(cf)),
        WriteBatchOpType::DeleteRange(b, e, cf) => BatchOp::DeleteRange(b@, e@, opt_view(cf)),
    }
}

/// The mathematical reading of a record buffer.
spec fn ops_of(s: Seq<WriteBatchOpType>) -> Seq<BatchOp>
    decreases s.len(),
{
    Seq::new(s.len(), |i: int| op_view(s[i]))
}

/// The keyspace read as a map from physical keys to values.
pub open spec fn map_of(es: Seq<(Seq<u8>, Seq<u8>)>) -> Map<Seq<u8>, Seq<u8>> {
    Map::new(|k: Seq<u8>| contains_key(es, k), |k: Seq<u8>| value_of(es, k))
}

/// What one record does to the keyspace map; `None` stands for a range whose
/// end sorts before its begin, which fails the whole replay.
pub open spec fn apply_op(m: Map<Seq<u8>, Seq<u8>>, op: BatchOp) -> Option<
    Map<Seq<u8>, Seq<u8>>,
> {
    match op {
        BatchOp::Put(k, v, cf) => Some(m.insert(spec_encode(cf_or_default(cf), k), v)),
        BatchOp::Delete(k, cf) => Some(m.remove(spec_encode(cf_or_default(cf), k))),
        BatchOp::DeleteRange(b, e, cf) => {
            if lex_lt(e, b) {
                None
            } else {
                Some(
                    Map::new(
                        |p: Seq<u8>|
                            m.dom().contains(p) && !spec_range_match(
                                p,
                                cf_or_default(cf),
                                b,
                                e,
                                false,
                            ),
                        |p: Seq<u8>| m[p],
                    ),
                )
            }
        },
    }
}

/// Replaying a record sequence in append order, atomically: any invalid
/// range poisons the whole replay.
pub open spec fn replay(m: Map<Seq<u8>, Seq<u8>>, ops: Seq<BatchOp>) -> Option<
    Map<Seq<u8>, Seq<u8>>,
>
    decreases ops.len(),
{
    if ops.len() == 0 {
        Some(m)
    } else {
        match replay(m, ops.drop_last()) {
            None => None,
            Some(m2) => apply_op(m2, ops.last()),
        }
    }
}

/// Once a replay has failed, appending more records cannot save it.
pub proof fn lemma_replay_none_sticky(m: Map<Seq<u8>, Seq<u8>>, ops: Seq<BatchOp>, i: int)
    requires
        0 <= i <= ops.len(),
        replay(m, ops.take(i)) is None,
    ensures
        replay(m, ops) is None,
    decreases ops.len() - i,
{
    if i < ops.len() {
        assert(ops.take(i + 1).drop_last() =~= ops.take(i));
        assert(replay(m, ops.take(i + 1)) is None);
        lemma_replay_none_sticky(m, ops, i + 1);
    } else {
        assert(ops.take(i) =~= ops);
    }
}

/// A point write moves the keyspace map to the map with that key bound.
pub proof fn lemma_map_of_set(
    es1: Seq<(Seq<u8>, Seq<u8>)>,
    es2: Seq<(Seq<u8>, Seq<u8>)>,
    k: Seq<u8>,
    v: Seq<u8>,
)
    requires
        contains_key(es2, k),
        value_of(es2, k) == v,
        same_except(es1, es2, k),
    ensures
        map_of(es2) == map_of(es1).insert(k, v),
{
    assert forall|p: Seq<u8>| #[trigger]
        map_of(es2).dom().contains(p) implies map_of(es1).insert(k, v).dom().contains(p) by {
        if p != k {
            assert(contains_key(es1, p));
        }
    }
    assert forall|p: Seq<u8>| #[trigger]
        map_of(es1).insert(k, v).dom().contains(p) implies map_of(es2).dom().contains(p) by {
        if p != k {
            assert(contains_key(es1, p));
            assert(contains_key(es2, p));
        }
    }
    assert(map_of(es2).dom() =~= map_of(es1).insert(k, v).dom());
    assert forall|p: Seq<u8>| #[trigger]
        map_of(es2).dom().contains(p) implies map_of(es2)[p] == map_of(es1).insert(k, v)[p] by {
        if p != k {
            assert(contains_key(es1, p));
            assert(value_of(es1, p) == value_of(es2, p));
        }
    }
    assert(map_of(es2) =~= map_of(es1).insert(k, v));
}

/// A point delete moves the keyspace map to the map with that key removed.
pub proof fn lemma_map_of_remove(
    es1: Seq<(Seq<u8>, Seq<u8>)>,
    es2: Seq<(Seq<u8>, Seq<u8>)>,
    k: Seq<u8>,
)
    requires
        !contains_key(es2, k),
        same_except(es1, es2, k),
    ensures
        map_of(es2) == map_of(es1).remove(k),
{
    assert forall|p: Seq<u8>| #[trigger]
        map_of(es2).dom().contains(p) implies map_of(es1).remove(k).dom().contains(p) by {
        assert(p != k);
        assert(contains_key(es1, p));
    }
    assert forall|p: Seq<u8>| #[trigger]
        map_of(es1).remove(k).dom().contains(p) implies map_of(es2).dom().contains(p) by {
        assert(p != k);
        assert(contains_key(es2, p));
    }
    assert(map_of(es2).dom() =~= map_of(es1).remove(k).dom());
    assert forall|p: Seq<u8>| #[trigger]
        map_of(es2).dom().contains(p) implies map_of(es2)[p] == map_of(es1).remove(k)[p] by {
        assert(p != k);
        assert(value_of(es1, p) == value_of(es2, p));
    }
    assert(map_of(es2) =~= map_of(es1).remove(k));
}

/// A range removal moves the keyspace map to its restriction outside the
/// range.
pub proof fn lemma_map_of_remove_range(
    es1: Seq<(Seq<u8>, Seq<u8>)>,
    es2: Seq<(Seq<u8>, Seq<u8>)>,
    cf: Seq<u8>,
    b: Seq<u8>,
    e: Seq<u8>,
)
    requires
        forall|p: Seq<u8>|
            #![trigger contains_key(es2, p)]
            contains_key(es2, p) == (contains_key(es1, p) && !spec_range_match(
                p,
                cf,
                b,
                e,
                false,
            )),
        forall|p: Seq<u8>|
            #![trigger value_of(es2, p)]
            contains_key(es2, p) ==> value_of(es2, p) == value_of(es1, p),
    ensures
        map_of(es2) == Map::new(
            |p: Seq<u8>| map_of(es1).dom().contains(p) && !spec_range_match(p, cf, b, e, false),
            |p: Seq<u8>| map_of(es1)[p],
        ),
{
    let target = Map::new(
        |p: Seq<u8>| map_of(es1).dom().contains(p) && !spec_range_match(p, cf, b, e, false),
        |p: Seq<u8>| map_of(es1)[p],
    );
    assert forall|p: Seq<u8>| #[trigger]
        map_of(es2).dom().contains(p) implies target.dom().contains(p) by {
        assert(contains_key(es1, p));
    }
    assert forall|p: Seq<u8>| #[trigger] target.dom().contains(p) implies map_of(
        es2,
    ).dom().contains(p) by {
        assert(contains_key(es2, p));
    }
    assert(map_of(es2).dom() =~= target.dom());
    assert forall|p: Seq<u8>| #[trigger] map_of(es2).dom().contains(p) implies map_of(es2)[p]
        == target[p] by {
        assert(value_of(es2, p) == value_of(es1, p));
    }
    assert(map_of(es2) =~= target);
}

/// The physical key a record's key and family tag stand for.
fn encode_tagged(key: &[u8], cf: &Option<Vec<u8>>) -> (r: Vec<u8>)
    ensures
        r@ == spec_encode(cf_or_default(opt_view(*cf)), key@),
{
    let mut t: Vec<u8> = match cf {
        Some(c) => slice_to_vec(c.as_slice()),
        None => crate::utils::default_cf_bytes(),
    };
    t.push(64u8);
    t.push(33u8);
    t.push(64u8);
    let mut tail = slice_to_vec(key);
    t.append(&mut tail);
    proof {
        assert(t@ =~= spec_encode(cf_or_default(opt_view(*cf)), key@));
    }
    t
}

/// A record's family tag as bytes, the default family when absent.
fn tag_bytes(cf: &Option<Vec<u8>>) -> (r: Vec<u8>)
    ensures
        r@ == cf_or_default(opt_view(*cf)),
{
    match cf {
        Some(c) => slice_to_vec(c.as_slice()),
        None => crate::utils::default_cf_bytes(),
    }
}

/// The ordered, buffered mutation log.
pub struct AgateWriteBatch {
    operations: Vec<WriteBatchOpType>,
    save_points: Vec<usize>,
}

impl AgateWriteBatch {
    /// The buffered records, in append order.
    pub closed spec fn ops(self) -> Seq<BatchOp> {
        ops_of(self.operations@)
    }

    /// The save-point stack: record counts marking rollback targets.
    pub closed spec fn sps(self) -> Seq<usize> {
        self.save_points@
    }

    #[verifier::type_invariant]
    spec fn inv(self) -> bool {
        &&& forall|i: int|
            0 <= i < self.save_points@.len() ==> (#[trigger] self.save_points@[i])
                <= self.operations@.len()
        &&& forall|i: int, j: int|
            0 <= i < j < self.save_points@.len() ==> (#[trigger] self.save_points@[i]) <= (
            #[trigger] self.save_points@[j])
    }

    /// A fresh, empty batch.
    pub fn new() -> (r: AgateWriteBatch)
        ensures
            r.ops().len() == 0,
            r.sps().len() == 0,
    {
        AgateWriteBatch { operations: Vec::new(), save_points: Vec::new() }
    }

    /// How many records are buffered.
    pub fn count(&self) -> (r: usize)
        ensures
            r == self.ops().len(),
    {
        self.operations.len()
    }

    /// Is the buffer empty?
    pub fn is_empty(&self) -> (r: bool)
        ensures
            r == (self.ops().len() == 0),
    {
        self.operations.is_empty()
    }

    /// The batch holds one record more than the flush threshold: time for
    /// the caller to flush. Advisory only; the log never flushes itself.
    pub fn should_write_to_engine(&self) -> (r: bool)
        ensures
            r == (self.ops().len() > WRITE_BATCH_MAX_KEYS),
    {
        self.count() > WRITE_BATCH_MAX_KEYS
    }

    /// Drop every record and every save point.
    pub fn clear(&mut self)
        ensures
            final(self).ops().len() == 0,
            final(self).sps().len() == 0,
    {
        self.save_points = Vec::new();
        self.operations = Vec::new();
    }

    /// Mark the current record count as a rollback target.
    pub fn set_save_point(&mut self)
        ensures
            final(self).ops() == old(self).ops(),
            final(self).sps() == old(self).sps().push(old(self).ops().len() as usize),
    {
        proof {
            use_type_invariant(&*self);
        }
        let n = self.operations.len();
        let mut sp: Vec<usize> = Vec::new();
        core::mem::swap(&mut sp, &mut self.save_points);
        sp.push(n);
        self.save_points = sp;
        proof {
            assert(final(self).ops() =~= old(self).ops());
        }
    }

    /// Discard the most recent save point without touching the records.
    pub fn pop_save_point(&mut self) -> (r: Result<(), Error>)
        ensures
            old(self).sps().len() == 0 ==> r == Err::<(), Error>(Error::NoSavePoint) && *final(self)
                == *old(self),
            old(self).sps().len() > 0 ==> r == Ok::<(), Error>(()) && final(self).ops() == old(
                self,
            ).ops() && final(self).sps() == old(self).sps().drop_last(),
    {
        proof {
            use_type_invariant(&*self);
        }
        if self.save_points.is_empty() {
            return Err(Error::NoSavePoint);
        }
        let mut sp: Vec<usize> = Vec::new();
        core::mem::swap(&mut sp, &mut self.save_points);
        sp.pop();
        self.save_points = sp;
        proof {
            assert(final(self).ops() =~= old(self).ops());
            assert(final(self).sps() =~= old(self).sps().drop_last());
        }
        Ok(())
    }

    /// Truncate the records back to the most recent save point and discard
    /// it.
    pub fn rollback_to_save_point(&mut self) -> (r: Result<(), Error>)
        ensures
            old(self).sps().len() == 0 ==> r == Err::<(), Error>(Error::NoSavePoint) && *final(self)
                == *old(self),
            old(self).sps().len() > 0 ==> r == Ok::<(), Error>(()) && final(self).ops() == old(
                self,
            ).ops().take(old(self).sps().last() as int) && final(self).sps() == old(
                self,
            ).sps().drop_last(),
    {
        proof {
            use_type_invariant(&*self);
        }
        if self.save_points.is_empty() {
            return Err(Error::NoSavePoint);
        }
        let mut sps: Vec<usize> = Vec::new();
        core::mem::swap(&mut sps, &mut self.save_points);
        let mut ops: Vec<WriteBatchOpType> = Vec::new();
        core::mem::swap(&mut ops, &mut self.operations);
        let sp = match sps.pop() {
            Some(v) => v,
            None => 0,
        };
        ops.truncate(sp);
        proof {
            assert forall|j: int| 0 <= j < sps@.len() implies (#[trigger] sps@[j]) <= ops@.len() by {
                assert(old(self).save_points@[j] <= old(self).save_points@[
                    old(self).save_points@.len() - 1
                ]);
            }
        }
        self.operations = ops;
        self.save_points = sps;
        proof {
            assert(final(self).ops() =~= old(self).ops().take(sp as int));
            assert(final(self).sps() =~= old(self).sps().drop_last());
        }
        Ok(())
    }

    /// Buffer a put against the default family.
    pub fn put(&mut self, key: &[u8], value: &[u8]) -> (r: Result<(), Error>)
        ensures
            r == Ok::<(), Error>(()),
            final(self).ops() == old(self).ops().push(
                BatchOp::Put(key@, value@, None::<Seq<u8>>),
            ),
            final(self).sps() == old(self).sps(),
    {
        proof {
            use_type_invariant(&*self);
        }
        let mut sps: Vec<usize> = Vec::new();
        core::mem::swap(&mut sps, &mut self.save_points);
        let mut ops: Vec<WriteBatchOpType> = Vec::new();
        core::mem::swap(&mut ops, &mut self.operations);
        ops.push(WriteBatchOpType::Put(slice_to_vec(key), slice_to_vec(value), None));
        self.operations = ops;
        self.save_points = sps;
        proof {
            assert(final(self).ops() =~= old(self).ops().push(
                BatchOp::Put(key@, value@, None::<Seq<u8>>),
            ));
        }
        Ok(())
    }

    /// Buffer a put against the named family.
    pub fn put_cf(&mut self, cf: &str, key: &[u8], value: &[u8]) -> (r: Result<(), Error>)
        ensures
            r == Ok::<(), Error>(()),
            final(self).ops() == old(self).ops().push(
                BatchOp::Put(key@, value@, Some(crate::utils::str_bytes(cf@))),
            ),
            final(self).sps() == old(self).sps(),
    {
        proof {
            use_type_invariant(&*self);
        }
        let mut sps: Vec<usize> = Vec::new();
        core::mem::swap(&mut sps, &mut self.save_points);
        let mut ops: Vec<WriteBatchOpType> = Vec::new();
        core::mem::swap(&mut ops, &mut self.operations);
        ops.push(WriteBatchOpType::Put(
                slice_to_vec(key),
                slice_to_vec(value),
                Some(slice_to_vec(cf.as_bytes())),
            ));
        self.operations = ops;
        self.save_points = sps;
        proof {
            assert(final(self).ops() =~= old(self).ops().push(
                BatchOp::Put(key@, value@, Some(crate::utils::str_bytes(cf@))),
            ));
        }
        Ok(())
    }

    /// Buffer a delete against the default family.
    pub fn delete(&mut self, key: &[u8]) -> (r: Result<(), Error>)
        ensures
            r == Ok::<(), Error>(()),
            final(self).ops() == old(self).ops().push(BatchOp::Delete(key@, None::<Seq<u8>>)),
            final(self).sps() == old(self).sps(),
    {
        proof {
            use_type_invariant(&*self);
        }
        let mut sps: Vec<usize> = Vec::new();
        core::mem::swap(&mut sps, &mut self.save_points);
        let mut ops: Vec<WriteBatchOpType> = Vec::new();
        core::mem::swap(&mut ops, &mut self.operations);
        ops.push(WriteBatchOpType::Delete(slice_to_vec(key), None));
        self.operations = ops;
        self.save_points = sps;
        proof {
            assert(final(self).ops() =~= old(self).ops().push(
                BatchOp::Delete(key@, None::<Seq<u8>>),
            ));
        }
        Ok(())
    }

    /// Buffer a delete against the named family.
    pub fn delete_cf(&mut self, cf: &str, key: &[u8]) -> (r: Result<(), Error>)
        ensures
            r == Ok::<(), Error>(()),
            final(self).ops() == old(self).ops().push(
                BatchOp::Delete(key@, Some(crate::utils::str_bytes(cf@))),
            ),
            final(self).sps() == old(self).sps(),
    {
        proof {
            use_type_invariant(&*self);
        }
        let mut sps: Vec<usize> = Vec::new();
        core::mem::swap(&mut sps, &mut self.save_points);
        let mut ops: Vec<WriteBatchOpType> = Vec::new();
        core::mem::swap(&mut ops, &mut self.operations);
        ops.push(WriteBatchOpType::Delete(slice_to_vec(key), Some(slice_to_vec(cf.as_bytes()))));
        self.operations = ops;
        self.save_points = sps;
        proof {
            assert(final(self).ops() =~= old(self).ops().push(
                BatchOp::Delete(key@, Some(crate::utils::str_bytes(cf@))),
            ));
        }
        Ok(())
    }

    /// Buffer a range delete against the default family. The range is not
    /// validated here: validation is deferred to the replay.
    pub fn delete_range(&mut self, begin_key: &[u8], end_key: &[u8]) -> (r: Result<(), Error>)
        ensures
            r == Ok::<(), Error>(()),
            final(self).ops() == old(self).ops().push(
                BatchOp::DeleteRange(begin_key@, end_key@, None::<Seq<u8>>),
            ),
            final(self).sps() == old(self).sps(),
    {
        proof {
            use_type_invariant(&*self);
        }
        let mut sps: Vec<usize> = Vec::new();
        core::mem::swap(&mut sps, &mut self.save_points);
        let mut ops: Vec<WriteBatchOpType> = Vec::new();
        core::mem::swap(&mut ops, &mut self.operations);
        ops.push(WriteBatchOpType::DeleteRange(slice_to_vec(begin_key), slice_to_vec(end_key), None));
        self.operations = ops;
        self.save_points = sps;
        proof {
            assert(final(self).ops() =~= old(self).ops().push(
                BatchOp::DeleteRange(begin_key@, end_key@, None::<Seq<u8>>),
            ));
        }
        Ok(())
    }

    /// Buffer a range delete against the named family.
    pub fn delete_range_cf(&mut self, cf: &str, begin_key: &[u8], end_key: &[u8]) -> (r: Result<
        (),
        Error,
    >)
        ensures
            r == Ok::<(), Error>(()),
            final(self).ops() == old(self).ops().push(
                BatchOp::DeleteRange(begin_key@, end_key@, Some(crate::utils::str_bytes(cf@))),
            ),
            final(self).sps() == old(self).sps(),
    {
        proof {
            use_type_invariant(&*self);
        }
        let mut sps: Vec<usize> = Vec::new();
        core::mem::swap(&mut sps, &mut self.save_points);
        let mut ops: Vec<WriteBatchOpType> = Vec::new();
        core::mem::swap(&mut ops, &mut self.operations);
        ops.push(WriteBatchOpType::DeleteRange(
                slice_to_vec(begin_key),
                slice_to_vec(end_key),
                Some(slice_to_vec(cf.as_bytes())),
            ));
        self.operations = ops;
        self.save_points = sps;
        proof {
            assert(final(self).ops() =~= old(self).ops().push(
                BatchOp::DeleteRange(begin_key@, end_key@, Some(crate::utils::str_bytes(cf@))),
            ));
        }
        Ok(())
    }

    /// Append a copy of another log's records onto this one, in their
    /// order; the other log and this log's save points are left as they
    /// are.
    pub fn merge(&mut self, src: &AgateWriteBatch) -> (r: Result<(), Error>)
        ensures
            r == Ok::<(), Error>(()),
            final(self).ops() == old(self).ops() + src.ops(),
            final(self).sps() == old(self).sps(),
    {
        proof {
            use_type_invariant(&*self);
        }
        let mut sps: Vec<usize> = Vec::new();
        core::mem::swap(&mut sps, &mut self.save_points);
        let mut ops: Vec<WriteBatchOpType> = Vec::new();
        core::mem::swap(&mut ops, &mut self.operations);
        let n = src.operations.len();
        let mut i: usize = 0;
        while i < n
            invariant
                i <= n,
                n == src.operations@.len(),
                ops@.len() == old(self).operations@.len() + i,
                ops_of(ops@) =~= old(self).ops() + src.ops().take(i as int),
            decreases n - i,
        {
            let op = clone_op(&src.operations[i]);
            let ghost pre = ops@;
            ops.push(op);
            proof {
                assert forall|j: int| 0 <= j < ops@.len() implies ops_of(ops@)[j] == (old(
                    self,
                ).ops() + src.ops().take(i + 1))[j] by {
                    if j < pre.len() {
                        assert(ops@[j] == pre[j]);
                        assert(ops_of(pre)[j] == (old(self).ops() + src.ops().take(i as int))[j]);
                    } else {
                        assert(ops@[j] == op);
                        assert(op_view(op) == op_view(src.operations@[i as int]));
                        assert(src.ops().take(i + 1)[j - old(self).ops().len()] == src.ops()[
                            i as int
                        ]);
                    }
                }
                assert(ops_of(ops@) =~= old(self).ops() + src.ops().take(i + 1));
            }
            i = i + 1;
        }
        proof {
            assert(src.ops().take(n as int) =~= src.ops());
            assert forall|j: int| 0 <= j < sps@.len() implies (#[trigger] sps@[j]) <= ops@.len() by {
                assert(old(self).save_points@[j] <= old(self).operations@.len());
            }
        }
        self.operations = ops;
        self.save_points = sps;
        Ok(())
    }

    /// Replay every buffered record in append order against the engine, as
    /// one atomic commit: either the whole batch applies, or a range whose
    /// end sorts before its begin is found during the replay and storage is
    /// left exactly as it was. The records and save points stay buffered
    /// either way; the caller decides whether to retry or discard.
    pub fn write_opt(&self, engine: &mut AgateEngine, opts: &WriteOptions) -> (r: Result<
        (),
        Error,
    >)
        ensures
            match replay(map_of(old(engine).kv()), self.ops()) {
                Some(m2) => r == Ok::<(), Error>(()) && map_of(final(engine).kv()) == m2 && final(engine).names() == old(engine).names(),
                None => r == Err::<(), Error>(Error::InvalidRange) && *final(engine) == *old(engine),
            },
    {
        let _ = opts;
        proof {
            use_type_invariant(&*self);
        }
        let ghost m0 = map_of(engine.kv());
        let mut work = engine.dup_store();
        let n = self.operations.len();
        let mut i: usize = 0;
        while i < n
            invariant
                i <= n,
                n == self.operations@.len(),
                m0 == map_of(old(engine).kv()),
                *engine == *old(engine),
                all_keys_wf(work.kv()),
                replay(m0, self.ops().take(i as int)) == Some(map_of(work.kv())),
            decreases n - i,
        {
            let ghost mcur = map_of(work.kv());
            let ghost es_pre = work.kv();
            proof {
                assert(self.ops().take(i + 1).drop_last() =~= self.ops().take(i as int));
                assert(self.ops().take(i + 1).last() == self.ops()[i as int]);
            }
            match &self.operations[i] {
                WriteBatchOpType::Put(k, v, cf) => {
                    let pk = encode_tagged(k.as_slice(), cf);
                    work.set(pk, slice_to_vec(v.as_slice()));
                    proof {
                        lemma_encode_wf(cf_or_default(opt_view(*cf)), k@);
                        lemma_all_wf_after_set(es_pre, work.kv(), spec_encode(cf_or_default(opt_view(*cf)), k@));
                        lemma_map_of_set(es_pre, work.kv(), spec_encode(cf_or_default(opt_view(*cf)), k@), v@);
                    }
                },
                WriteBatchOpType::Delete(k, cf) => {
                    let pk = encode_tagged(k.as_slice(), cf);
                    work.remove(pk.as_slice());
                    proof {
                        lemma_encode_wf(cf_or_default(opt_view(*cf)), k@);
                        lemma_all_wf_after_set(es_pre, work.kv(), spec_encode(cf_or_default(opt_view(*cf)), k@));
                        lemma_map_of_remove(es_pre, work.kv(), spec_encode(cf_or_default(opt_view(*cf)), k@));
                    }
                },
                WriteBatchOpType::DeleteRange(b, e, cf) => {
                    if bytes_lt(e.as_slice(), b.as_slice()) {
                        proof {
                            assert(replay(m0, self.ops().take(i + 1)) is None);
                            lemma_replay_none_sticky(m0, self.ops(), i + 1);
                        }
                        return Err(Error::InvalidRange);
                    }
                    let cfb = tag_bytes(cf);
                    work.remove_range(cfb.as_slice(), b.as_slice(), e.as_slice(), false);
                    proof {
                        lemma_all_wf_subset(es_pre, work.kv());
                        lemma_map_of_remove_range(es_pre, work.kv(), cf_or_default(opt_view(*cf)), b@, e@);
                    }
                },
            }
            i = i + 1;
        }
        proof {
            assert(self.ops().take(n as int) =~= self.ops());
        }
        engine.replace_store(work);
        Ok(())
    }

    /// Replay the batch with default commit options.
    pub fn write(&self, engine: &mut AgateEngine) -> (r: Result<(), Error>)
        ensures
            match replay(map_of(old(engine).kv()), self.ops()) {
                Some(m2) => r == Ok::<(), Error>(()) && map_of(final(engine).kv()) == m2 && final(engine).names() == old(engine).names(),
                None => r == Err::<(), Error>(Error::InvalidRange) && *final(engine) == *old(engine),
            },
    {
        self.write_opt(engine, &WriteOptions::default())
    }

    /// The approximate byte size of the buffer: the summed key, value and
    /// family-name lengths of every record, saturating at the machine
    /// limit.
    pub fn data_size(&self) -> (r: usize)
        ensures
            r == spec_total_size(self.ops()),
    {
        proof {
            use_type_invariant(&*self);
        }
        let n = self.operations.len();
        let mut acc: usize = 0;
        let mut i: usize = 0;
        while i < n
            invariant
                i <= n,
                n == self.operations@.len(),
                acc == spec_total_size(self.ops().take(i as int)),
            decreases n - i,
        {
            let sz = op_size(&self.operations[i]);
            acc = sat_add_usize(acc, sz);
            proof {
                assert(self.ops().take(i + 1).drop_last() =~= self.ops().take(i as int));
                assert(self.ops().take(i + 1).last() == self.ops()[i as int]);
            }
            i = i + 1;
        }
        proof {
            assert(self.ops().take(n as int) =~= self.ops());
        }
        acc
    }
}

/// Saturating addition on machine-sized counts.
pub open spec fn spec_sat_add(a: int, b: int) -> int {
    if a + b <= usize::MAX {
        a + b
    } else {
        usize::MAX as int
    }
}

/// The counted size of one record.
pub open spec fn spec_op_size(op: BatchOp) -> int {
    match op {
        BatchOp::Put(k, v, cf) => spec_sat_add(
            spec_sat_add(k.len() as int, v.len() as int),
            cf_len(cf),
        ),
        BatchOp::Delete(k, cf) => spec_sat_add(k.len() as int, cf_len(cf)),
        BatchOp::DeleteRange(b, e, cf) => spec_sat_add(
            spec_sat_add(b.len() as int, e.len() as int),
            cf_len(cf),
        ),
    }
}

/// The length of a record's family tag; an absent tag counts for nothing.
pub open spec fn cf_len(cf: Option<Seq<u8>>) -> int {
    match cf {
        Some(c) => c.len() as int,
        None => 0,
    }
}

/// The saturating sum of all record sizes.
pub open spec fn spec_total_size(ops: Seq<BatchOp>) -> int
    decreases ops.len(),
{
    if ops.len() == 0 {
        0
    } else {
        spec_sat_add(spec_total_size(ops.drop_last()), spec_op_size(ops.last()))
    }
}

fn sat_add_usize(a: usize, b: usize) -> (r: usize)
    ensures
        r == spec_sat_add(a as int, b as int),
{
    if a <= usize::MAX - b {
        a + b
    } else {
        usize::MAX
    }
}

fn op_size(op: &WriteBatchOpType) -> (r: usize)
    ensures
        r == spec_op_size(op_view(*op)),
{
    match op {
        WriteBatchOpType::Put(k, v, cf) => sat_add_usize(
            sat_add_usize(k.len(), v.len()),
            cf_tag_len(cf),
        ),
        WriteBatchOpType::Delete(k, cf) => sat_add_usize(k.len(), cf_tag_len(cf)),
        WriteBatchOpType::DeleteRange(b, e, cf) => sat_add_usize(
            sat_add_usize(b.len(), e.len()),
            cf_tag_len(cf),
        ),
    }
}

fn cf_tag_len(cf: &Option<Vec<u8>>) -> (r: usize)
    ensures
        r == cf_len(opt_view(*cf)),
{
    match cf {
        Some(c) => c.len(),
        None => 0,
    }
}

fn clone_op(op: &WriteBatchOpType) -> (r: WriteBatchOpType)
    ensures
        op_view(r) == op_view(*op),
{
    match op {
        WriteBatchOpType::Put(k, v, cf) => WriteBatchOpType::Put(
            slice_to_vec(k.as_slice()),
            slice_to_vec(v.as_slice()),
            clone_tag(cf),
        ),
        WriteBatchOpType::Delete(k, cf) => WriteBatchOpType::Delete(
            slice_to_vec(k.as_slice()),
            clone_tag(cf),
        ),
        WriteBatchOpType::DeleteRange(b, e, cf) => WriteBatchOpType::DeleteRange(
            slice_to_vec(b.as_slice()),
            slice_to_vec(e.as_slice()),
            clone_tag(cf),
        ),
    }
}

fn clone_tag(cf: &Option<Vec<u8>>) -> (r: Option<Vec<u8>>)
    ensures
        opt_view(r) == opt_view(*cf),
{
    match cf {
        Some(c) => Some(slice_to_vec(c.as_slice())),
        None => None,
    }
}

/// Rollback law: a save point marks the record count, appends only extend
/// the buffer, and truncating back to the mark recovers exactly the records
/// buffered when the mark was set — so a rollback undoes the appends and
/// nothing else.
pub proof fn lemma_rollback_restores(ops0: Seq<BatchOp>, appended: Seq<BatchOp>)
    ensures
        (ops0 + appended).take(ops0.len() as int) == ops0,
{
    assert((ops0 + appended).take(ops0.len() as int) =~= ops0);
}

} // verus!
