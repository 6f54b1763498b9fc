//! The sorted-table adapter: a builder that enforces strictly increasing
//! physical-key order while writing live entries and tombstones, a sealed
//! immutable table, and a reader whose cursor consumes tombstones on both
//! forward and backward traversal so that callers only ever observe live
//! entries.

use vstd::prelude::*;
use vstd::slice::slice_to_vec;
use crate::error::Error;
use crate::engine::{AgateEngine, IterOptions, SeekKey};
use crate::order::{bytes_eq, bytes_lt, lex_le, lex_lt, lemma_lex_trichotomy};
use crate::utils::{
    decode_physical, lemma_encode_wf, spec_decode_cf, spec_decode_key, spec_encode, str_bytes,
    wf_physical_key,
};
use crate::write_batch::{cf_or_default, spec_sat_add};

verus! {

/// One sealed-table record: physical key, value bytes, and whether it is a
/// tombstone.
pub struct SstRecord {
    pub key: Vec<u8>,
    pub value: Vec<u8>,
    pub deleted: bool,
}

/// The mathematical reading of a record sequence.
pub open spec fn recs_of(s: Seq<SstRecord>) -> Seq<(Seq<u8>, Seq<u8>, bool)> {
    Seq::new(s.len(), |i: int| (s[i].key@, s[i].value@, s[i].deleted))
}

/// Keys strictly increase along the records.
pub open spec fn sorted_recs(es: Seq<(Seq<u8>, Seq<u8>, bool)>) -> bool {
    forall|i: int, j: int|
        0 <= i < j < es.len() ==> lex_lt((#[trigger] es[i]).0, (#[trigger] es[j]).0)
}

/// Every record key is a well-formed physical key.
pub open spec fn recs_wf(es: Seq<(Seq<u8>, Seq<u8>, bool)>) -> bool {
    forall|i: int| 0 <= i < es.len() ==> wf_physical_key((#[trigger] es[i]).0)
}

/// The record at `i` belongs to family `cf`.
pub open spec fn cf_at(es: Seq<(Seq<u8>, Seq<u8>, bool)>, cf: Seq<u8>, i: int) -> bool {
    0 <= i < es.len() && spec_decode_cf(es[i].0) == cf
}

/// The record at `i` is a tombstone of family `cf`: a cursor walks over it.
pub open spec fn skippable(es: Seq<(Seq<u8>, Seq<u8>, bool)>, cf: Seq<u8>, i: int) -> bool {
    cf_at(es, cf, i) && es[i].2
}

/// `p` is the first record position at or after key `t`.
pub open spec fn first_ge_rec(es: Seq<(Seq<u8>, Seq<u8>, bool)>, t: Seq<u8>, p: int) -> bool {
    &&& 0 <= p <= es.len()
    &&& forall|j: int| 0 <= j < p ==> lex_lt((#[trigger] es[j]).0, t)
    &&& (p < es.len() ==> lex_le(t, es[p].0))
}

/// Walking forward from `start`, position `j` is where the tombstone run of
/// family `cf` ends.
pub open spec fn fwd_stop(
    es: Seq<(Seq<u8>, Seq<u8>, bool)>,
    cf: Seq<u8>,
    start: int,
    j: int,
) -> bool {
    &&& start <= j <= es.len()
    &&& (forall|m: int| start <= m < j ==> skippable(es, cf, m))
    &&& (j == es.len() || !skippable(es, cf, j))
}

/// Walking backward from `start`, position `j` is where the tombstone run of
/// family `cf` ends; `-1` means the cursor fell off the front.
pub open spec fn bwd_stop(
    es: Seq<(Seq<u8>, Seq<u8>, bool)>,
    cf: Seq<u8>,
    start: int,
    j: int,
) -> bool {
    &&& -1 <= j <= start
    &&& (forall|m: int| j < m <= start ==> skippable(es, cf, m))
    &&& (j == -1 || !skippable(es, cf, j))
}

/// The size estimate a builder keeps: summed key and value lengths,
/// saturating at the machine limit.
pub open spec fn est_of(es: Seq<(Seq<u8>, Seq<u8>, bool)>) -> int
    decreases es.len(),
{
    if es.len() == 0 {
        0
    } else {
        spec_sat_add(
            est_of(es.drop_last()),
            spec_sat_add(es.last().0.len() as int, es.last().1.len() as int),
        )
    }
}

/// The compression applied to table blocks; the in-memory model records the
/// choice and compresses nothing.
#[derive(Clone, Copy, Debug, PartialEq, Eq, Structural)]
pub enum SstCompressionType {
    Lz4,
    Snappy,
    Zstd,
}

/// A sealed, immutable sorted table.
pub struct AgateSstTable {
    records: Vec<SstRecord>,
}

impl AgateSstTable {
    /// The records held, in key order, tombstones included.
    pub closed spec fn recs(self) -> Seq<(Seq<u8>, Seq<u8>, bool)> {
        recs_of(self.records@)
    }

    #[verifier::type_invariant]
    spec fn inv(self) -> bool {
        sorted_recs(recs_of(self.records@)) && recs_wf(recs_of(self.records@))
    }
}

/// Configuration for a sorted-table writer.
pub struct AgateSstWriterBuilder {
    cf_name: Option<Vec<u8>>,
    in_memory: bool,
    compression_type: Option<SstCompressionType>,
    compression_level: i32,
}

impl AgateSstWriterBuilder {
    /// The family the writer will encode keys into, if one was chosen.
    pub closed spec fn s_cf(self) -> Option<Seq<u8>> {
        match self.cf_name {
            Some(c) => Some(c@),
            None => None,
        }
    }

    pub fn new() -> (r: AgateSstWriterBuilder)
        ensures
            r.s_cf() is None,
    {
        AgateSstWriterBuilder {
            cf_name: None,
            in_memory: false,
            compression_type: None,
            compression_level: 0,
        }
    }

    /// Record the engine the table is built for. The in-memory table needs
    /// nothing from it; the choice is accepted and set aside.
    pub fn set_db(self, db: &AgateEngine) -> (r: AgateSstWriterBuilder)
        ensures
            r.s_cf() == self.s_cf(),
    {
        let _ = db;
        self
    }

    /// Choose the family whose keys the writer will encode.
    pub fn set_cf(self, cf: &str) -> (r: AgateSstWriterBuilder)
        ensures
            r.s_cf() == Some(str_bytes(cf@)),
    {
        AgateSstWriterBuilder {
            cf_name: Some(slice_to_vec(cf.as_bytes())),
            in_memory: self.in_memory,
            compression_type: self.compression_type,
            compression_level: self.compression_level,
        }
    }

    /// Keep the table in memory; this model always does.
    pub fn set_in_memory(self, in_memory: bool) -> (r: AgateSstWriterBuilder)
        ensures
            r.s_cf() == self.s_cf(),
    {
        AgateSstWriterBuilder {
            cf_name: self.cf_name,
            in_memory,
            compression_type: self.compression_type,
            compression_level: self.compression_level,
        }
    }

    /// Record the compression choice; the model compresses nothing.
    pub fn set_compression_type(self, compression: Option<SstCompressionType>) -> (r:
        AgateSstWriterBuilder)
        ensures
            r.s_cf() == self.s_cf(),
    {
        AgateSstWriterBuilder {
            cf_name: self.cf_name,
            in_memory: self.in_memory,
            compression_type: compression,
            compression_level: self.compression_level,
        }
    }

    /// Record the compression level; the model compresses nothing.
    pub fn set_compression_level(self, level: i32) -> (r: AgateSstWriterBuilder)
        ensures
            r.s_cf() == self.s_cf(),
    {
        AgateSstWriterBuilder {
            cf_name: self.cf_name,
            in_memory: self.in_memory,
            compression_type: self.compression_type,
            compression_level: level,
        }
    }

    /// Open a writer for the table that will live at `path`.
    pub fn build(self, path: &str) -> (r: Result<AgateSstWriter, Error>)
        ensures
            match r {
                Ok(w) => w.s_entries().len() == 0 && w.s_cf() == self.s_cf() && w.s_path()
                    == path@,
                Err(_) => false,
            },
    {
        Ok(
            AgateSstWriter {
                records: Vec::new(),
                cf_name: self.cf_name,
                path: crate::engine::string_clone_of_str(path),
                last_key: Vec::new(),
                approx: 0,
            },
        )
    }
}

/// Saturating addition on machine-sized counts.
fn sat_add(a: usize, b: usize) -> (r: usize)
    ensures
        r == spec_sat_add(a as int, b as int),
{
    if a <= usize::MAX - b {
        a + b
    } else {
        usize::MAX
    }
}

/// A sorted-table writer: entries must arrive in strictly increasing
/// physical-key order; a key at or under the previous one is an ordering
/// violation, never a silent reorder.
pub struct AgateSstWriter {
    records: Vec<SstRecord>,
    cf_name: Option<Vec<u8>>,
    path: String,
    last_key: Vec<u8>,
    approx: usize,
}

impl AgateSstWriter {
    /// The records written so far, in order.
    pub closed spec fn s_entries(self) -> Seq<(Seq<u8>, Seq<u8>, bool)> {
        recs_of(self.records@)
    }

    /// The family keys are encoded into, if one was chosen at build time.
    pub closed spec fn s_cf(self) -> Option<Seq<u8>> {
        match self.cf_name {
            Some(c) => Some(c@),
            None => None,
        }
    }

    /// The path the sealed table will report.
    pub closed spec fn s_path(self) -> Seq<char> {
        self.path@
    }

    /// The physical key of the most recent record; empty before the first.
    pub closed spec fn s_last(self) -> Seq<u8> {
        self.last_key@
    }

    #[verifier::type_invariant]
    spec fn inv(self) -> bool {
        &&& sorted_recs(recs_of(self.records@))
        &&& recs_wf(recs_of(self.records@))
        &&& (self.records@.len() == 0 <==> self.last_key@.len() == 0)
        &&& (self.records@.len() > 0 ==> self.last_key@ == recs_of(self.records@).last().0)
        &&& self.approx as int == est_of(recs_of(self.records@))
    }

    /// Append a live entry; its physical key must sort strictly above every
    /// key already written.
    pub fn put(&mut self, key: &[u8], val: &[u8]) -> (r: Result<(), Error>)
        ensures
            ({
                let pk = spec_encode(cf_or_default(old(self).s_cf()), key@);
                if old(self).s_last().len() == 0 || lex_lt(old(self).s_last(), pk) {
                    &&& r == Ok::<(), Error>(())
                    &&& final(self).s_entries() == old(self).s_entries().push((pk, val@, false))
                    &&& final(self).s_last() == pk
                    &&& final(self).s_cf() == old(self).s_cf()
                    &&& final(self).s_path() == old(self).s_path()
                } else {
                    r == Err::<(), Error>(Error::KeyOrderViolation) && *final(self) == *old(self)
                }
            }),
    {
        self.add_record(key, val, false)
    }

    /// Append a tombstone for `key`: deletion is recorded, not applied;
    /// readers drop it lazily. The same ordering rule applies.
    pub fn delete(&mut self, key: &[u8]) -> (r: Result<(), Error>)
        ensures
            ({
                let pk = spec_encode(cf_or_default(old(self).s_cf()), key@);
                if old(self).s_last().len() == 0 || lex_lt(old(self).s_last(), pk) {
                    &&& r == Ok::<(), Error>(())
                    &&& final(self).s_entries() == old(self).s_entries().push(
                        (pk, Seq::<u8>::empty(), true),
                    )
                    &&& final(self).s_last() == pk
                    &&& final(self).s_cf() == old(self).s_cf()
                    &&& final(self).s_path() == old(self).s_path()
                } else {
                    r == Err::<(), Error>(Error::KeyOrderViolation) && *final(self) == *old(self)
                }
            }),
    {
        let empty: Vec<u8> = Vec::new();
        self.add_record(key, empty.as_slice(), true)
    }

    /// Shared append path of `put` and `delete`.
    fn add_record(&mut self, key: &[u8], val: &[u8], deleted: bool) -> (r: Result<(), Error>)
        ensures
            ({
                let pk = spec_encode(cf_or_default(old(self).s_cf()), key@);
                if old(self).s_last().len() == 0 || lex_lt(old(self).s_last(), pk) {
                    &&& r == Ok::<(), Error>(())
                    &&& final(self).s_entries() == old(self).s_entries().push((pk, val@, deleted))
                    &&& final(self).s_last() == pk
                    &&& final(self).s_cf() == old(self).s_cf()
                    &&& final(self).s_path() == old(self).s_path()
                } else {
                    r == Err::<(), Error>(Error::KeyOrderViolation) && *final(self) == *old(self)
                }
            }),
    {
        proof {
            use_type_invariant(&*self);
        }
        let ghost pre = recs_of(self.records@);
        let pk = self.encode_key(key);
        if !self.last_key.is_empty() {
            let in_order = bytes_lt(self.last_key.as_slice(), pk.as_slice());
            if !in_order {
                return Err(Error::KeyOrderViolation);
            }
        }
        proof {
            lemma_encode_wf(cf_or_default(self.s_cf()), key@);
            assert forall|i: int| 0 <= i < pre.len() implies lex_lt(
                (#[trigger] pre[i]).0,
                pk@,
            ) by {
                if i < pre.len() - 1 {
                    crate::order::lemma_lex_lt_transitive(pre[i].0, pre.last().0, pk@);
                }
            }
        }
        let pk_copy = slice_to_vec(pk.as_slice());
        let sz = sat_add(pk.len(), val.len());
        let full = sat_add(self.approx, sz);
        let mut tmp = AgateSstWriter {
            records: Vec::new(),
            cf_name: None,
            path: String::new(),
            last_key: Vec::new(),
            approx: 0,
        };
        core::mem::swap(&mut tmp, self);
        let AgateSstWriter { records: mut recs, cf_name: cfn, path: pth, last_key: _, approx: _ } =
            tmp;
        recs.push(SstRecord { key: pk, value: slice_to_vec(val), deleted });
        proof {
            assert(recs_of(recs@) =~= pre.push(
                (spec_encode(cf_or_default(old(self).s_cf()), key@), val@, deleted),
            ));
            assert(recs_of(recs@).drop_last() =~= pre);
            assert(est_of(recs_of(recs@)) == spec_sat_add(
                est_of(pre),
                spec_sat_add(pk_copy@.len() as int, val@.len() as int),
            ));
        }
        *self = AgateSstWriter {
            records: recs,
            cf_name: cfn,
            path: pth,
            last_key: pk_copy,
            approx: full,
        };
        Ok(())
    }

    /// The physical key `key` encodes to under this writer's family.
    fn encode_key(&self, key: &[u8]) -> (r: Vec<u8>)
        ensures
            r@ == spec_encode(cf_or_default(self.s_cf()), key@),
    {
        let mut t: Vec<u8> = match &self.cf_name {
            Some(c) => slice_to_vec(c.as_slice()),
            None => crate::utils::default_cf_bytes(),
        };
        t.push(64u8);
        t.push(33u8);
        t.push(64u8);
        let mut tail = slice_to_vec(key);
        t.append(&mut tail);
        proof {
            assert(t@ =~= spec_encode(cf_or_default(self.s_cf()), key@));
        }
        t
    }

    /// A running estimate of the sealed table's size, for size-based file
    /// splitting by the caller.
    pub fn file_size(&mut self) -> (r: u64)
        ensures
            r == est_of(old(self).s_entries()) as u64,
            *final(self) == *old(self),
    {
        proof {
            use_type_invariant(&*self);
        }
        self.approx as u64
    }

    /// Seal the table: it becomes immutable and queryable, and no further
    /// writes are possible.
    pub fn finish(self) -> (r: Result<AgateExternalSstFileInfo, Error>)
        ensures
            match r {
                Ok(info) => info.recs() == self.s_entries() && info.s_path() == self.s_path(),
                Err(_) => false,
            },
    {
        proof {
            use_type_invariant(&self);
        }
        let AgateSstWriter { records, cf_name: _, path, last_key: _, approx: _ } = self;
        Ok(AgateExternalSstFileInfo { table: AgateSstTable { records }, path })
    }
}

/// What sealing a table hands back: the sealed table and where it lives.
pub struct AgateExternalSstFileInfo {
    table: AgateSstTable,
    path: String,
}

impl AgateExternalSstFileInfo {
    /// The sealed records, in key order, tombstones included.
    pub closed spec fn recs(self) -> Seq<(Seq<u8>, Seq<u8>, bool)> {
        self.table.recs()
    }

    /// The path the table reports.
    pub closed spec fn s_path(self) -> Seq<char> {
        self.path@
    }

    /// Where the table lives.
    pub fn file_path(&self) -> (r: String)
        ensures
            r@ == self.s_path(),
    {
        crate::engine::string_clone_of_str(self.path.as_str())
    }

    /// The smallest logical key present, deleted entries included.
    pub fn smallest_key(&self) -> (r: Vec<u8>)
        requires
            self.recs().len() > 0,
        ensures
            r@ == spec_decode_key(self.recs()[0].0),
    {
        proof {
            use_type_invariant(&self.table);
        }
        let (_cf, k) = decode_physical(self.table.records[0].key.as_slice());
        k
    }

    /// The largest logical key present, deleted entries included.
    pub fn largest_key(&self) -> (r: Vec<u8>)
        requires
            self.recs().len() > 0,
        ensures
            r@ == spec_decode_key(self.recs().last().0),
    {
        proof {
            use_type_invariant(&self.table);
        }
        let n = self.table.records.len();
        let (_cf, k) = decode_physical(self.table.records[n - 1].key.as_slice());
        k
    }

    /// The sealed table's size estimate.
    pub fn file_size(&self) -> (r: u64)
        ensures
            r == est_of(self.recs()) as u64,
    {
        proof {
            use_type_invariant(&self.table);
        }
        let n = self.table.records.len();
        let mut acc: usize = 0;
        let mut i: usize = 0;
        while i < n
            invariant
                i <= n,
                n == self.recs().len(),
                acc as int == est_of(self.recs().take(i as int)),
            decreases n - i,
        {
            let sz = sat_add(self.table.records[i].key.len(), self.table.records[i].value.len());
            acc = sat_add(acc, sz);
            proof {
                assert(self.recs().take(i + 1).drop_last() =~= self.recs().take(i as int));
                assert(self.recs().take(i + 1).last() == self.recs()[i as int]);
            }
            i = i + 1;
        }
        proof {
            assert(self.recs().take(n as int) =~= self.recs());
        }
        acc as u64
    }

    /// How many records the table holds, tombstones included.
    pub fn num_entries(&self) -> (r: u64)
        ensures
            r == self.recs().len() as u64,
    {
        self.table.records.len() as u64
    }

    /// Open a reader over the sealed table.
    pub fn reader(&self) -> (r: AgateSstReader)
        ensures
            r.recs() == self.recs(),
    {
        proof {
            use_type_invariant(&self.table);
        }
        let n = self.table.records.len();
        let mut out: Vec<SstRecord> = Vec::new();
        let mut i: usize = 0;
        while i < n
            invariant
                i <= n,
                n == self.recs().len(),
                out@.len() == i,
                forall|j: int| 0 <= j < i ==> recs_of(out@)[j] == (#[trigger] self.recs()[j]),
            decreases n - i,
        {
            let rec = SstRecord {
                key: slice_to_vec(self.table.records[i].key.as_slice()),
                value: slice_to_vec(self.table.records[i].value.as_slice()),
                deleted: self.table.records[i].deleted,
            };
            let ghost pre = out@;
            out.push(rec);
            proof {
                assert(recs_of(out@)[i as int] == self.recs()[i as int]);
                assert forall|j: int| 0 <= j < i implies recs_of(out@)[j] == self.recs()[j] by {
                    assert(out@[j] == pre[j]);
                    assert(recs_of(out@)[j] == recs_of(pre)[j]);
                }
            }
            i = i + 1;
        }
        proof {
            assert(recs_of(out@) =~= self.recs());
        }
        AgateSstReader { table: AgateSstTable { records: out } }
    }
}

/// A reader over a sealed table.
pub struct AgateSstReader {
    table: AgateSstTable,
}

impl AgateSstReader {
    /// The records the reader sees, in key order, tombstones included.
    pub closed spec fn recs(self) -> Seq<(Seq<u8>, Seq<u8>, bool)> {
        self.table.recs()
    }

    /// Validate structural integrity before use. The in-memory table is
    /// intact by construction, so this always succeeds.
    pub fn verify_checksum(&self) -> (r: Result<(), Error>)
        ensures
            r == Ok::<(), Error>(()),
    {
        Ok(())
    }

    /// A cursor over the default family's live entries.
    pub fn iter(&self) -> (r: AgateSstReaderIterator)
        ensures
            r.s_entries() == self.recs(),
            r.s_cf() == crate::utils::default_cf(),
    {
        self.fresh_default_iter()
    }

    /// A cursor over the default family's live entries; the caller's
    /// options carry no bounds the sealed table honours.
    pub fn iterator_opt(&self, opts: IterOptions) -> (r: Result<AgateSstReaderIterator, Error>)
        ensures
            match r {
                Ok(it) => it.s_entries() == self.recs() && it.s_cf() == crate::utils::default_cf(),
                Err(_) => false,
            },
    {
        let _ = opts;
        Ok(self.fresh_default_iter())
    }

    /// A cursor over the named family's live entries.
    pub fn iterator_cf_opt(&self, cf: &str, opts: IterOptions) -> (r: Result<
        AgateSstReaderIterator,
        Error,
    >)
        ensures
            match r {
                Ok(it) => it.s_entries() == self.recs() && it.s_cf() == str_bytes(cf@),
                Err(_) => false,
            },
    {
        let _ = opts;
        proof {
            use_type_invariant(&self.table);
        }
        let reader2 = self.clone_records();
        let pos = reader2.len();
        Ok(
            AgateSstReaderIterator {
                records: reader2,
                pos,
                off_front: false,
                cf: slice_to_vec(cf.as_bytes()),
            },
        )
    }

    fn fresh_default_iter(&self) -> (r: AgateSstReaderIterator)
        ensures
            r.s_entries() == self.recs(),
            r.s_cf() == crate::utils::default_cf(),
    {
        proof {
            use_type_invariant(&self.table);
        }
        let reader2 = self.clone_records();
        let pos = reader2.len();
        AgateSstReaderIterator {
            records: reader2,
            pos,
            off_front: false,
            cf: crate::utils::default_cf_bytes(),
        }
    }

    fn clone_records(&self) -> (r: Vec<SstRecord>)
        ensures
            recs_of(r@) == self.recs(),
            sorted_recs(recs_of(r@)),
            recs_wf(recs_of(r@)),
    {
        proof {
            use_type_invariant(&self.table);
        }
        let n = self.table.records.len();
        let mut out: Vec<SstRecord> = Vec::new();
        let mut i: usize = 0;
        while i < n
            invariant
                i <= n,
                n == self.recs().len(),
                out@.len() == i,
                forall|j: int| 0 <= j < i ==> recs_of(out@)[j] == (#[trigger] self.recs()[j]),
            decreases n - i,
        {
            let rec = SstRecord {
                key: slice_to_vec(self.table.records[i].key.as_slice()),
                value: slice_to_vec(self.table.records[i].value.as_slice()),
                deleted: self.table.records[i].deleted,
            };
            let ghost pre = out@;
            out.push(rec);
            proof {
                assert(recs_of(out@)[i as int] == self.recs()[i as int]);
                assert forall|j: int| 0 <= j < i implies recs_of(out@)[j] == self.recs()[j] by {
                    assert(out@[j] == pre[j]);
                    assert(recs_of(out@)[j] == recs_of(pre)[j]);
                }
            }
            i = i + 1;
        }
        proof {
            assert(recs_of(out@) =~= self.recs());
        }
        out
    }
}

/// A stub reader of the raw table bytes; the in-memory model has no byte
/// serialisation to read.
pub struct AgateExternalSstFileReader;

/// What stepping a sealed-table cursor backward leaves behind: the cursor
/// stands where the tombstone run walking back from `from` ended, or fell
/// off the front.
pub open spec fn sst_back_outcome(
    post: AgateSstReaderIterator,
    from: int,
    r: Result<bool, Error>,
) -> bool {
    exists|j1: int|
        #![trigger bwd_stop(post.s_entries(), post.s_cf(), from, j1)]
        bwd_stop(post.s_entries(), post.s_cf(), from, j1) && ({
            if j1 >= 0 {
                post.s_pos() == j1 && !post.s_off() && r == Ok::<bool, Error>(
                    cf_at(post.s_entries(), post.s_cf(), j1),
                )
            } else {
                post.s_off() && r == Ok::<bool, Error>(false)
            }
        })
}

/// Positions `[p0, q)` are all records of family `cf`, and `q` is the first
/// that is not (or the table's end).
pub open spec fn cf_run_end(
    es: Seq<(Seq<u8>, Seq<u8>, bool)>,
    cf: Seq<u8>,
    p0: int,
    q: int,
) -> bool {
    &&& p0 <= q <= es.len()
    &&& (forall|m: int| p0 <= m < q ==> cf_at(es, cf, m))
    &&& (q == es.len() || !cf_at(es, cf, q))
}

/// What seeking a sealed-table cursor to its family's last position leaves
/// behind: either nothing of the family stands at its first position and
/// the call reported false, or the cursor walked to the end of the family's
/// run and stepped back over trailing tombstones.
pub open spec fn sst_seek_last_outcome(post: AgateSstReaderIterator, r: Result<
    bool,
    Error,
>) -> bool {
    exists|p0: int, j0: int|
        #![trigger fwd_stop(post.s_entries(), post.s_cf(), p0, j0)]
        first_ge_rec(post.s_entries(), spec_encode(post.s_cf(), Seq::<u8>::empty()), p0)
            && fwd_stop(post.s_entries(), post.s_cf(), p0, j0) && ({
            if !(j0 < post.s_entries().len() && cf_at(post.s_entries(), post.s_cf(), j0)) {
                r == Ok::<bool, Error>(false) && post.s_pos() == j0 && !post.s_off()
            } else {
                exists|q: int|
                    #![trigger cf_run_end(post.s_entries(), post.s_cf(), p0, q)]
                    cf_run_end(post.s_entries(), post.s_cf(), p0, q) && q > 0 && sst_back_outcome(
                        post,
                        q - 1,
                        r,
                    )
            }
        })
}

/// A cursor over one family of a sealed table that consumes tombstones
/// internally: callers only ever observe live entries.
pub struct AgateSstReaderIterator {
    records: Vec<SstRecord>,
    pos: usize,
    off_front: bool,
    cf: Vec<u8>,
}

impl AgateSstReaderIterator {
    /// The table records the cursor walks.
    pub closed spec fn s_entries(self) -> Seq<(Seq<u8>, Seq<u8>, bool)> {
        recs_of(self.records@)
    }

    /// The bytes of the family the cursor shows.
    pub closed spec fn s_cf(self) -> Seq<u8> {
        self.cf@
    }

    /// The native position, the length meaning past the end.
    pub closed spec fn s_pos(self) -> int {
        self.pos as int
    }

    /// The cursor ran off the front.
    pub closed spec fn s_off(self) -> bool {
        self.off_front
    }

    /// The native cursor is positioned somewhere in the table.
    pub open spec fn native_valid(self) -> bool {
        !self.s_off() && self.s_pos() < self.s_entries().len()
    }

    /// The cursor stands on a record of its family. Liveness is not part of
    /// validity: movement never leaves the cursor on a tombstone, so a
    /// valid position is always live.
    pub open spec fn spec_valid(self) -> bool {
        self.native_valid() && cf_at(self.s_entries(), self.s_cf(), self.s_pos())
    }

    /// The cursor stands on a live record of its family.
    pub open spec fn spec_live(self) -> bool {
        self.spec_valid() && !self.s_entries()[self.s_pos()].2
    }

    /// Everything but the position agrees between the two cursor states.
    pub open spec fn same_config(self, other: AgateSstReaderIterator) -> bool {
        self.s_entries() == other.s_entries() && self.s_cf() == other.s_cf()
    }

    #[verifier::type_invariant]
    spec fn inv(self) -> bool {
        &&& sorted_recs(recs_of(self.records@))
        &&& recs_wf(recs_of(self.records@))
        &&& self.pos <= self.records@.len()
    }

    /// Is the cursor positioned on a record of its family?
    pub fn valid(&self) -> (r: Result<bool, Error>)
        ensures
            r == Ok::<bool, Error>(self.spec_valid()),
    {
        proof {
            use_type_invariant(&*self);
        }
        if self.off_front || self.pos >= self.records.len() {
            return Ok(false);
        }
        let (dcf, _dkey) = decode_physical(self.records[self.pos].key.as_slice());
        Ok(bytes_eq(dcf.as_slice(), self.cf.as_slice()))
    }

    /// The logical key under the cursor.
    pub fn key(&self) -> (r: Vec<u8>)
        requires
            self.spec_valid(),
        ensures
            r@ == spec_decode_key(self.s_entries()[self.s_pos()].0),
    {
        proof {
            use_type_invariant(&*self);
        }
        let (_dcf, dkey) = decode_physical(self.records[self.pos].key.as_slice());
        dkey
    }

    /// The value under the cursor; movement guarantees the position is
    /// live.
    pub fn value(&self) -> (r: Vec<u8>)
        requires
            self.spec_live(),
        ensures
            r@ == self.s_entries()[self.s_pos()].1,
    {
        proof {
            use_type_invariant(&*self);
        }
        slice_to_vec(self.records[self.pos].value.as_slice())
    }


    /// Step one physical position forward, then consume tombstones forward;
    /// stepping an unpositioned cursor is a usage error.
    pub fn next(&mut self) -> (r: Result<bool, Error>)
        ensures
            old(self).same_config(*final(self)),
            !old(self).native_valid() ==> r == Err::<bool, Error>(Error::CursorMisuse) && *final(self) == *old(self),
            old(self).native_valid() ==> exists|j: int|
                #![trigger fwd_stop(final(self).s_entries(), final(self).s_cf(), old(self).s_pos() + 1, j)]
                fwd_stop(final(self).s_entries(), final(self).s_cf(), old(self).s_pos() + 1, j)
                    && final(self).s_pos() == j && !final(self).s_off() && r == Ok::<bool, Error>(
                    j < final(self).s_entries().len() && cf_at(
                        final(self).s_entries(),
                        final(self).s_cf(),
                        j,
                    ),
                ),
    {
        proof {
            use_type_invariant(&*self);
        }
        if self.off_front || self.pos >= self.records.len() {
            return Err(Error::CursorMisuse);
        }
        self.off_front = false;
        self.pos = self.pos + 1;
        let r = self.update(true);
        proof {
            if self.s_pos() == self.s_entries().len() && old(self).s_pos() + 1
                == self.s_entries().len() {
                assert(fwd_stop(
                    self.s_entries(),
                    self.s_cf(),
                    old(self).s_pos() + 1,
                    self.s_pos(),
                ));
            }
        }
        r
    }

    /// Step one physical position back, then consume tombstones backward;
    /// stepping an unpositioned cursor is a usage error.
    pub fn prev(&mut self) -> (r: Result<bool, Error>)
        ensures
            old(self).same_config(*final(self)),
            !old(self).native_valid() ==> r == Err::<bool, Error>(Error::CursorMisuse) && *final(self) == *old(self),
            old(self).native_valid() ==> sst_back_outcome(*final(self), old(self).s_pos() - 1, r),
    {
        proof {
            use_type_invariant(&*self);
        }
        if self.off_front || self.pos >= self.records.len() {
            return Err(Error::CursorMisuse);
        }
        if self.pos == 0 {
            self.off_front = true;
            proof {
                assert(bwd_stop(self.s_entries(), self.s_cf(), -1, -1));
            }
            return Ok(false);
        }
        self.pos = self.pos - 1;
        self.update(false)
    }

    /// Position the native cursor on the first record at or after the
    /// physical key `target`, then consume tombstones forward.
    fn seek_native(&mut self, target: &[u8]) -> (r: Result<bool, Error>)
        ensures
            old(self).same_config(*final(self)),
            exists|p0: int, j: int|
                #![trigger fwd_stop(final(self).s_entries(), final(self).s_cf(), p0, j)]
                first_ge_rec(final(self).s_entries(), target@, p0) && fwd_stop(
                    final(self).s_entries(),
                    final(self).s_cf(),
                    p0,
                    j,
                ) && final(self).s_pos() == j && !final(self).s_off() && r == Ok::<bool, Error>(
                    j < final(self).s_entries().len() && cf_at(
                        final(self).s_entries(),
                        final(self).s_cf(),
                        j,
                    ),
                ),
    {
        proof {
            use_type_invariant(&*self);
        }
        let n = self.records.len();
        let mut i: usize = 0;
        while i < n
            invariant
                i <= n,
                n == self.s_entries().len(),
                *self == *old(self),
                forall|j: int| 0 <= j < i ==> lex_lt((#[trigger] self.s_entries()[j]).0, target@),
            ensures
                i <= n,
                *self == *old(self),
                forall|j: int| 0 <= j < i ==> lex_lt((#[trigger] self.s_entries()[j]).0, target@),
                i < n ==> !lex_lt(self.s_entries()[i as int].0, target@),
            decreases n - i,
        {
            let smaller = bytes_lt(self.records[i].key.as_slice(), target);
            if !smaller {
                break ;
            }
            i = i + 1;
        }
        proof {
            if i < n {
                lemma_lex_trichotomy(target@, self.s_entries()[i as int].0);
            }
            assert(first_ge_rec(self.s_entries(), target@, i as int));
        }
        self.off_front = false;
        self.pos = i;
        let ghost p0 = self.s_pos();
        let r = self.update(true);
        proof {
            if p0 == self.s_entries().len() {
                assert(fwd_stop(self.s_entries(), self.s_cf(), p0, p0));
            }
            assert(first_ge_rec(self.s_entries(), target@, p0));
        }
        r
    }

    /// The physical key that stands for `k` in this cursor's family.
    fn make_target(&self, k: &[u8]) -> (t: Vec<u8>)
        ensures
            t@ == spec_encode(self.s_cf(), k@),
    {
        let mut t = slice_to_vec(self.cf.as_slice());
        t.push(64u8);
        t.push(33u8);
        t.push(64u8);
        let mut tail = slice_to_vec(k);
        t.append(&mut tail);
        proof {
            assert(t@ =~= spec_encode(self.s_cf(), k@));
        }
        t
    }

    /// Walk to the last live record of the family: forward over the whole
    /// family run, then one native step back and a backward tombstone walk,
    /// as the forward-biased native cursor demands.
    fn seek_to_last_native(&mut self) -> (r: Result<bool, Error>)
        ensures
            old(self).same_config(*final(self)),
            sst_seek_last_outcome(*final(self), r),
    {
        proof {
            use_type_invariant(&*self);
        }
        let ghost es = self.s_entries();
        let start = self.make_target(&[]);
        let first = self.seek_native(start.as_slice());
        let mut going = match first {
            Ok(b) => b,
            Err(e) => {
                return Err(e);
            },
        };
        if !going {
            proof {
                let (q0, j) = choose|p0: int, j: int|
                    #![trigger fwd_stop(self.s_entries(), self.s_cf(), p0, j)]
                    first_ge_rec(self.s_entries(), start@, p0) && fwd_stop(
                        self.s_entries(),
                        self.s_cf(),
                        p0,
                        j,
                    ) && self.s_pos() == j && !self.s_off() && !(j < self.s_entries().len()
                        && cf_at(self.s_entries(), self.s_cf(), j));
                assert(first_ge_rec(
                    self.s_entries(),
                    spec_encode(self.s_cf(), Seq::<u8>::empty()),
                    q0,
                ));
                assert(fwd_stop(self.s_entries(), self.s_cf(), q0, self.s_pos()));
            }
            return Ok(false);
        }
        let ghost (q0, j0) = choose|p0: int, j: int|
            #![trigger fwd_stop(self.s_entries(), self.s_cf(), p0, j)]
            first_ge_rec(self.s_entries(), start@, p0) && fwd_stop(
                self.s_entries(),
                self.s_cf(),
                p0,
                j,
            ) && self.s_pos() == j && !self.s_off() && j < self.s_entries().len() && cf_at(
                self.s_entries(),
                self.s_cf(),
                j,
            );
        proof {
            assert(self.s_pos() == j0);
            assert forall|m: int| q0 <= m < self.s_pos() implies cf_at(es, self.s_cf(), m) by {
                assert(skippable(es, self.s_cf(), m));
            }
        }
        while going
            invariant
                old(self).same_config(*self),
                es == self.s_entries(),
                sorted_recs(es),
                recs_wf(es),
                !self.s_off(),
                first_ge_rec(es, spec_encode(self.s_cf(), Seq::<u8>::empty()), q0),
                fwd_stop(es, self.s_cf(), q0, j0),
                j0 < es.len() && cf_at(es, self.s_cf(), j0),
                q0 <= self.s_pos() <= es.len(),
                forall|m: int| q0 <= m < self.s_pos() ==> cf_at(es, self.s_cf(), m),
                going == (self.s_pos() < es.len() && cf_at(es, self.s_cf(), self.s_pos())),
                self.s_pos() > q0 || going,
            decreases es.len() - self.s_pos() + (if going {
                1int
            } else {
                0int
            }),
        {
            let ghost prevpos = self.s_pos();
            let step = self.next();
            going = match step {
                Ok(b) => b,
                Err(e) => {
                    return Err(e);
                },
            };
            proof {
                let j = choose|j: int|
                    #![trigger fwd_stop(self.s_entries(), self.s_cf(), prevpos + 1, j)]
                    fwd_stop(self.s_entries(), self.s_cf(), prevpos + 1, j) && self.s_pos() == j
                        && !self.s_off();
                assert forall|m: int| q0 <= m < self.s_pos() implies cf_at(es, self.s_cf(), m) by {
                    if m > prevpos {
                        assert(skippable(es, self.s_cf(), m));
                    }
                }
            }
        }
        let ghost q = self.s_pos();
        proof {
            assert(cf_run_end(es, self.s_cf(), q0, q));
            assert(q > 0);
        }
        self.pos = self.pos - 1;
        let r = self.update(false);
        proof {
            assert(sst_back_outcome(*self, q - 1, r));
        }
        r
    }

    /// Position the cursor: at the family's first live record, at its last,
    /// or at the first live record at or after a logical key.
    pub fn seek(&mut self, key: SeekKey<'_>) -> (r: Result<bool, Error>)
        ensures
            old(self).same_config(*final(self)),
            match key {
                SeekKey::Start => exists|p0: int, j: int|
                    #![trigger fwd_stop(final(self).s_entries(), final(self).s_cf(), p0, j)]
                    first_ge_rec(
                        final(self).s_entries(),
                        spec_encode(final(self).s_cf(), Seq::<u8>::empty()),
                        p0,
                    ) && fwd_stop(final(self).s_entries(), final(self).s_cf(), p0, j) && final(self).s_pos() == j && !final(self).s_off() && r == Ok::<bool, Error>(
                        j < final(self).s_entries().len() && cf_at(
                            final(self).s_entries(),
                            final(self).s_cf(),
                            j,
                        ),
                    ),
                SeekKey::End => sst_seek_last_outcome(*final(self), r),
                SeekKey::Key(k) => exists|p0: int, j: int|
                    #![trigger fwd_stop(final(self).s_entries(), final(self).s_cf(), p0, j)]
                    first_ge_rec(
                        final(self).s_entries(),
                        spec_encode(final(self).s_cf(), k@),
                        p0,
                    ) && fwd_stop(final(self).s_entries(), final(self).s_cf(), p0, j) && final(self).s_pos() == j && !final(self).s_off() && r == Ok::<bool, Error>(
                        j < final(self).s_entries().len() && cf_at(
                            final(self).s_entries(),
                            final(self).s_cf(),
                            j,
                        ),
                    ),
            },
    {
        match key {
            SeekKey::Start => {
                let t = self.make_target(&[]);
                self.seek_native(t.as_slice())
            },
            SeekKey::End => self.seek_to_last_native(),
            SeekKey::Key(k) => {
                let t = self.make_target(k);
                self.seek_native(t.as_slice())
            },
        }
    }

    /// Position the cursor on the last live record at or before `k` within
    /// its run, falling back to the family's last live record when the
    /// forward seek ran off the table; a cursor left on a foreign family's
    /// record steps back as for a mismatched key.
    pub fn seek_for_prev(&mut self, key: SeekKey<'_>) -> (r: Result<bool, Error>)
        ensures
            old(self).same_config(*final(self)),
            match key {
                SeekKey::Start => exists|p0: int, j: int|
                    #![trigger fwd_stop(final(self).s_entries(), final(self).s_cf(), p0, j)]
                    first_ge_rec(
                        final(self).s_entries(),
                        spec_encode(final(self).s_cf(), Seq::<u8>::empty()),
                        p0,
                    ) && fwd_stop(final(self).s_entries(), final(self).s_cf(), p0, j) && final(self).s_pos() == j && !final(self).s_off() && r == Ok::<bool, Error>(
                        j < final(self).s_entries().len() && cf_at(
                            final(self).s_entries(),
                            final(self).s_cf(),
                            j,
                        ),
                    ),
                SeekKey::End => sst_seek_last_outcome(*final(self), r),
                SeekKey::Key(k) => exists|p0: int, j: int|
                    #![trigger fwd_stop(final(self).s_entries(), final(self).s_cf(), p0, j)]
                    first_ge_rec(
                        final(self).s_entries(),
                        spec_encode(final(self).s_cf(), k@),
                        p0,
                    ) && fwd_stop(final(self).s_entries(), final(self).s_cf(), p0, j) && ({
                        if j == final(self).s_entries().len() {
                            sst_seek_last_outcome(*final(self), r)
                        } else if cf_at(final(self).s_entries(), final(self).s_cf(), j)
                            && spec_decode_key(final(self).s_entries()[j].0) == k@ {
                            final(self).s_pos() == j && !final(self).s_off() && r == Ok::<
                                bool,
                                Error,
                            >(true)
                        } else {
                            sst_back_outcome(*final(self), j - 1, r)
                        }
                    }),
            },
    {
        match key {
            SeekKey::Start => {
                let t = self.make_target(&[]);
                self.seek_native(t.as_slice())
            },
            SeekKey::End => self.seek_to_last_native(),
            SeekKey::Key(k) => {
                let t = self.make_target(k);
                let landed = match self.seek_native(t.as_slice()) {
                    Ok(b) => b,
                    Err(e) => {
                        return Err(e);
                    },
                };
                let ghost (p0, j) = choose|p0: int, j: int|
                    #![trigger fwd_stop(self.s_entries(), self.s_cf(), p0, j)]
                    first_ge_rec(self.s_entries(), t@, p0) && fwd_stop(
                        self.s_entries(),
                        self.s_cf(),
                        p0,
                        j,
                    ) && self.s_pos() == j && !self.s_off();
                if self.off_front || self.pos >= self.records.len() {
                    let r = self.seek_to_last_native();
                    proof {
                        assert(first_ge_rec(
                            self.s_entries(),
                            spec_encode(self.s_cf(), k@),
                            p0,
                        ));
                        assert(fwd_stop(self.s_entries(), self.s_cf(), p0, j));
                    }
                    return r;
                }
                if landed {
                    let kk = self.key();
                    let same = bytes_eq(kk.as_slice(), k);
                    if same {
                        let r = self.update(false);
                        proof {
                            assert(fwd_stop(self.s_entries(), self.s_cf(), p0, j));
                            assert(self.s_pos() == j && !self.s_off());
                            assert(r == Ok::<bool, Error>(true));
                        }
                        return r;
                    }
                }
                let stepped = match self.prev() {
                    Ok(b) => b,
                    Err(e) => {
                        return Err(e);
                    },
                };
                let _ = stepped;
                let r = self.valid();
                proof {
                    assert(first_ge_rec(self.s_entries(), spec_encode(self.s_cf(), k@), p0));
                    assert(fwd_stop(self.s_entries(), self.s_cf(), p0, j));
                    assert(sst_back_outcome(*self, j - 1, r));
                }
                r
            },
        }
    }

    /// Consume tombstones of this family in the given direction and report
    /// whether the cursor stopped on a record of its family.
    fn update(&mut self, is_forward: bool) -> (r: Result<bool, Error>)
        ensures
            old(self).same_config(*final(self)),
            !old(self).native_valid() ==> *final(self) == *old(self) && r == Ok::<bool, Error>(
                false,
            ),
            old(self).native_valid() && is_forward ==> exists|j: int|
                #![trigger fwd_stop(final(self).s_entries(), final(self).s_cf(), old(self).s_pos(), j)]
                fwd_stop(final(self).s_entries(), final(self).s_cf(), old(self).s_pos(), j)
                    && final(self).s_pos() == j && !final(self).s_off() && r == Ok::<bool, Error>(
                    j < final(self).s_entries().len() && cf_at(
                        final(self).s_entries(),
                        final(self).s_cf(),
                        j,
                    ),
                ),
            old(self).native_valid() && !is_forward ==> exists|j: int|
                #![trigger bwd_stop(final(self).s_entries(), final(self).s_cf(), old(self).s_pos(), j)]
                bwd_stop(final(self).s_entries(), final(self).s_cf(), old(self).s_pos(), j) && ({
                    if j >= 0 {
                        final(self).s_pos() == j && !final(self).s_off() && r == Ok::<
                            bool,
                            Error,
                        >(cf_at(final(self).s_entries(), final(self).s_cf(), j))
                    } else {
                        final(self).s_off() && r == Ok::<bool, Error>(false)
                    }
                }),
    {
        proof {
            use_type_invariant(&*self);
        }
        let ghost start = self.s_pos();
        if self.off_front || self.pos >= self.records.len() {
            return Ok(false);
        }
        loop
            invariant
                sorted_recs(self.s_entries()),
                recs_wf(self.s_entries()),
                self.pos <= self.records@.len(),
                old(self).same_config(*self),
                old(self).native_valid(),
                start == old(self).s_pos(),
                start < self.s_entries().len(),
                !self.s_off(),
                is_forward ==> start <= self.s_pos() <= self.s_entries().len(),
                is_forward ==> forall|m: int|
                    start <= m < self.s_pos() ==> skippable(self.s_entries(), self.s_cf(), m),
                !is_forward ==> 0 <= self.s_pos() <= start,
                !is_forward ==> forall|m: int|
                    self.s_pos() < m <= start ==> skippable(self.s_entries(), self.s_cf(), m),
            decreases (if is_forward {
                self.s_entries().len() - self.s_pos()
            } else {
                self.s_pos() + 1
            }),
        {
            if self.pos >= self.records.len() {
                proof {
                    assert(fwd_stop(self.s_entries(), self.s_cf(), start, self.s_pos()));
                }
                return Ok(false);
            }
            let (dcf, _dkey) = decode_physical(self.records[self.pos].key.as_slice());
            let cf_match = bytes_eq(dcf.as_slice(), self.cf.as_slice());
            if !cf_match {
                proof {
                    if is_forward {
                        assert(fwd_stop(self.s_entries(), self.s_cf(), start, self.s_pos()));
                    } else {
                        assert(bwd_stop(self.s_entries(), self.s_cf(), start, self.s_pos()));
                    }
                }
                return Ok(false);
            }
            if !self.records[self.pos].deleted {
                proof {
                    if is_forward {
                        assert(fwd_stop(self.s_entries(), self.s_cf(), start, self.s_pos()));
                    } else {
                        assert(bwd_stop(self.s_entries(), self.s_cf(), start, self.s_pos()));
                    }
                }
                return Ok(true);
            }
            if is_forward {
                self.pos = self.pos + 1;
            } else {
                if self.pos == 0 {
                    self.off_front = true;
                    proof {
                        assert(bwd_stop(self.s_entries(), self.s_cf(), start, -1));
                    }
                    return Ok(false);
                }
                self.pos = self.pos - 1;
            }
        }
    }
}

} // verus!
