//! Snapshots: a consistent point-in-time view of the whole multiplexed
//! keyspace. A snapshot holds an independent copy of the engine state at
//! creation, so writes through the live engine never show through it.

use vstd::prelude::*;
use crate::db_vector::AgateDBVector;
use crate::engine::{AgateEngine, IterOptions, ReadOptions};
use crate::error::Error;
use crate::iterator::{first_ge, AgateEngineIterator};
use crate::keyspace::{contains_key, same_except, value_of};
use crate::utils::{default_cf, spec_decode_cf, spec_decode_key, spec_encode, str_bytes};

verus! {

/// A fixed view of the keyspace, taken at creation time.
pub struct AgateSnapshot {
    inner: AgateEngine,
}

impl AgateSnapshot {
    /// The physical entries the snapshot observes.
    pub closed spec fn kv(self) -> Seq<(Seq<u8>, Seq<u8>)> {
        self.inner.kv()
    }

    /// The declared column-family names at snapshot time.
    pub closed spec fn names(self) -> Seq<Seq<u8>> {
        self.inner.names()
    }

    /// Is `cfb` a declared column family?
    pub closed spec fn is_cf(self, cfb: Seq<u8>) -> bool {
        self.inner.is_cf(cfb)
    }

    /// Take a snapshot: an independent copy of the engine's current state.
    pub fn new(engine: &AgateEngine) -> (r: AgateSnapshot)
        ensures
            r.kv() == engine.kv(),
            r.names() == engine.names(),
            forall|c: Seq<u8>| #[trigger] r.is_cf(c) == engine.is_cf(c),
    {
        let r = AgateSnapshot { inner: engine.duplicate() };
        proof {
            assert forall|c: Seq<u8>| #[trigger] r.is_cf(c) == engine.is_cf(c) by {
                if r.inner.is_cf(c) {
                    let j = choose|j: int|
                        0 <= j < r.inner.names().len() && (#[trigger] r.inner.names()[j]) == c;
                    assert(engine.names()[j] == c);
                }
                if engine.is_cf(c) {
                    let j = choose|j: int|
                        0 <= j < engine.names().len() && (#[trigger] engine.names()[j]) == c;
                    assert(r.inner.names()[j] == c);
                }
            }
        }
        r
    }

    /// Fail fast on a family outside the set declared at snapshot time.
    pub fn check_cf_exist(&self, cf: &str) -> (r: Result<(), Error>)
        ensures
            match r {
                Ok(()) => self.is_cf(str_bytes(cf@)),
                Err(e) => e == Error::UnknownColumnFamily && !self.is_cf(str_bytes(cf@)),
            },
    {
        self.inner.check_cf_exist(cf)
    }

    /// The family names declared at snapshot time.
    pub fn cf_names(&self) -> (r: Vec<String>)
        ensures
            r@.len() == self.names().len(),
            forall|i: int| 0 <= i < r@.len() ==> str_bytes((#[trigger] r@[i])@) == self.names()[i],
    {
        self.inner.cf_names()
    }

    /// Point read in the default family, against the frozen view.
    pub fn get_value_opt(&self, opts: &ReadOptions, key: &[u8]) -> (r: Result<
        Option<AgateDBVector>,
        Error,
    >)
        ensures
            match r {
                Ok(Some(v)) => contains_key(self.kv(), spec_encode(default_cf(), key@)) && v@
                    == value_of(self.kv(), spec_encode(default_cf(), key@)),
                Ok(None) => !contains_key(self.kv(), spec_encode(default_cf(), key@)),
                Err(_) => false,
            },
    {
        self.inner.get_value_opt(opts, key)
    }

    /// Point read in the named family, against the frozen view.
    pub fn get_value_cf_opt(&self, opts: &ReadOptions, cf: &str, key: &[u8]) -> (r: Result<
        Option<AgateDBVector>,
        Error,
    >)
        ensures
            match r {
                Ok(Some(v)) => self.is_cf(str_bytes(cf@)) && contains_key(
                    self.kv(),
                    spec_encode(str_bytes(cf@), key@),
                ) && v@ == value_of(self.kv(), spec_encode(str_bytes(cf@), key@)),
                Ok(None) => self.is_cf(str_bytes(cf@)) && !contains_key(
                    self.kv(),
                    spec_encode(str_bytes(cf@), key@),
                ),
                Err(e) => e == Error::UnknownColumnFamily && !self.is_cf(str_bytes(cf@)),
            },
    {
        self.inner.get_value_cf_opt(opts, cf, key)
    }

    /// Point read in the default family, with default options.
    pub fn get_value(&self, key: &[u8]) -> (r: Result<Option<AgateDBVector>, Error>)
        ensures
            match r {
                Ok(Some(v)) => contains_key(self.kv(), spec_encode(default_cf(), key@)) && v@
                    == value_of(self.kv(), spec_encode(default_cf(), key@)),
                Ok(None) => !contains_key(self.kv(), spec_encode(default_cf(), key@)),
                Err(_) => false,
            },
    {
        self.inner.get_value(key)
    }

    /// Point read in the named family, with default options.
    pub fn get_value_cf(&self, cf: &str, key: &[u8]) -> (r: Result<Option<AgateDBVector>, Error>)
        ensures
            match r {
                Ok(Some(v)) => self.is_cf(str_bytes(cf@)) && contains_key(
                    self.kv(),
                    spec_encode(str_bytes(cf@), key@),
                ) && v@ == value_of(self.kv(), spec_encode(str_bytes(cf@), key@)),
                Ok(None) => self.is_cf(str_bytes(cf@)) && !contains_key(
                    self.kv(),
                    spec_encode(str_bytes(cf@), key@),
                ),
                Err(e) => e == Error::UnknownColumnFamily && !self.is_cf(str_bytes(cf@)),
            },
    {
        self.inner.get_value_cf(cf, key)
    }

    /// A cursor over the default family of the frozen view.
    pub fn iterator_opt(&self, opts: IterOptions) -> (r: Result<AgateEngineIterator, Error>)
        ensures
            match r {
                Ok(it) => it.s_entries() == self.kv() && it.s_cf() == default_cf()
                    && it.s_lower() == opts.spec_lower() && it.s_upper() == opts.spec_upper()
                    && !it.s_off(),
                Err(_) => false,
            },
    {
        self.inner.iterator_opt(opts)
    }

    /// A cursor over the named family of the frozen view.
    pub fn iterator_cf_opt(&self, cf: &str, opts: IterOptions) -> (r: Result<
        AgateEngineIterator,
        Error,
    >)
        ensures
            match r {
                Ok(it) => self.is_cf(str_bytes(cf@)) && it.s_entries() == self.kv() && it.s_cf()
                    == str_bytes(cf@) && it.s_lower() == opts.spec_lower() && it.s_upper()
                    == opts.spec_upper() && !it.s_off(),
                Err(e) => e == Error::UnknownColumnFamily && !self.is_cf(str_bytes(cf@)),
            },
    {
        self.inner.iterator_cf_opt(cf, opts)
    }

    /// The first default-family entry of the frozen view at or after `key`,
    /// if the position a forward seek lands on belongs to the default
    /// family.
    pub fn seek(&self, key: &[u8]) -> (r: Result<Option<(Vec<u8>, Vec<u8>)>, Error>)
        ensures
            match r {
                Ok(Some(kv)) => exists|p: int|
                    #![trigger self.kv()[p]]
                    first_ge(self.kv(), spec_encode(default_cf(), key@), p) && p < self.kv().len()
                        && spec_decode_cf(self.kv()[p].0) == default_cf() && kv.0@
                        == spec_decode_key(self.kv()[p].0) && kv.1@ == self.kv()[p].1,
                Ok(None) => forall|p: int|
                    #[trigger] first_ge(self.kv(), spec_encode(default_cf(), key@), p) ==> p
                        == self.kv().len() || spec_decode_cf(self.kv()[p].0) != default_cf(),
                Err(_) => false,
            },
    {
        let r = self.inner.seek(key);
        proof {
            assert(self.kv() == self.inner.kv());
        }
        match &r {
            Ok(Some(kvp)) => {
                proof {
                    let p = choose|p: int|
                        first_ge(self.inner.kv(), spec_encode(default_cf(), key@), p) && p
                            < self.inner.kv().len() && spec_decode_cf(self.inner.kv()[p].0)
                            == default_cf() && kvp.0@ == spec_decode_key(self.inner.kv()[p].0)
                            && kvp.1@ == self.inner.kv()[p].1;
                    assert(self.kv()[p] == self.inner.kv()[p]);
                }
            },
            _ => {},
        }
        r
    }

    /// Walk the default family of the frozen view from `start_key` while
    /// logical keys stay under `end_key`.
    pub fn scan<F: FnMut(&[u8], &[u8]) -> Result<bool, Error>>(
        &self,
        start_key: &[u8],
        end_key: &[u8],
        fill_cache: bool,
        f: F,
    ) -> (r: Result<(), Error>)
        requires
            forall|g: F, a: &[u8], b: &[u8]| #[trigger] call_requires(g, (a, b)),
        ensures
            (forall|g: F, a: &[u8], b: &[u8], o: Result<bool, Error>|
                #[trigger] call_ensures(g, (a, b), o) ==> o is Ok) ==> r == Ok::<(), Error>(()),
    {
        self.inner.scan(start_key, end_key, fill_cache, f)
    }

    /// Walk the named family of the frozen view.
    pub fn scan_cf<F: FnMut(&[u8], &[u8]) -> Result<bool, Error>>(
        &self,
        cf: &str,
        start_key: &[u8],
        end_key: &[u8],
        fill_cache: bool,
        f: F,
    ) -> (r: Result<(), Error>)
        requires
            forall|g: F, a: &[u8], b: &[u8]| #[trigger] call_requires(g, (a, b)),
        ensures
            !self.is_cf(str_bytes(cf@)) ==> r == Err::<(), Error>(Error::UnknownColumnFamily),
            self.is_cf(str_bytes(cf@)) && (forall|g: F, a: &[u8], b: &[u8], o: Result<bool, Error>|
                #[trigger] call_ensures(g, (a, b), o) ==> o is Ok) ==> r == Ok::<(), Error>(()),
    {
        self.inner.scan_cf(cf, start_key, end_key, fill_cache, f)
    }
}

/// The stub cursor type of the snapshot interface; real cursors come from
/// the snapshot's own iterator constructors.
pub struct AgateSnapshotIterator;

/// Snapshot isolation law: a snapshot taken before a point write still
/// observes the value the key had at snapshot time, while the engine after
/// the write observes the new value; no other key moved on either side.
pub proof fn lemma_snapshot_isolation(
    snap: AgateSnapshot,
    before: AgateEngine,
    after: AgateEngine,
    pk: Seq<u8>,
    v: Seq<u8>,
)
    requires
        snap.kv() == before.kv(),
        contains_key(after.kv(), pk),
        value_of(after.kv(), pk) == v,
        same_except(before.kv(), after.kv(), pk),
    ensures
        value_of(after.kv(), pk) == v,
        contains_key(snap.kv(), pk) == contains_key(before.kv(), pk),
        contains_key(snap.kv(), pk) ==> value_of(snap.kv(), pk) == value_of(before.kv(), pk),
        forall|p: Seq<u8>|
            p != pk ==> #[trigger] contains_key(snap.kv(), p) == contains_key(after.kv(), p),
{
}

} // verus!
