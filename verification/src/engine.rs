//! The engine facade: point reads and writes, range deletes and cursors per
//! column family, multiplexed through the key codec onto one flat keyspace.
//! Every family-qualified entry point validates the family against the set
//! declared at open time before touching storage.

use vstd::prelude::*;
use vstd::string::StringExecFns;
use crate::db_vector::AgateDBVector;
use crate::error::Error;
use crate::keyspace::{
    all_keys_wf, contains_key, lemma_all_wf_after_set, lemma_all_wf_subset, same_except,
    sorted_kv, spec_range_match, value_of, Keyspace,
};
use crate::iterator::{first_ge, AgateEngineIterator};
use crate::order::lex_lt;
use crate::utils::{
    add_cf_prefix, default_cf, default_cf_name, lemma_default_cf_valid, spec_decode_cf,
    spec_decode_key, spec_encode, str_bytes, valid_cf_bytes,
};

verus! {

/// Options for a point read. The model keeps no caches, so these carry no
/// weight beyond mirroring the read interface.
pub struct ReadOptions {
    pub fill_cache: bool,
}

impl Default for ReadOptions {
    fn default() -> (r: Self)
        ensures
            r.fill_cache == true,
    {
        ReadOptions { fill_cache: true }
    }
}

/// Options for committing buffered writes.
pub struct WriteOptions {
    pub sync: bool,
}

impl Default for WriteOptions {
    fn default() -> (r: Self)
        ensures
            r.sync == false,
    {
        WriteOptions { sync: false }
    }
}

/// Caller-supplied logical-key bounds for a cursor; an empty or absent bound
/// leaves that side unbounded.
pub struct IterOptions {
    lower_bound: Option<Vec<u8>>,
    upper_bound: Option<Vec<u8>>,
}

impl IterOptions {
    /// The lower logical-key bound, if one was set.
    pub closed spec fn spec_lower(self) -> Option<Seq<u8>> {
        match self.lower_bound {
            Some(v) => Some(v@),
            None => None,
        }
    }

    /// The upper logical-key bound, if one was set.
    pub closed spec fn spec_upper(self) -> Option<Seq<u8>> {
        match self.upper_bound {
            Some(v) => Some(v@),
            None => None,
        }
    }

    pub fn new(lower_bound: Option<Vec<u8>>, upper_bound: Option<Vec<u8>>, fill_cache: bool) -> (r:
        IterOptions)
        ensures
            r.spec_lower() == match lower_bound {
                Some(v) => Some::<Seq<u8>>(v@),
                None => None::<Seq<u8>>,
            },
            r.spec_upper() == match upper_bound {
                Some(v) => Some::<Seq<u8>>(v@),
                None => None::<Seq<u8>>,
            },
    {
        let _ = fill_cache;
        IterOptions { lower_bound, upper_bound }
    }

    pub fn lower_bound(&self) -> (r: Option<&Vec<u8>>)
        ensures
            match r {
                Some(v) => self.spec_lower() == Some(v@),
                None => self.spec_lower() is None,
            },
    {
        self.lower_bound.as_ref()
    }

    pub fn upper_bound(&self) -> (r: Option<&Vec<u8>>)
        ensures
            match r {
                Some(v) => self.spec_upper() == Some(v@),
                None => self.spec_upper() is None,
            },
    {
        self.upper_bound.as_ref()
    }
}

impl Default for IterOptions {
    fn default() -> (r: Self)
        ensures
            r.spec_lower() is None,
            r.spec_upper() is None,
    {
        IterOptions { lower_bound: None, upper_bound: None }
    }
}

/// Where a seek should land.
#[derive(Clone, Copy)]
pub enum SeekKey<'a> {
    /// The first position of the family.
    Start,
    /// The last position of the family.
    End,
    /// The first position at or after the given logical key.
    Key(&'a [u8]),
}

/// How a range delete decides which files or keys to drop. The in-memory
/// model removes by key whatever the strategy says.
#[derive(Clone, Copy, Debug, PartialEq, Eq, Structural)]
pub enum DeleteStrategy {
    DeleteFiles,
    DeleteBlobs,
    DeleteByKey,
    DeleteByRange,
}

/// The physical key `p` falls in one of the given ranges of family `cf`;
/// an empty range end leaves that range unbounded above.
pub open spec fn range_match_any(p: Seq<u8>, cf: Seq<u8>, ranges: Seq<(Vec<u8>, Vec<u8>)>) -> bool {
    exists|j: int|
        0 <= j < ranges.len() && spec_range_match(
            p,
            cf,
            (#[trigger] ranges[j]).0@,
            ranges[j].1@,
            ranges[j].1@.len() == 0,
        )
}

/// The UTF-8 bytes of a sequence of family names.
pub open spec fn names_of(ns: Seq<String>) -> Seq<Seq<u8>> {
    Seq::new(ns.len(), |i: int| str_bytes(ns[i]@))
}

/// The set of declared column-family names, fixed at open time. Every name
/// in it is a valid (ASCII, delimiter-free) family name.
pub struct CfRegistry {
    names: Vec<String>,
}

impl CfRegistry {
    /// The names held, as UTF-8 bytes, in declaration order.
    pub closed spec fn view_names(self) -> Seq<Seq<u8>> {
        names_of(self.names@)
    }

    #[verifier::type_invariant]
    pub(crate) closed spec fn inv(self) -> bool {
        forall|i: int|
            0 <= i < names_of(self.names@).len() ==> valid_cf_bytes(
                #[trigger] names_of(self.names@)[i],
            )
    }
}

/// The column-family emulation engine over one flat ordered keyspace.
pub struct AgateEngine {
    store: Keyspace,
    cf_names: CfRegistry,
}

impl AgateEngine {
    /// The physical entries, as an ordered sequence of byte strings.
    pub closed spec fn kv(self) -> Seq<(Seq<u8>, Seq<u8>)> {
        self.store.kv()
    }

    /// The declared column-family names, as UTF-8 bytes, default first.
    pub closed spec fn names(self) -> Seq<Seq<u8>> {
        self.cf_names.view_names()
    }

    /// Is `cfb` (a name's bytes) a declared column family?
    pub open spec fn is_cf(self, cfb: Seq<u8>) -> bool {
        exists|i: int| 0 <= i < self.names().len() && (#[trigger] self.names()[i]) == cfb
    }

    #[verifier::type_invariant]
    spec fn inv(self) -> bool {
        all_keys_wf(self.kv())
    }

    /// Open an engine over an empty keyspace with the given families beside
    /// the implicit default one. Family names are short ASCII identifiers
    /// and never hold the delimiter byte `@`.
    pub fn new(cfs: Vec<String>) -> (r: AgateEngine)
        requires
            forall|i: int|
                0 <= i < cfs@.len() ==> valid_cf_bytes(str_bytes((#[trigger] cfs@[i])@)),
        ensures
            r.kv().len() == 0,
            r.names().len() == cfs@.len() + 1,
            r.names()[0] == default_cf(),
            forall|i: int| 0 <= i < cfs@.len() ==> r.names()[i + 1] == str_bytes((#[trigger] cfs@[i])@),
    {
        let mut names: Vec<String> = Vec::new();
        names.push(default_cf_name());
        let mut rest = cfs;
        names.append(&mut rest);
        proof {
            lemma_default_cf_valid();
            assert forall|i: int| 0 <= i < names_of(names@).len() implies valid_cf_bytes(
                #[trigger] names_of(names@)[i],
            ) by {
                if i > 0 {
                    assert(names_of(names@)[i] == str_bytes(cfs@[i - 1]@));
                }
            }
        }
        let registry = CfRegistry { names };
        AgateEngine { store: Keyspace::new(), cf_names: registry }
    }

    /// An independent copy of the engine state: what a snapshot holds.
    pub(crate) fn duplicate(&self) -> (r: AgateEngine)
        ensures
            r.kv() == self.kv(),
            r.names() == self.names(),
    {
        proof {
            use_type_invariant(&*self);
            use_type_invariant(&self.cf_names);
        }
        let store = self.store.duplicate();
        let n = self.cf_names.names.len();
        let mut names: Vec<String> = Vec::new();
        let mut i: usize = 0;
        while i < n
            invariant
                i <= n,
                n == self.cf_names.names@.len(),
                names@.len() == i,
                forall|j: int| 0 <= j < i ==> (#[trigger] names@[j])@ == self.cf_names.names@[j]@,
            decreases n - i,
        {
            names.push(self.cf_names.names[i].clone());
            i = i + 1;
        }
        proof {
            assert(names_of(names@) =~= names_of(self.cf_names.names@));
        }
        let registry = CfRegistry { names };
        let r = AgateEngine { store, cf_names: registry };
        proof {
            assert(r.names() == self.names());
        }
        r
    }

    /// An independent copy of the keyspace alone: the working state a
    /// buffered batch replays onto before committing.
    pub(crate) fn dup_store(&self) -> (r: Keyspace)
        ensures
            r.kv() == self.kv(),
            all_keys_wf(r.kv()),
    {
        proof {
            use_type_invariant(&*self);
        }
        self.store.duplicate()
    }

    /// Exchange the keyspace for one prepared elsewhere; the set of
    /// families stays as it is.
    pub(crate) fn replace_store(&mut self, st: Keyspace)
        requires
            all_keys_wf(st.kv()),
        ensures
            final(self).kv() == st.kv(),
            final(self).names() == old(self).names(),
    {
        self.store = st;
    }

    /// Fail fast on a family outside the declared set.
    pub fn check_cf_exist(&self, cf: &str) -> (r: Result<(), Error>)
        ensures
            match r {
                Ok(()) => self.is_cf(str_bytes(cf@)),
                Err(e) => e == Error::UnknownColumnFamily && !self.is_cf(str_bytes(cf@)),
            },
    {
        let n = self.cf_names.names.len();
        let mut i: usize = 0;
        while i < n
            invariant
                i <= n,
                n == self.names().len(),
                forall|j: int| 0 <= j < i ==> (#[trigger] self.names()[j]) != str_bytes(cf@),
            decreases n - i,
        {
            let hit = crate::order::bytes_eq(
                self.cf_names.names[i].as_str().as_bytes(),
                cf.as_bytes(),
            );
            if hit {
                proof {
                    assert(self.names()[i as int] == str_bytes(cf@));
                }
                return Ok(());
            }
            i = i + 1;
        }
        proof {
            if self.is_cf(str_bytes(cf@)) {
                let j = choose|j: int|
                    0 <= j < self.names().len() && (#[trigger] self.names()[j]) == str_bytes(cf@);
                assert(self.names()[j] == str_bytes(cf@));
            }
        }
        Err(Error::UnknownColumnFamily)
    }

    /// The declared family names.
    pub fn cf_names(&self) -> (r: Vec<String>)
        ensures
            r@.len() == self.names().len(),
            forall|i: int| 0 <= i < r@.len() ==> str_bytes((#[trigger] r@[i])@) == self.names()[i],
    {
        let n = self.cf_names.names.len();
        let mut out: Vec<String> = Vec::new();
        let mut i: usize = 0;
        while i < n
            invariant
                i <= n,
                n == self.names().len(),
                out@.len() == i,
                forall|j: int| 0 <= j < i ==> str_bytes((#[trigger] out@[j])@) == self.names()[j],
            decreases n - i,
        {
            out.push(self.cf_names.names[i].clone());
            i = i + 1;
        }
        out
    }

    /// Point read in the default family.
    pub fn get_value_opt(&self, opts: &ReadOptions, key: &[u8]) -> (r: Result<
        Option<AgateDBVector>,
        Error,
    >)
        ensures
            match r {
                Ok(Some(v)) => contains_key(self.kv(), spec_encode(default_cf(), key@)) && v@
                    == value_of(self.kv(), spec_encode(default_cf(), key@)),
                Ok(None) => !contains_key(self.kv(), spec_encode(default_cf(), key@)),
                Err(_) => false,
            },
    {
        let _ = opts;
        let pk = add_cf_prefix(key, None);
        match self.store.get(pk.as_slice()) {
            Some(v) => Ok(Some(AgateDBVector::from_raw(v.as_slice()))),
            None => Ok(None),
        }
    }

    /// Point read in the named family; an unknown family fails fast.
    pub fn get_value_cf_opt(&self, opts: &ReadOptions, cf: &str, key: &[u8]) -> (r: Result<
        Option<AgateDBVector>,
        Error,
    >)
        ensures
            match r {
                Ok(Some(v)) => self.is_cf(str_bytes(cf@)) && contains_key(
                    self.kv(),
                    spec_encode(str_bytes(cf@), key@),
                ) && v@ == value_of(self.kv(), spec_encode(str_bytes(cf@), key@)),
                Ok(None) => self.is_cf(str_bytes(cf@)) && !contains_key(
                    self.kv(),
                    spec_encode(str_bytes(cf@), key@),
                ),
                Err(e) => e == Error::UnknownColumnFamily && !self.is_cf(str_bytes(cf@)),
            },
    {
        let _ = opts;
        match self.check_cf_exist(cf) {
            Ok(()) => {},
            Err(e) => {
                return Err(e);
            },
        }
        let pk = add_cf_prefix(key, Some(string_clone_of_str(cf)));
        match self.store.get(pk.as_slice()) {
            Some(v) => Ok(Some(AgateDBVector::from_raw(v.as_slice()))),
            None => Ok(None),
        }
    }

    /// Point write in the default family: one mutation, applied at once.
    pub fn put(&mut self, key: &[u8], value: &[u8]) -> (r: Result<(), Error>)
        ensures
            r == Ok::<(), Error>(()),
            contains_key(final(self).kv(), spec_encode(default_cf(), key@)),
            value_of(final(self).kv(), spec_encode(default_cf(), key@)) == value@,
            same_except(old(self).kv(), final(self).kv(), spec_encode(default_cf(), key@)),
            final(self).names() == old(self).names(),
    {
        proof {
            use_type_invariant(&*self);
        }
        let pk = add_cf_prefix(key, None);
        let mut st = Keyspace::new();
        proof {
            use_type_invariant(&self.store);
        }
        core::mem::swap(&mut st, &mut self.store);
        let ghost es = st.kv();
        st.set(pk, vstd::slice::slice_to_vec(value));
        proof {
            crate::utils::lemma_encode_wf(default_cf(), key@);
            lemma_all_wf_after_set(es, st.kv(), spec_encode(default_cf(), key@));
        }
        self.store = st;
        Ok(())
    }

    /// Point write in the named family; an unknown family fails fast and
    /// leaves storage untouched.
    pub fn put_cf(&mut self, cf: &str, key: &[u8], value: &[u8]) -> (r: Result<(), Error>)
        ensures
            match r {
                Ok(()) => old(self).is_cf(str_bytes(cf@)) && contains_key(
                    final(self).kv(),
                    spec_encode(str_bytes(cf@), key@),
                ) && value_of(final(self).kv(), spec_encode(str_bytes(cf@), key@)) == value@
                    && same_except(
                    old(self).kv(),
                    final(self).kv(),
                    spec_encode(str_bytes(cf@), key@),
                ) && final(self).names() == old(self).names(),
                Err(e) => e == Error::UnknownColumnFamily && !old(self).is_cf(str_bytes(cf@))
                    && *final(self) == *old(self),
            },
    {
        proof {
            use_type_invariant(&*self);
        }
        match self.check_cf_exist(cf) {
            Ok(()) => {},
            Err(e) => {
                return Err(e);
            },
        }
        let pk = add_cf_prefix(key, Some(string_clone_of_str(cf)));
        let mut st = Keyspace::new();
        proof {
            use_type_invariant(&self.store);
        }
        core::mem::swap(&mut st, &mut self.store);
        let ghost es = st.kv();
        st.set(pk, vstd::slice::slice_to_vec(value));
        proof {
            crate::utils::lemma_encode_wf(str_bytes(cf@), key@);
            lemma_all_wf_after_set(es, st.kv(), spec_encode(str_bytes(cf@), key@));
        }
        self.store = st;
        Ok(())
    }

    /// Point delete in the default family.
    pub fn delete(&mut self, key: &[u8]) -> (r: Result<(), Error>)
        ensures
            r == Ok::<(), Error>(()),
            !contains_key(final(self).kv(), spec_encode(default_cf(), key@)),
            same_except(old(self).kv(), final(self).kv(), spec_encode(default_cf(), key@)),
            final(self).names() == old(self).names(),
    {
        proof {
            use_type_invariant(&*self);
        }
        let pk = add_cf_prefix(key, None);
        let mut st = Keyspace::new();
        proof {
            use_type_invariant(&self.store);
        }
        core::mem::swap(&mut st, &mut self.store);
        let ghost es = st.kv();
        st.remove(pk.as_slice());
        proof {
            crate::utils::lemma_encode_wf(default_cf(), key@);
            lemma_all_wf_after_set(es, st.kv(), spec_encode(default_cf(), key@));
        }
        self.store = st;
        Ok(())
    }

    /// Point delete in the named family; an unknown family fails fast.
    pub fn delete_cf(&mut self, cf: &str, key: &[u8]) -> (r: Result<(), Error>)
        ensures
            match r {
                Ok(()) => old(self).is_cf(str_bytes(cf@)) && !contains_key(
                    final(self).kv(),
                    spec_encode(str_bytes(cf@), key@),
                ) && same_except(
                    old(self).kv(),
                    final(self).kv(),
                    spec_encode(str_bytes(cf@), key@),
                ) && final(self).names() == old(self).names(),
                Err(e) => e == Error::UnknownColumnFamily && !old(self).is_cf(str_bytes(cf@))
                    && *final(self) == *old(self),
            },
    {
        proof {
            use_type_invariant(&*self);
        }
        match self.check_cf_exist(cf) {
            Ok(()) => {},
            Err(e) => {
                return Err(e);
            },
        }
        let pk = add_cf_prefix(key, Some(string_clone_of_str(cf)));
        let mut st = Keyspace::new();
        proof {
            use_type_invariant(&self.store);
        }
        core::mem::swap(&mut st, &mut self.store);
        let ghost es = st.kv();
        st.remove(pk.as_slice());
        proof {
            crate::utils::lemma_encode_wf(str_bytes(cf@), key@);
            lemma_all_wf_after_set(es, st.kv(), spec_encode(str_bytes(cf@), key@));
        }
        self.store = st;
        Ok(())
    }

    /// Delete every default-family entry with logical key in `[begin, end)`;
    /// an empty `end` leaves the range unbounded above. A reversed range
    /// fails before any storage is touched.
    pub fn delete_range(&mut self, begin_key: &[u8], end_key: &[u8]) -> (r: Result<(), Error>)
        ensures
            lex_lt(end_key@, begin_key@) ==> r == Err::<(), Error>(Error::InvalidRange)
                && *final(self) == *old(self),
            !lex_lt(end_key@, begin_key@) ==> r == Ok::<(), Error>(()) && final(self).names()
                == old(self).names() && (forall|p: Seq<u8>|
                #![trigger contains_key(final(self).kv(), p)]
                contains_key(final(self).kv(), p) == (contains_key(old(self).kv(), p)
                    && !spec_range_match(
                    p,
                    default_cf(),
                    begin_key@,
                    end_key@,
                    end_key@.len() == 0,
                ))) && (forall|p: Seq<u8>|
                #![trigger value_of(final(self).kv(), p)]
                contains_key(final(self).kv(), p) ==> value_of(final(self).kv(), p) == value_of(
                    old(self).kv(),
                    p,
                )),
    {
        proof {
            use_type_invariant(&*self);
        }
        if crate::order::bytes_lt(end_key, begin_key) {
            return Err(Error::InvalidRange);
        }
        let unbounded = end_key.is_empty();
        let dcf = crate::utils::default_cf_bytes();
        let mut st = Keyspace::new();
        proof {
            use_type_invariant(&self.store);
        }
        core::mem::swap(&mut st, &mut self.store);
        let ghost es = st.kv();
        st.remove_range(dcf.as_slice(), begin_key, end_key, unbounded);
        proof {
            lemma_all_wf_subset(es, st.kv());
        }
        self.store = st;
        Ok(())
    }

    /// Delete every entry of the named family with logical key in
    /// `[begin, end)`. A reversed range fails before the family is even
    /// checked, and an unknown family fails before any storage is touched.
    pub fn delete_range_cf(&mut self, cf: &str, begin_key: &[u8], end_key: &[u8]) -> (r: Result<
        (),
        Error,
    >)
        ensures
            lex_lt(end_key@, begin_key@) ==> r == Err::<(), Error>(Error::InvalidRange)
                && *final(self) == *old(self),
            !lex_lt(end_key@, begin_key@) && !old(self).is_cf(str_bytes(cf@)) ==> r == Err::<
                (),
                Error,
            >(Error::UnknownColumnFamily) && *final(self) == *old(self),
            !lex_lt(end_key@, begin_key@) && old(self).is_cf(str_bytes(cf@)) ==> r == Ok::<
                (),
                Error,
            >(()) && final(self).names() == old(self).names() && (forall|p: Seq<u8>|
                #![trigger contains_key(final(self).kv(), p)]
                contains_key(final(self).kv(), p) == (contains_key(old(self).kv(), p)
                    && !spec_range_match(
                    p,
                    str_bytes(cf@),
                    begin_key@,
                    end_key@,
                    end_key@.len() == 0,
                ))) && (forall|p: Seq<u8>|
                #![trigger value_of(final(self).kv(), p)]
                contains_key(final(self).kv(), p) ==> value_of(final(self).kv(), p) == value_of(
                    old(self).kv(),
                    p,
                )),
    {
        proof {
            use_type_invariant(&*self);
        }
        if crate::order::bytes_lt(end_key, begin_key) {
            return Err(Error::InvalidRange);
        }
        match self.check_cf_exist(cf) {
            Ok(()) => {},
            Err(e) => {
                return Err(e);
            },
        }
        let unbounded = end_key.is_empty();
        let mut st = Keyspace::new();
        proof {
            use_type_invariant(&self.store);
        }
        core::mem::swap(&mut st, &mut self.store);
        let ghost es = st.kv();
        st.remove_range(cf.as_bytes(), begin_key, end_key, unbounded);
        proof {
            lemma_all_wf_subset(es, st.kv());
        }
        self.store = st;
        Ok(())
    }

    /// A cursor over the default family of a point-in-time copy of the
    /// keyspace.
    pub fn iterator_opt(&self, opts: IterOptions) -> (r: Result<AgateEngineIterator, Error>)
        ensures
            match r {
                Ok(it) => it.s_entries() == self.kv() && it.s_cf() == default_cf()
                    && it.s_lower() == opts.spec_lower() && it.s_upper() == opts.spec_upper()
                    && it.s_pos() == self.kv().len() && !it.s_off(),
                Err(_) => false,
            },
    {
        proof {
            use_type_invariant(&*self);
        }
        let entries = self.store.snapshot_entries();
        let cf = crate::utils::default_cf_bytes();
        let IterOptions { lower_bound, upper_bound } = opts;
        Ok(AgateEngineIterator::from_parts(entries, cf, lower_bound, upper_bound))
    }

    /// A cursor over the named family of a point-in-time copy of the
    /// keyspace; an unknown family fails fast.
    pub fn iterator_cf_opt(&self, cf: &str, opts: IterOptions) -> (r: Result<
        AgateEngineIterator,
        Error,
    >)
        ensures
            match r {
                Ok(it) => self.is_cf(str_bytes(cf@)) && it.s_entries() == self.kv() && it.s_cf()
                    == str_bytes(cf@) && it.s_lower() == opts.spec_lower() && it.s_upper()
                    == opts.spec_upper() && it.s_pos() == self.kv().len() && !it.s_off(),
                Err(e) => e == Error::UnknownColumnFamily && !self.is_cf(str_bytes(cf@)),
            },
    {
        proof {
            use_type_invariant(&*self);
        }
        match self.check_cf_exist(cf) {
            Ok(()) => {},
            Err(e) => {
                return Err(e);
            },
        }
        let entries = self.store.snapshot_entries();
        let cfb = vstd::slice::slice_to_vec(cf.as_bytes());
        let IterOptions { lower_bound, upper_bound } = opts;
        Ok(AgateEngineIterator::from_parts(entries, cfb, lower_bound, upper_bound))
    }

    /// The first default-family entry at or after `key`, if the position a
    /// forward seek lands on belongs to the default family.
    pub fn seek(&self, key: &[u8]) -> (r: Result<Option<(Vec<u8>, Vec<u8>)>, Error>)
        ensures
            match r {
                Ok(Some(kv)) => exists|p: int|
                    #![trigger self.kv()[p]]
                    first_ge(self.kv(), spec_encode(default_cf(), key@), p) && p < self.kv().len()
                        && spec_decode_cf(self.kv()[p].0) == default_cf() && kv.0@
                        == spec_decode_key(self.kv()[p].0) && kv.1@ == self.kv()[p].1,
                Ok(None) => forall|p: int|
                    #[trigger] first_ge(self.kv(), spec_encode(default_cf(), key@), p) ==> p
                        == self.kv().len() || spec_decode_cf(self.kv()[p].0) != default_cf(),
                Err(_) => false,
            },
    {
        let it = self.iterator_opt(IterOptions::default());
        let mut it = match it {
            Ok(v) => v,
            Err(e) => {
                return Err(e);
            },
        };
        let found = match it.seek(SeekKey::Key(key)) {
            Ok(b) => b,
            Err(e) => {
                return Err(e);
            },
        };
        if found {
            proof {
                use_type_invariant(&self.store);
                assert(it.visible_at(it.s_pos()));
                assert(first_ge(self.kv(), spec_encode(default_cf(), key@), it.s_pos()));
                assert(self.kv()[it.s_pos()] == it.s_entries()[it.s_pos()]);
            }
            Ok(Some((it.key(), it.value())))
        } else {
            proof {
                use_type_invariant(&self.store);
                assert(sorted_kv(self.kv()));
                assert(first_ge(self.kv(), spec_encode(default_cf(), key@), it.s_pos()));
                assert forall|p: int|
                    #[trigger] first_ge(self.kv(), spec_encode(default_cf(), key@), p) implies p
                    == self.kv().len() || spec_decode_cf(self.kv()[p].0) != default_cf() by {
                    crate::iterator::lemma_first_ge_unique(
                        self.kv(),
                        spec_encode(default_cf(), key@),
                        p,
                        it.s_pos(),
                    );
                    if p < self.kv().len() {
                        assert(!it.spec_valid());
                        assert(!it.visible_at(p));
                    }
                }
            }
            Ok(None)
        }
    }

    /// The first entry of the named family at or after `key`, if the
    /// position a forward seek lands on belongs to that family.
    pub fn seek_cf(&self, cf: &str, key: &[u8]) -> (r: Result<Option<(Vec<u8>, Vec<u8>)>, Error>)
        ensures
            match r {
                Ok(Some(kv)) => self.is_cf(str_bytes(cf@)) && exists|p: int|
                    #![trigger self.kv()[p]]
                    first_ge(self.kv(), spec_encode(str_bytes(cf@), key@), p) && p
                        < self.kv().len() && spec_decode_cf(self.kv()[p].0) == str_bytes(cf@)
                        && kv.0@ == spec_decode_key(self.kv()[p].0) && kv.1@ == self.kv()[p].1,
                Ok(None) => self.is_cf(str_bytes(cf@)) && (forall|p: int|
                    #[trigger] first_ge(self.kv(), spec_encode(str_bytes(cf@), key@), p) ==> p
                        == self.kv().len() || spec_decode_cf(self.kv()[p].0) != str_bytes(cf@)),
                Err(e) => e == Error::UnknownColumnFamily && !self.is_cf(str_bytes(cf@)),
            },
    {
        let it = self.iterator_cf_opt(cf, IterOptions::default());
        let mut it = match it {
            Ok(v) => v,
            Err(e) => {
                return Err(e);
            },
        };
        let found = match it.seek(SeekKey::Key(key)) {
            Ok(b) => b,
            Err(e) => {
                return Err(e);
            },
        };
        if found {
            proof {
                use_type_invariant(&self.store);
                assert(it.visible_at(it.s_pos()));
                assert(first_ge(self.kv(), spec_encode(str_bytes(cf@), key@), it.s_pos()));
                assert(self.kv()[it.s_pos()] == it.s_entries()[it.s_pos()]);
            }
            Ok(Some((it.key(), it.value())))
        } else {
            proof {
                use_type_invariant(&self.store);
                assert(sorted_kv(self.kv()));
                assert(first_ge(self.kv(), spec_encode(str_bytes(cf@), key@), it.s_pos()));
                assert forall|p: int|
                    #[trigger] first_ge(self.kv(), spec_encode(str_bytes(cf@), key@), p) implies p
                    == self.kv().len() || spec_decode_cf(self.kv()[p].0) != str_bytes(cf@) by {
                    crate::iterator::lemma_first_ge_unique(
                        self.kv(),
                        spec_encode(str_bytes(cf@), key@),
                        p,
                        it.s_pos(),
                    );
                    if p < self.kv().len() {
                        assert(!it.spec_valid());
                        assert(!it.visible_at(p));
                    }
                }
            }
            Ok(None)
        }
    }

    /// Walk the default family from `start_key` while logical keys stay
    /// under `end_key`, handing each visible entry to the callback; the
    /// callback returning false stops the walk early, and its error aborts
    /// it.
    pub fn scan<F: FnMut(&[u8], &[u8]) -> Result<bool, Error>>(
        &self,
        start_key: &[u8],
        end_key: &[u8],
        fill_cache: bool,
        f: F,
    ) -> (r: Result<(), Error>)
        requires
            forall|g: F, a: &[u8], b: &[u8]| #[trigger] call_requires(g, (a, b)),
        ensures
            (forall|g: F, a: &[u8], b: &[u8], o: Result<bool, Error>|
                #[trigger] call_ensures(g, (a, b), o) ==> o is Ok) ==> r == Ok::<(), Error>(()),
    {
        let lower = vstd::slice::slice_to_vec(start_key);
        let upper = vstd::slice::slice_to_vec(end_key);
        let it = self.iterator_opt(IterOptions::new(Some(lower), Some(upper), fill_cache));
        let mut it = match it {
            Ok(v) => v,
            Err(e) => {
                return Err(e);
            },
        };
        scan_loop(&mut it, start_key, f)
    }

    /// Walk the named family from `start_key` while logical keys stay under
    /// `end_key`, handing each visible entry to the callback.
    pub fn scan_cf<F: FnMut(&[u8], &[u8]) -> Result<bool, Error>>(
        &self,
        cf: &str,
        start_key: &[u8],
        end_key: &[u8],
        fill_cache: bool,
        f: F,
    ) -> (r: Result<(), Error>)
        requires
            forall|g: F, a: &[u8], b: &[u8]| #[trigger] call_requires(g, (a, b)),
        ensures
            !self.is_cf(str_bytes(cf@)) ==> r == Err::<(), Error>(Error::UnknownColumnFamily),
            self.is_cf(str_bytes(cf@)) && (forall|g: F, a: &[u8], b: &[u8], o: Result<bool, Error>|
                #[trigger] call_ensures(g, (a, b), o) ==> o is Ok) ==> r == Ok::<(), Error>(()),
    {
        let lower = vstd::slice::slice_to_vec(start_key);
        let upper = vstd::slice::slice_to_vec(end_key);
        let it = self.iterator_cf_opt(cf, IterOptions::new(Some(lower), Some(upper), fill_cache));
        let mut it = match it {
            Ok(v) => v,
            Err(e) => {
                return Err(e);
            },
        };
        scan_loop(&mut it, start_key, f)
    }

    /// Isolation law: two point writes of the same logical key into two
    /// distinct valid families land on distinct physical keys, so both
    /// values are independently retrievable afterwards and neither write
    /// disturbed the other.
    pub proof fn lemma_family_isolation(
        es0: Seq<(Seq<u8>, Seq<u8>)>,
        es1: Seq<(Seq<u8>, Seq<u8>)>,
        es2: Seq<(Seq<u8>, Seq<u8>)>,
        cfa: Seq<u8>,
        cfb: Seq<u8>,
        key: Seq<u8>,
        v1: Seq<u8>,
        v2: Seq<u8>,
    )
        requires
            crate::utils::valid_cf_bytes(cfa),
            crate::utils::valid_cf_bytes(cfb),
            cfa != cfb,
            contains_key(es1, spec_encode(cfa, key)),
            value_of(es1, spec_encode(cfa, key)) == v1,
            same_except(es0, es1, spec_encode(cfa, key)),
            contains_key(es2, spec_encode(cfb, key)),
            value_of(es2, spec_encode(cfb, key)) == v2,
            same_except(es1, es2, spec_encode(cfb, key)),
        ensures
            contains_key(es2, spec_encode(cfa, key)),
            value_of(es2, spec_encode(cfa, key)) == v1,
            value_of(es2, spec_encode(cfb, key)) == v2,
    {
        if spec_encode(cfa, key) == spec_encode(cfb, key) {
            crate::utils::lemma_encode_injective(cfa, key, cfb, key);
        }
        assert(contains_key(es1, spec_encode(cfa, key)));
    }

    /// Delete every entry of the named family falling in any of the given
    /// ranges. An empty range list succeeds at once, before the family is
    /// even checked; an empty range end leaves that range unbounded above.
    pub fn delete_ranges_cf(
        &mut self,
        cf: &str,
        strategy: DeleteStrategy,
        ranges: &Vec<(Vec<u8>, Vec<u8>)>,
    ) -> (r: Result<(), Error>)
        ensures
            ranges@.len() == 0 ==> r == Ok::<(), Error>(()) && *final(self) == *old(self),
            ranges@.len() > 0 && !old(self).is_cf(str_bytes(cf@)) ==> r == Err::<(), Error>(
                Error::UnknownColumnFamily,
            ) && *final(self) == *old(self),
            ranges@.len() > 0 && old(self).is_cf(str_bytes(cf@)) ==> r == Ok::<(), Error>(())
                && final(self).names() == old(self).names() && (forall|p: Seq<u8>|
                #![trigger contains_key(final(self).kv(), p)]
                contains_key(final(self).kv(), p) == (contains_key(old(self).kv(), p)
                    && !range_match_any(p, str_bytes(cf@), ranges@))) && (forall|p: Seq<u8>|
                #![trigger value_of(final(self).kv(), p)]
                contains_key(final(self).kv(), p) ==> value_of(final(self).kv(), p) == value_of(
                    old(self).kv(),
                    p,
                )),
    {
        let _ = strategy;
        proof {
            use_type_invariant(&*self);
        }
        if ranges.is_empty() {
            return Ok(());
        }
        match self.check_cf_exist(cf) {
            Ok(()) => {},
            Err(e) => {
                return Err(e);
            },
        }
        let mut work = self.dup_store();
        let n = ranges.len();
        let mut i: usize = 0;
        while i < n
            invariant
                i <= n,
                n == ranges@.len(),
                all_keys_wf(work.kv()),
                forall|p: Seq<u8>|
                    #![trigger contains_key(work.kv(), p)]
                    contains_key(work.kv(), p) == (contains_key(old(self).kv(), p)
                        && !range_match_any(p, str_bytes(cf@), ranges@.take(i as int))),
                forall|p: Seq<u8>|
                    #![trigger value_of(work.kv(), p)]
                    contains_key(work.kv(), p) ==> value_of(work.kv(), p) == value_of(
                        old(self).kv(),
                        p,
                    ),
            decreases n - i,
        {
            let ghost pre = work.kv();
            let unbounded = ranges[i].1.is_empty();
            work.remove_range(
                cf.as_bytes(),
                ranges[i].0.as_slice(),
                ranges[i].1.as_slice(),
                unbounded,
            );
            proof {
                lemma_all_wf_subset(pre, work.kv());
                assert forall|p: Seq<u8>|
                    #![trigger contains_key(work.kv(), p)]
                    contains_key(work.kv(), p) == (contains_key(old(self).kv(), p)
                        && !range_match_any(p, str_bytes(cf@), ranges@.take(i + 1))) by {
                    assert(ranges@.take(i + 1).drop_last() =~= ranges@.take(i as int));
                    assert(ranges@.take(i + 1).last() == ranges@[i as int]);
                    if range_match_any(p, str_bytes(cf@), ranges@.take(i as int)) {
                        let j = choose|j: int|
                            0 <= j < ranges@.take(i as int).len() && spec_range_match(
                                p,
                                str_bytes(cf@),
                                (#[trigger] ranges@.take(i as int)[j]).0@,
                                ranges@.take(i as int)[j].1@,
                                ranges@.take(i as int)[j].1@.len() == 0,
                            );
                        assert(ranges@.take(i + 1)[j] == ranges@.take(i as int)[j]);
                        assert(range_match_any(p, str_bytes(cf@), ranges@.take(i + 1)));
                    }
                    if range_match_any(p, str_bytes(cf@), ranges@.take(i + 1)) {
                        let j = choose|j: int|
                            0 <= j < ranges@.take(i + 1).len() && spec_range_match(
                                p,
                                str_bytes(cf@),
                                (#[trigger] ranges@.take(i + 1)[j]).0@,
                                ranges@.take(i + 1)[j].1@,
                                ranges@.take(i + 1)[j].1@.len() == 0,
                            );
                        if j < i {
                            assert(ranges@.take(i as int)[j] == ranges@.take(i + 1)[j]);
                            assert(range_match_any(p, str_bytes(cf@), ranges@.take(i as int)));
                        }
                    }
                }
            }
            i = i + 1;
        }
        proof {
            assert(ranges@.take(n as int) =~= ranges@);
        }
        self.replace_store(work);
        Ok(())
    }

    /// Take a consistent point-in-time snapshot of the whole keyspace.
    pub fn snapshot(&self) -> (r: crate::snapshot::AgateSnapshot)
        ensures
            r.kv() == self.kv(),
            r.names() == self.names(),
    {
        crate::snapshot::AgateSnapshot::new(self)
    }

    /// A fresh, empty write batch to buffer mutations in.
    pub fn write_batch(&self) -> (r: crate::write_batch::AgateWriteBatch)
        ensures
            r.ops().len() == 0,
            r.sps().len() == 0,
    {
        crate::write_batch::AgateWriteBatch::new()
    }

    /// A fresh write batch; the capacity hint is advisory and ignored by
    /// this buffer.
    pub fn write_batch_with_cap(&self, cap: usize) -> (r: crate::write_batch::AgateWriteBatch)
        ensures
            r.ops().len() == 0,
            r.sps().len() == 0,
    {
        let _ = cap;
        self.write_batch()
    }

    /// Point read in the default family, with default options.
    pub fn get_value(&self, key: &[u8]) -> (r: Result<Option<AgateDBVector>, Error>)
        ensures
            match r {
                Ok(Some(v)) => contains_key(self.kv(), spec_encode(default_cf(), key@)) && v@
                    == value_of(self.kv(), spec_encode(default_cf(), key@)),
                Ok(None) => !contains_key(self.kv(), spec_encode(default_cf(), key@)),
                Err(_) => false,
            },
    {
        self.get_value_opt(&ReadOptions::default(), key)
    }

    /// Point read in the named family, with default options.
    pub fn get_value_cf(&self, cf: &str, key: &[u8]) -> (r: Result<Option<AgateDBVector>, Error>)
        ensures
            match r {
                Ok(Some(v)) => self.is_cf(str_bytes(cf@)) && contains_key(
                    self.kv(),
                    spec_encode(str_bytes(cf@), key@),
                ) && v@ == value_of(self.kv(), spec_encode(str_bytes(cf@), key@)),
                Ok(None) => self.is_cf(str_bytes(cf@)) && !contains_key(
                    self.kv(),
                    spec_encode(str_bytes(cf@), key@),
                ),
                Err(e) => e == Error::UnknownColumnFamily && !self.is_cf(str_bytes(cf@)),
            },
    {
        self.get_value_cf_opt(&ReadOptions::default(), cf, key)
    }
}

/// Drive a positioned cursor forward, handing each visible entry to the
/// callback until it stops the walk, it fails, or the cursor leaves its
/// family or bounds.
fn scan_loop<F: FnMut(&[u8], &[u8]) -> Result<bool, Error>>(
    it: &mut AgateEngineIterator,
    start_key: &[u8],
    f: F,
) -> (r: Result<(), Error>)
    requires
        forall|g: F, a: &[u8], b: &[u8]| #[trigger] call_requires(g, (a, b)),
    ensures
        (forall|g: F, a: &[u8], b: &[u8], o: Result<bool, Error>|
            #[trigger] call_ensures(g, (a, b), o) ==> o is Ok) ==> r == Ok::<(), Error>(()),
{
    let mut f = f;
    let mut going = match it.seek(SeekKey::Key(start_key)) {
        Ok(b) => b,
        Err(e) => {
            return Err(e);
        },
    };
    loop
        invariant
            going ==> it.spec_valid(),
            it.s_pos() <= it.s_entries().len(),
            forall|g: F, a: &[u8], b: &[u8]| #[trigger] call_requires(g, (a, b)),
        decreases it.s_entries().len() - it.s_pos() + (if going {
            1int
        } else {
            0int
        }),
    {
        if !going {
            return Ok(());
        }
        let k = it.key();
        let v = it.value();
        let cont = match f(k.as_slice(), v.as_slice()) {
            Ok(b) => b,
            Err(e) => {
                return Err(e);
            },
        };
        if !cont {
            return Ok(());
        }
        going = match it.next() {
            Ok(b) => b,
            Err(e) => {
                return Err(e);
            },
        };
    }
}

/// An owned copy of a borrowed name.
pub(crate) fn string_clone_of_str(s: &str) -> (r: String)
    ensures
        r@ == s@,
{
    String::from_str(s)
}

} // verus!
