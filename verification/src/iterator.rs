//! The bounded cursor: a point-in-time copy of the physical keyspace walked
//! one position at a time, showing only the entries of one column family
//! whose logical keys fall inside the caller's bounds. Seeks land on the
//! first physical position at or after their target; seeking to the end
//! walks forward to the last visible position of the family, as the
//! underlying engine's forward-biased seek primitive demands.

use vstd::prelude::*;
use vstd::slice::slice_to_vec;
use crate::error::Error;
use crate::keyspace::{all_keys_wf, kv_of, sorted_kv};
use crate::order::{
    bytes_eq, bytes_lt, lex_le, lex_lt, lemma_lex_lt_asymmetric, lemma_lex_lt_irreflexive,
    lemma_lex_trichotomy,
};
use crate::utils::{
    decode_physical, lemma_decode_encode, spec_decode_cf, spec_decode_key, spec_encode,
};
use crate::engine::SeekKey;

verus! {

/// The entry at `i` is one the cursor shows: it belongs to the cursor's
/// family and its logical key lies inside the bounds; an empty bound leaves
/// that side unbounded.
pub open spec fn visible_entry(
    es: Seq<(Seq<u8>, Seq<u8>)>,
    cf: Seq<u8>,
    lower: Option<Seq<u8>>,
    upper: Option<Seq<u8>>,
    i: int,
) -> bool {
    &&& 0 <= i < es.len()
    &&& spec_decode_cf(es[i].0) == cf
    &&& match lower {
        Some(l) => l.len() == 0 || lex_le(l, spec_decode_key(es[i].0)),
        None => true,
    }
    &&& match upper {
        Some(u) => u.len() == 0 || lex_lt(spec_decode_key(es[i].0), u),
        None => true,
    }
}

/// `p` is the first position of `es` whose key is at or after `t`
/// (`es.len()` when every key is before `t`).
pub open spec fn first_ge(es: Seq<(Seq<u8>, Seq<u8>)>, t: Seq<u8>, p: int) -> bool {
    &&& 0 <= p <= es.len()
    &&& forall|j: int| 0 <= j < p ==> lex_lt((#[trigger] es[j]).0, t)
    &&& (p < es.len() ==> lex_le(t, es[p].0))
}

/// In a sorted entry sequence the first position at or after a target is
/// unique.
pub proof fn lemma_first_ge_unique(es: Seq<(Seq<u8>, Seq<u8>)>, t: Seq<u8>, p: int, q: int)
    requires
        sorted_kv(es),
        first_ge(es, t, p),
        first_ge(es, t, q),
    ensures
        p == q,
{
    if p < q {
        assert(lex_lt(es[p].0, t));
        assert(lex_le(t, es[p].0));
        lemma_lex_lt_asymmetric(es[p].0, t);
        lemma_lex_lt_irreflexive(t);
    } else if q < p {
        assert(lex_lt(es[q].0, t));
        assert(lex_le(t, es[q].0));
        lemma_lex_lt_asymmetric(es[q].0, t);
        lemma_lex_lt_irreflexive(t);
    }
}

/// A cursor over one family of the multiplexed keyspace.
pub struct AgateEngineIterator {
    entries: Vec<(Vec<u8>, Vec<u8>)>,
    pos: usize,
    off_front: bool,
    cf: Vec<u8>,
    lower: Option<Vec<u8>>,
    upper: Option<Vec<u8>>,
}

/// What a plain forward seek leaves behind: the cursor stands on the first
/// position at or after `t`, and the call reported whether that position is
/// visible.
pub open spec fn seek_ge_outcome(
    post: AgateEngineIterator,
    t: Seq<u8>,
    r: Result<bool, Error>,
) -> bool {
    &&& !post.s_off()
    &&& first_ge(post.s_entries(), t, post.s_pos())
    &&& r == Ok::<bool, Error>(post.spec_valid())
}

/// What a seek to the family's last position leaves behind: nothing is
/// visible at the family's first position and the call reported false, or
/// the cursor stands at the end of the run of visible positions that starts
/// at the family's first position.
pub open spec fn seek_last_outcome(
    post: AgateEngineIterator,
    r: Result<bool, Error>,
) -> bool {
    &&& !post.s_off()
    &&& exists|p0: int|
        #![trigger post.visible_at(p0)]
        first_ge(post.s_entries(), spec_encode(post.s_cf(), Seq::<u8>::empty()), p0) && ({
            if p0 == post.s_entries().len() || !post.visible_at(p0) {
                r == Ok::<bool, Error>(false)
            } else {
                &&& r == Ok::<bool, Error>(true)
                &&& post.spec_valid()
                &&& p0 <= post.s_pos() < post.s_entries().len()
                &&& (forall|m: int| p0 <= m <= post.s_pos() ==> post.visible_at(m))
                &&& (post.s_pos() + 1 == post.s_entries().len() || !post.visible_at(
                    post.s_pos() + 1,
                ))
            }
        })
}

impl AgateEngineIterator {
    /// The snapshot of physical entries the cursor walks.
    pub closed spec fn s_entries(self) -> Seq<(Seq<u8>, Seq<u8>)> {
        kv_of(self.entries@)
    }

    /// The bytes of the family this cursor shows.
    pub closed spec fn s_cf(self) -> Seq<u8> {
        self.cf@
    }

    /// The caller's lower logical-key bound.
    pub closed spec fn s_lower(self) -> Option<Seq<u8>> {
        match self.lower {
            Some(v) => Some(v@),
            None => None,
        }
    }

    /// The caller's upper logical-key bound.
    pub closed spec fn s_upper(self) -> Option<Seq<u8>> {
        match self.upper {
            Some(v) => Some(v@),
            None => None,
        }
    }

    /// The native position: an index into the snapshot, or its length when
    /// the cursor ran off the back.
    pub closed spec fn s_pos(self) -> int {
        self.pos as int
    }

    /// The cursor ran off the front.
    pub closed spec fn s_off(self) -> bool {
        self.off_front
    }

    /// The entry at `i` is one this cursor shows.
    pub open spec fn visible_at(self, i: int) -> bool {
        visible_entry(self.s_entries(), self.s_cf(), self.s_lower(), self.s_upper(), i)
    }

    /// The cursor is positioned on an entry it shows.
    pub open spec fn spec_valid(self) -> bool {
        &&& !self.s_off()
        &&& self.s_pos() < self.s_entries().len()
        &&& self.visible_at(self.s_pos())
    }

    /// The native cursor is positioned somewhere in the snapshot.
    pub open spec fn native_valid(self) -> bool {
        !self.s_off() && self.s_pos() < self.s_entries().len()
    }

    /// Everything but the position agrees between the two cursor states.
    pub open spec fn same_config(self, other: AgateEngineIterator) -> bool {
        &&& self.s_entries() == other.s_entries()
        &&& self.s_cf() == other.s_cf()
        &&& self.s_lower() == other.s_lower()
        &&& self.s_upper() == other.s_upper()
    }

    #[verifier::type_invariant]
    pub(crate) closed spec fn inv(self) -> bool {
        &&& sorted_kv(kv_of(self.entries@))
        &&& all_keys_wf(kv_of(self.entries@))
        &&& self.pos <= self.entries@.len()
    }

    /// Build a cursor over a sorted snapshot; it starts unpositioned.
    pub(crate) fn from_parts(
        entries: Vec<(Vec<u8>, Vec<u8>)>,
        cf: Vec<u8>,
        lower: Option<Vec<u8>>,
        upper: Option<Vec<u8>>,
    ) -> (r: AgateEngineIterator)
        requires
            sorted_kv(kv_of(entries@)),
            all_keys_wf(kv_of(entries@)),
        ensures
            r.s_entries() == kv_of(entries@),
            r.s_cf() == cf@,
            r.s_lower() == match lower {
                Some(v) => Some::<Seq<u8>>(v@),
                None => None::<Seq<u8>>,
            },
            r.s_upper() == match upper {
                Some(v) => Some::<Seq<u8>>(v@),
                None => None::<Seq<u8>>,
            },
            r.s_pos() == kv_of(entries@).len(),
            !r.s_off(),
    {
        let pos = entries.len();
        AgateEngineIterator { entries, pos, off_front: false, cf, lower, upper }
    }

    /// Is the cursor positioned on an entry of its family inside its
    /// bounds? Never fails; the `Result` mirrors the cursor interface.
    pub fn valid(&self) -> (r: Result<bool, Error>)
        ensures
            r == Ok::<bool, Error>(self.spec_valid()),
    {
        proof {
            use_type_invariant(&*self);
        }
        if self.off_front || self.pos >= self.entries.len() {
            return Ok(false);
        }
        let (dcf, dkey) = decode_physical(self.entries[self.pos].0.as_slice());
        if !bytes_eq(dcf.as_slice(), self.cf.as_slice()) {
            return Ok(false);
        }
        match &self.lower {
            Some(l) => {
                if !l.is_empty() && bytes_lt(dkey.as_slice(), l.as_slice()) {
                    proof {
                        lemma_lex_trichotomy(l@, dkey@);
                        lemma_lex_lt_asymmetric(dkey@, l@);
                        lemma_lex_lt_irreflexive(dkey@);
                    }
                    return Ok(false);
                }
            },
            None => {},
        }
        match &self.upper {
            Some(u) => {
                if !u.is_empty() && !bytes_lt(dkey.as_slice(), u.as_slice()) {
                    return Ok(false);
                }
            },
            None => {},
        }
        proof {
            match self.s_lower() {
                Some(l) => {
                    if l.len() > 0 {
                        lemma_lex_trichotomy(l, dkey@);
                    }
                },
                None => {},
            }
        }
        Ok(true)
    }

    /// The logical key under the cursor.
    pub fn key(&self) -> (r: Vec<u8>)
        requires
            self.spec_valid(),
        ensures
            r@ == spec_decode_key(self.s_entries()[self.s_pos()].0),
    {
        proof {
            use_type_invariant(&*self);
        }
        let (_dcf, dkey) = decode_physical(self.entries[self.pos].0.as_slice());
        dkey
    }

    /// The value under the cursor.
    pub fn value(&self) -> (r: Vec<u8>)
        requires
            self.spec_valid(),
        ensures
            r@ == self.s_entries()[self.s_pos()].1,
    {
        proof {
            use_type_invariant(&*self);
        }
        slice_to_vec(self.entries[self.pos].1.as_slice())
    }

    /// Step one physical position forward; stepping an unpositioned cursor
    /// is a usage error.
    pub fn next(&mut self) -> (r: Result<bool, Error>)
        ensures
            old(self).same_config(*final(self)),
            !old(self).native_valid() ==> r == Err::<bool, Error>(Error::CursorMisuse) && *final(self) == *old(self),
            old(self).native_valid() ==> final(self).s_pos() == old(self).s_pos() + 1 && !final(self).s_off() && r == Ok::<bool, Error>(final(self).spec_valid()),
    {
        proof {
            use_type_invariant(&*self);
        }
        if self.off_front || self.pos >= self.entries.len() {
            return Err(Error::CursorMisuse);
        }
        self.off_front = false;
        self.pos = self.pos + 1;
        self.valid()
    }

    /// Step one physical position back; stepping before the front leaves
    /// the cursor unpositioned, and stepping an unpositioned cursor is a
    /// usage error.
    pub fn prev(&mut self) -> (r: Result<bool, Error>)
        ensures
            old(self).same_config(*final(self)),
            !old(self).native_valid() ==> r == Err::<bool, Error>(Error::CursorMisuse) && *final(self) == *old(self),
            old(self).native_valid() && old(self).s_pos() == 0 ==> final(self).s_off() && r
                == Ok::<bool, Error>(false),
            old(self).native_valid() && old(self).s_pos() > 0 ==> final(self).s_pos() == old(self).s_pos() - 1 && !final(self).s_off() && r == Ok::<bool, Error>(
                final(self).spec_valid(),
            ),
    {
        proof {
            use_type_invariant(&*self);
        }
        if self.off_front || self.pos >= self.entries.len() {
            return Err(Error::CursorMisuse);
        }
        if self.pos == 0 {
            self.off_front = true;
            return Ok(false);
        }
        self.pos = self.pos - 1;
        self.valid()
    }

    /// The physical key that stands for `k` in this cursor's family.
    fn make_target(&self, k: &[u8]) -> (t: Vec<u8>)
        ensures
            t@ == spec_encode(self.s_cf(), k@),
    {
        let mut t = slice_to_vec(self.cf.as_slice());
        t.push(64u8);
        t.push(33u8);
        t.push(64u8);
        let mut tail = slice_to_vec(k);
        t.append(&mut tail);
        proof {
            assert(t@ =~= spec_encode(self.s_cf(), k@));
        }
        t
    }

    /// Position the native cursor on the first entry whose physical key is
    /// at or after `target`, and report whether that position is visible.
    fn seek_native(&mut self, target: &[u8]) -> (r: bool)
        ensures
            old(self).same_config(*final(self)),
            !final(self).s_off(),
            first_ge(final(self).s_entries(), target@, final(self).s_pos()),
            r == final(self).spec_valid(),
    {
        proof {
            use_type_invariant(&*self);
        }
        let n = self.entries.len();
        let mut i: usize = 0;
        while i < n
            invariant
                i <= n,
                n == self.s_entries().len(),
                *self == *old(self),
                forall|j: int| 0 <= j < i ==> lex_lt((#[trigger] self.s_entries()[j]).0, target@),
            ensures
                i <= n,
                *self == *old(self),
                forall|j: int| 0 <= j < i ==> lex_lt((#[trigger] self.s_entries()[j]).0, target@),
                i < n ==> !lex_lt(self.s_entries()[i as int].0, target@),
            decreases n - i,
        {
            let smaller = bytes_lt(self.entries[i].0.as_slice(), target);
            if !smaller {
                break ;
            }
            i = i + 1;
        }
        proof {
            if i < n {
                lemma_lex_trichotomy(target@, self.s_entries()[i as int].0);
            }
        }
        self.off_front = false;
        self.pos = i;
        match self.valid() {
            Ok(b) => b,
            Err(_) => false,
        }
    }

    /// Walk forward from the family's first position to its last visible
    /// one, then re-seek to the key found there: the only way to reach the
    /// last position with a forward-biased seek primitive.
    fn seek_to_last_native(&mut self) -> (r: Result<bool, Error>)
        ensures
            old(self).same_config(*final(self)),
            seek_last_outcome(*final(self), r),
    {
        proof {
            use_type_invariant(&*self);
        }
        let ghost es = self.s_entries();
        let start = self.make_target(&[]);
        let seek_ok = self.seek_native(start.as_slice());
        let ghost p0 = self.s_pos();
        if !seek_ok {
            proof {
                assert(first_ge(self.s_entries(), spec_encode(self.s_cf(), Seq::<u8>::empty()), p0));
                assert(p0 == self.s_entries().len() || !self.visible_at(p0));
            }
            return Ok(false);
        }
        let mut last_key = self.key();
        let more = self.next();
        let mut going = match more {
            Ok(b) => b,
            Err(_) => false,
        };
        while going
            invariant
                old(self).same_config(*self),
                es == self.s_entries(),
                sorted_kv(es),
                all_keys_wf(es),
                !self.s_off(),
                p0 < self.s_pos() <= es.len(),
                forall|m: int| p0 <= m < self.s_pos() ==> self.visible_at(m),
                last_key@ == spec_decode_key(es[self.s_pos() - 1].0),
                going == self.spec_valid(),
                first_ge(es, spec_encode(self.s_cf(), Seq::<u8>::empty()), p0),
                self.visible_at(p0),
            decreases es.len() - self.s_pos(),
        {
            let ghost prev = *self;
            last_key = self.key();
            let step = self.next();
            going = match step {
                Ok(b) => b,
                Err(_) => false,
            };
            proof {
                assert(self.s_entries() == prev.s_entries());
                assert forall|m: int| p0 <= m < self.s_pos() implies self.visible_at(m) by {
                    if m < prev.s_pos() {
                        assert(prev.visible_at(m));
                    } else {
                        assert(m == prev.s_pos());
                        assert(prev.visible_at(m));
                    }
                }
            }
        }
        let ghost w = *self;
        let ghost eidx = self.s_pos() - 1;
        let t2 = self.make_target(last_key.as_slice());
        proof {
            assert(self.visible_at(eidx));
            assert(crate::utils::wf_physical_key(es[eidx].0));
            lemma_decode_encode(es[eidx].0);
            assert(spec_decode_cf(es[eidx].0) == self.s_cf());
            assert(t2@ == es[eidx].0);
        }
        let landed = self.seek_native(t2.as_slice());
        proof {
            assert(first_ge(es, t2@, self.s_pos()));
            assert(first_ge(es, t2@, eidx)) by {
                assert forall|j: int| 0 <= j < eidx implies lex_lt((#[trigger] es[j]).0, t2@) by {
                    assert(lex_lt(es[j].0, es[eidx].0));
                }
            }
            lemma_first_ge_unique(es, t2@, self.s_pos(), eidx);
            assert(self.s_pos() == eidx);
            assert(self.s_entries() == w.s_entries());
            assert(self.s_cf() == w.s_cf());
            assert(self.s_lower() == w.s_lower());
            assert(self.s_upper() == w.s_upper());
            assert forall|m: int| p0 <= m <= self.s_pos() implies self.visible_at(m) by {
                assert(w.visible_at(m));
            }
            assert(self.visible_at(p0));
            assert(self.spec_valid());
            assert(landed == true);
            if self.s_pos() + 1 < es.len() {
                assert(!w.spec_valid());
                assert(w.s_pos() == self.s_pos() + 1);
                assert(!w.visible_at(w.s_pos()));
                assert(!self.visible_at(self.s_pos() + 1));
            }
        }
        Ok(landed)
    }

    /// Position the cursor: at the family's first position, at its last
    /// one, or at the first position at or after a logical key.
    pub fn seek(&mut self, key: SeekKey<'_>) -> (r: Result<bool, Error>)
        ensures
            old(self).same_config(*final(self)),
            match key {
                SeekKey::Start => seek_ge_outcome(
                    *final(self),
                    spec_encode(final(self).s_cf(), Seq::<u8>::empty()),
                    r,
                ),
                SeekKey::End => seek_last_outcome(*final(self), r),
                SeekKey::Key(k) => seek_ge_outcome(
                    *final(self),
                    spec_encode(final(self).s_cf(), k@),
                    r,
                ),
            },
    {
        match key {
            SeekKey::Start => {
                let t = self.make_target(&[]);
                Ok(self.seek_native(t.as_slice()))
            },
            SeekKey::End => self.seek_to_last_native(),
            SeekKey::Key(k) => {
                let t = self.make_target(k);
                Ok(self.seek_native(t.as_slice()))
            },
        }
    }

    /// Position the cursor at the last position whose logical key is at or
    /// before `k` within its run, falling back to the family's last
    /// position when the forward seek ran past everything visible.
    pub fn seek_for_prev(&mut self, key: SeekKey<'_>) -> (r: Result<bool, Error>)
        ensures
            old(self).same_config(*final(self)),
            match key {
                SeekKey::Start => seek_ge_outcome(
                    *final(self),
                    spec_encode(final(self).s_cf(), Seq::<u8>::empty()),
                    r,
                ),
                SeekKey::End => seek_last_outcome(*final(self), r),
                SeekKey::Key(k) => exists|p0: int|
                    #![trigger first_ge(final(self).s_entries(), spec_encode(final(self).s_cf(), k@), p0)]
                    first_ge(final(self).s_entries(), spec_encode(final(self).s_cf(), k@), p0)
                        && ({
                        if p0 < final(self).s_entries().len() && final(self).visible_at(p0) {
                            if spec_decode_key(final(self).s_entries()[p0].0) == k@ {
                                &&& final(self).s_pos() == p0
                                &&& !final(self).s_off()
                                &&& r == Ok::<bool, Error>(true)
                            } else if p0 == 0 {
                                &&& final(self).s_off()
                                &&& r == Ok::<bool, Error>(false)
                            } else {
                                &&& final(self).s_pos() == p0 - 1
                                &&& !final(self).s_off()
                                &&& r == Ok::<bool, Error>(final(self).spec_valid())
                            }
                        } else {
                            seek_last_outcome(*final(self), r)
                        }
                    }),
            },
    {
        match key {
            SeekKey::Start => {
                let t = self.make_target(&[]);
                Ok(self.seek_native(t.as_slice()))
            },
            SeekKey::End => self.seek_to_last_native(),
            SeekKey::Key(k) => {
                let t = self.make_target(k);
                let ok = self.seek_native(t.as_slice());
                let ghost p0 = self.s_pos();
                let ghost mid = *self;
                if !ok {
                    let r = self.seek_to_last_native();
                    proof {
                        assert(self.s_entries() == mid.s_entries());
                        assert(self.s_cf() == mid.s_cf());
                        assert(self.s_lower() == mid.s_lower());
                        assert(self.s_upper() == mid.s_upper());
                        assert(t@ == spec_encode(self.s_cf(), k@));
                        assert(first_ge(self.s_entries(), spec_encode(self.s_cf(), k@), p0));
                        assert(!mid.spec_valid());
                        if p0 < self.s_entries().len() {
                            assert(!mid.visible_at(p0));
                            assert(!self.visible_at(p0));
                        }
                        assert(seek_last_outcome(*self, r));
                        assert(!(p0 < self.s_entries().len() && self.visible_at(p0)));
                    }
                    return r;
                }
                let kk = self.key();
                let same = bytes_eq(kk.as_slice(), k);
                if !same {
                    let stepped = self.prev();
                    let r = match stepped {
                        Ok(_) => self.valid(),
                        Err(e) => Err(e),
                    };
                    proof {
                        assert(self.s_entries() == mid.s_entries());
                        assert(self.s_cf() == mid.s_cf());
                        assert(self.s_lower() == mid.s_lower());
                        assert(self.s_upper() == mid.s_upper());
                        assert(t@ == spec_encode(self.s_cf(), k@));
                        assert(first_ge(self.s_entries(), spec_encode(self.s_cf(), k@), p0));
                        assert(mid.visible_at(p0));
                        assert(self.visible_at(p0));
                        assert(spec_decode_key(self.s_entries()[p0].0) != k@);
                        if p0 == 0 {
                            assert(self.s_off());
                        } else {
                            assert(self.s_pos() == p0 - 1);
                            assert(!self.s_off());
                        }
                    }
                    return r;
                }
                let r = self.valid();
                proof {
                    assert(t@ == spec_encode(self.s_cf(), k@));
                    assert(first_ge(self.s_entries(), spec_encode(self.s_cf(), k@), p0));
                    assert(self.visible_at(p0));
                    assert(spec_decode_key(self.s_entries()[p0].0) == k@);
                    assert(self.s_pos() == p0 && !self.s_off());
                    assert(self.spec_valid());
                    assert(r == Ok::<bool, Error>(true));
                }
                r
            },
        }
    }
}

} // verus!
