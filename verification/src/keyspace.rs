//! The flat ordered physical keyspace: the layer's model of the single
//! keyspace the underlying engine exposes. Entries are kept strictly sorted
//! by lexicographic key order; point reads, point writes and range removal
//! are specified against an ordered-map reading of the entry sequence.

use vstd::prelude::*;
use vstd::slice::slice_to_vec;
use crate::order::{
    lex_le, lex_lt, lemma_lex_lt_irreflexive, lemma_lex_lt_transitive, lemma_lex_trichotomy,
};
use crate::utils::{spec_decode_cf, spec_decode_key};

verus! {

/// The (key, value) byte sequences of a vector of entries, in order.
pub open spec fn kv_of(es: Seq<(Vec<u8>, Vec<u8>)>) -> Seq<(Seq<u8>, Seq<u8>)> {
    Seq::new(es.len(), |i: int| (es[i].0@, es[i].1@))
}

/// Keys strictly increase along the sequence.
pub open spec fn sorted_kv(es: Seq<(Seq<u8>, Seq<u8>)>) -> bool {
    forall|i: int, j: int|
        0 <= i < j < es.len() ==> lex_lt(#[trigger] es[i].0, #[trigger] es[j].0)
}

/// Some entry holds the key `k`.
pub open spec fn contains_key(es: Seq<(Seq<u8>, Seq<u8>)>, k: Seq<u8>) -> bool {
    exists|i: int| 0 <= i < es.len() && (#[trigger] es[i].0) == k
}

/// The position of the entry holding `k`.
pub open spec fn index_of_key(es: Seq<(Seq<u8>, Seq<u8>)>, k: Seq<u8>) -> int {
    choose|i: int| 0 <= i < es.len() && (#[trigger] es[i].0) == k
}

/// The value stored under `k`.
pub open spec fn value_of(es: Seq<(Seq<u8>, Seq<u8>)>, k: Seq<u8>) -> Seq<u8> {
    es[index_of_key(es, k)].1
}

/// The two entry sequences agree, as maps, on every key but `k`.
pub open spec fn same_except(
    es1: Seq<(Seq<u8>, Seq<u8>)>,
    es2: Seq<(Seq<u8>, Seq<u8>)>,
    k: Seq<u8>,
) -> bool {
    forall|k2: Seq<u8>|
        #![trigger contains_key(es1, k2)]
        #![trigger contains_key(es2, k2)]
        k2 != k ==> {
            &&& contains_key(es1, k2) == contains_key(es2, k2)
            &&& (contains_key(es1, k2) ==> value_of(es1, k2) == value_of(es2, k2))
        }
}

/// The physical key `p` falls to a range removal over family `cf` with
/// logical bounds `[begin, end)`; an unbounded end ignores `end`.
pub open spec fn spec_range_match(
    p: Seq<u8>,
    cf: Seq<u8>,
    begin: Seq<u8>,
    end: Seq<u8>,
    unbounded_end: bool,
) -> bool {
    &&& spec_decode_cf(p) == cf
    &&& lex_le(begin, spec_decode_key(p))
    &&& (unbounded_end || lex_lt(spec_decode_key(p), end))
}

/// Every key of the entry sequence is a well-formed physical key.
pub open spec fn all_keys_wf(es: Seq<(Seq<u8>, Seq<u8>)>) -> bool {
    forall|i: int| 0 <= i < es.len() ==> crate::utils::wf_physical_key((#[trigger] es[i]).0)
}

/// A write of one well-formed key keeps every stored key well formed.
pub proof fn lemma_all_wf_after_set(
    es1: Seq<(Seq<u8>, Seq<u8>)>,
    es2: Seq<(Seq<u8>, Seq<u8>)>,
    k: Seq<u8>,
)
    requires
        all_keys_wf(es1),
        crate::utils::wf_physical_key(k),
        same_except(es1, es2, k),
    ensures
        all_keys_wf(es2),
{
    assert forall|i: int| 0 <= i < es2.len() implies crate::utils::wf_physical_key(
        (#[trigger] es2[i]).0,
    ) by {
        let key = es2[i].0;
        assert(contains_key(es2, key));
        if key != k {
            assert(contains_key(es1, key));
            let j = index_of_key(es1, key);
            assert(es1[j].0 == key);
        }
    }
}

/// Dropping entries keeps every stored key well formed.
pub proof fn lemma_all_wf_subset(es1: Seq<(Seq<u8>, Seq<u8>)>, es2: Seq<(Seq<u8>, Seq<u8>)>)
    requires
        all_keys_wf(es1),
        forall|p: Seq<u8>| #[trigger] contains_key(es2, p) ==> contains_key(es1, p),
    ensures
        all_keys_wf(es2),
{
    assert forall|i: int| 0 <= i < es2.len() implies crate::utils::wf_physical_key(
        (#[trigger] es2[i]).0,
    ) by {
        let key = es2[i].0;
        assert(contains_key(es2, key));
        assert(contains_key(es1, key));
        let j = index_of_key(es1, key);
        assert(es1[j].0 == key);
    }
}

/// In a sorted entry sequence a key occurs at most once.
pub proof fn lemma_sorted_key_unique(es: Seq<(Seq<u8>, Seq<u8>)>, i: int, j: int)
    requires
        sorted_kv(es),
        0 <= i < es.len(),
        0 <= j < es.len(),
        es[i].0 == es[j].0,
    ensures
        i == j,
{
    if i < j {
        assert(lex_lt(es[i].0, es[j].0));
        lemma_lex_lt_irreflexive(es[i].0);
    } else if j < i {
        assert(lex_lt(es[j].0, es[i].0));
        lemma_lex_lt_irreflexive(es[i].0);
    }
}

/// The value looked up under the key of entry `i` is that entry's value.
pub proof fn lemma_value_at(es: Seq<(Seq<u8>, Seq<u8>)>, i: int)
    requires
        sorted_kv(es),
        0 <= i < es.len(),
    ensures
        contains_key(es, es[i].0),
        value_of(es, es[i].0) == es[i].1,
{
    assert(contains_key(es, es[i].0));
    let j = index_of_key(es, es[i].0);
    lemma_sorted_key_unique(es, i, j);
}

/// Replacing the value at position `i` updates that key and no other.
pub proof fn lemma_update_semantics(es: Seq<(Seq<u8>, Seq<u8>)>, i: int, v: Seq<u8>)
    requires
        sorted_kv(es),
        0 <= i < es.len(),
    ensures
        sorted_kv(es.update(i, (es[i].0, v))),
        contains_key(es.update(i, (es[i].0, v)), es[i].0),
        value_of(es.update(i, (es[i].0, v)), es[i].0) == v,
        same_except(es, es.update(i, (es[i].0, v)), es[i].0),
{
    let es2 = es.update(i, (es[i].0, v));
    assert forall|a: int, b: int| 0 <= a < b < es2.len() implies lex_lt(
        #[trigger] es2[a].0,
        #[trigger] es2[b].0,
    ) by {
        assert(es2[a].0 == es[a].0);
        assert(es2[b].0 == es[b].0);
    }
    lemma_value_at(es2, i);
    assert(es2[i].0 == es[i].0);
    assert forall|k2: Seq<u8>|
        #![trigger contains_key(es, k2)]
        #![trigger contains_key(es2, k2)]
        k2 != es[i].0 implies {
        &&& contains_key(es, k2) == contains_key(es2, k2)
        &&& (contains_key(es, k2) ==> value_of(es, k2) == value_of(es2, k2))
    } by {
        if contains_key(es, k2) {
            let j = index_of_key(es, k2);
            assert(j != i);
            assert(es2[j] == es[j]);
            assert(contains_key(es2, k2));
            lemma_value_at(es2, j);
            lemma_value_at(es, j);
        }
        if contains_key(es2, k2) {
            let j = index_of_key(es2, k2);
            assert(j != i);
            assert(es2[j] == es[j]);
            assert(contains_key(es, k2));
        }
    }
}

/// Inserting a fresh key at its sorted position adds that key and no other.
pub proof fn lemma_insert_semantics(es: Seq<(Seq<u8>, Seq<u8>)>, i: int, k: Seq<u8>, v: Seq<u8>)
    requires
        sorted_kv(es),
        0 <= i <= es.len(),
        forall|j: int| 0 <= j < i ==> lex_lt(#[trigger] es[j].0, k),
        forall|j: int| i <= j < es.len() ==> lex_lt(k, #[trigger] es[j].0),
    ensures
        sorted_kv(es.insert(i, (k, v))),
        contains_key(es.insert(i, (k, v)), k),
        value_of(es.insert(i, (k, v)), k) == v,
        same_except(es, es.insert(i, (k, v)), k),
{
    let es2 = es.insert(i, (k, v));
    es.insert_ensures(i, (k, v));
    assert forall|a: int, b: int| 0 <= a < b < es2.len() implies lex_lt(
        #[trigger] es2[a].0,
        #[trigger] es2[b].0,
    ) by {
        if a < i && b < i {
            assert(es2[a] == es[a] && es2[b] == es[b]);
        } else if a < i && b == i {
            assert(es2[a] == es[a]);
        } else if a < i && b > i {
            assert(es2[a] == es[a] && es2[b] == es[b - 1]);
            lemma_lex_lt_transitive(es[a].0, k, es[b - 1].0);
        } else if a == i && b > i {
            assert(es2[b] == es[b - 1]);
        } else if a > i && b > i {
            assert(es2[a] == es[a - 1] && es2[b] == es[b - 1]);
        }
    }
    assert(es2[i].0 == k);
    lemma_value_at(es2, i);
    assert forall|k2: Seq<u8>|
        #![trigger contains_key(es, k2)]
        #![trigger contains_key(es2, k2)]
        k2 != k implies {
        &&& contains_key(es, k2) == contains_key(es2, k2)
        &&& (contains_key(es, k2) ==> value_of(es, k2) == value_of(es2, k2))
    } by {
        if contains_key(es, k2) {
            let j = index_of_key(es, k2);
            if j < i {
                assert(es2[j] == es[j]);
                assert(contains_key(es2, k2));
                lemma_value_at(es2, j);
            } else {
                assert(es2[j + 1] == es[j]);
                assert(contains_key(es2, k2));
                lemma_value_at(es2, j + 1);
            }
            lemma_value_at(es, j);
        }
        if contains_key(es2, k2) {
            let j = index_of_key(es2, k2);
            assert(j != i);
            if j < i {
                assert(es2[j] == es[j]);
                assert(contains_key(es, k2));
            } else {
                assert(es2[j] == es[j - 1]);
                assert(contains_key(es, k2));
            }
        }
    }
}

/// Removing the entry at position `i` drops that key and no other.
pub proof fn lemma_remove_semantics(es: Seq<(Seq<u8>, Seq<u8>)>, i: int)
    requires
        sorted_kv(es),
        0 <= i < es.len(),
    ensures
        sorted_kv(es.remove(i)),
        !contains_key(es.remove(i), es[i].0),
        same_except(es, es.remove(i), es[i].0),
{
    let es2 = es.remove(i);
    es.remove_ensures(i);
    assert forall|a: int, b: int| 0 <= a < b < es2.len() implies lex_lt(
        #[trigger] es2[a].0,
        #[trigger] es2[b].0,
    ) by {
        if a < i && b < i {
            assert(es2[a] == es[a] && es2[b] == es[b]);
        } else if a < i && b >= i {
            assert(es2[a] == es[a] && es2[b] == es[b + 1]);
        } else {
            assert(es2[a] == es[a + 1] && es2[b] == es[b + 1]);
        }
    }
    if contains_key(es2, es[i].0) {
        let j = index_of_key(es2, es[i].0);
        if j < i {
            assert(es2[j] == es[j]);
            lemma_sorted_key_unique(es, j, i);
        } else {
            assert(es2[j] == es[j + 1]);
            lemma_sorted_key_unique(es, j + 1, i);
        }
    }
    assert forall|k2: Seq<u8>|
        #![trigger contains_key(es, k2)]
        #![trigger contains_key(es2, k2)]
        k2 != es[i].0 implies {
        &&& contains_key(es, k2) == contains_key(es2, k2)
        &&& (contains_key(es, k2) ==> value_of(es, k2) == value_of(es2, k2))
    } by {
        if contains_key(es, k2) {
            let j = index_of_key(es, k2);
            assert(j != i);
            if j < i {
                assert(es2[j] == es[j]);
                assert(contains_key(es2, k2));
                lemma_value_at(es2, j);
            } else {
                assert(es2[j - 1] == es[j]);
                assert(contains_key(es2, k2));
                lemma_value_at(es2, j - 1);
            }
            lemma_value_at(es, j);
        }
        if contains_key(es2, k2) {
            let j = index_of_key(es2, k2);
            if j < i {
                assert(es2[j] == es[j]);
                assert(contains_key(es, k2));
            } else {
                assert(es2[j] == es[j + 1]);
                assert(contains_key(es, k2));
            }
        }
    }
}

/// The flat ordered keyspace.
pub struct Keyspace {
    entries: Vec<(Vec<u8>, Vec<u8>)>,
}

impl Keyspace {
    /// The stored entries as byte sequences, in key order.
    pub closed spec fn kv(self) -> Seq<(Seq<u8>, Seq<u8>)> {
        kv_of(self.entries@)
    }

    #[verifier::type_invariant]
    pub(crate) open spec fn inv(self) -> bool {
        sorted_kv(self.kv())
    }


    pub fn new() -> (r: Keyspace)
        ensures
            r.kv() =~= Seq::<(Seq<u8>, Seq<u8>)>::empty(),
    {
        Keyspace { entries: Vec::new() }
    }

    pub fn len(&self) -> (r: usize)
        ensures
            r == self.kv().len(),
    {
        self.entries.len()
    }

    /// Point lookup.
    pub fn get(&self, key: &[u8]) -> (r: Option<Vec<u8>>)
        ensures
            match r {
                Some(v) => contains_key(self.kv(), key@) && v@ == value_of(self.kv(), key@),
                None => !contains_key(self.kv(), key@),
            },
    {
        proof {
            use_type_invariant(&*self);
        }
        let n = self.entries.len();
        let mut i: usize = 0;
        while i < n
            invariant
                i <= n,
                n == self.kv().len(),
                sorted_kv(self.kv()),
                forall|j: int| 0 <= j < i ==> (#[trigger] self.kv()[j].0) != key@,
            decreases n - i,
        {
            let hit = crate::order::bytes_eq(self.entries[i].0.as_slice(), key);
            if hit {
                proof {
                    lemma_value_at(self.kv(), i as int);
                }
                return Some(slice_to_vec(self.entries[i].1.as_slice()));
            }
            i = i + 1;
        }
        proof {
            if contains_key(self.kv(), key@) {
                let j = index_of_key(self.kv(), key@);
                assert(self.kv()[j].0 == key@);
            }
        }
        None
    }

    /// Point write: insert the key or replace its value.
    pub fn set(&mut self, key: Vec<u8>, value: Vec<u8>)
        ensures
            sorted_kv(final(self).kv()),
            contains_key(final(self).kv(), key@),
            value_of(final(self).kv(), key@) == value@,
            same_except(old(self).kv(), final(self).kv(), key@),
    {
        proof {
            use_type_invariant(&*self);
        }
        let ghost es = self.kv();
        let mut work: Vec<(Vec<u8>, Vec<u8>)> = Vec::new();
        core::mem::swap(&mut work, &mut self.entries);
        let n = work.len();
        let mut i: usize = 0;
        // find the sorted position of `key`
        while i < n
            invariant
                i <= n,
                n == es.len(),
                es == kv_of(work@),
                sorted_kv(es),
                forall|j: int| 0 <= j < i ==> lex_lt(#[trigger] es[j].0, key@),
            ensures
                i <= n,
                es == kv_of(work@),
                forall|j: int| 0 <= j < i ==> lex_lt(#[trigger] es[j].0, key@),
                i < n ==> !lex_lt(es[i as int].0, key@),
            decreases n - i,
        {
            let smaller = crate::order::bytes_lt(work[i].0.as_slice(), key.as_slice());
            if !smaller {
                break ;
            }
            i = i + 1;
        }
        if i < n {
            let same = crate::order::bytes_eq(work[i].0.as_slice(), key.as_slice());
            if same {
                proof {
                    lemma_update_semantics(es, i as int, value@);
                }
                work.remove(i);
                work.insert(i, (key, value));
                proof {
                    assert(kv_of(work@) =~= es.update(i as int, (es[i as int].0, value@)));
                }
            } else {
                proof {
                    assert forall|j: int| i <= j < es.len() implies lex_lt(
                        key@,
                        #[trigger] es[j].0,
                    ) by {
                        lemma_lex_trichotomy(es[i as int].0, key@);
                        if j > i {
                            lemma_lex_lt_transitive(key@, es[i as int].0, es[j].0);
                        }
                    }
                    lemma_insert_semantics(es, i as int, key@, value@);
                }
                work.insert(i, (key, value));
                proof {
                    assert(kv_of(work@) =~= es.insert(i as int, (key@, value@)));
                }
            }
        } else {
            proof {
                lemma_insert_semantics(es, i as int, key@, value@);
            }
            work.insert(i, (key, value));
            proof {
                assert(kv_of(work@) =~= es.insert(i as int, (key@, value@)));
            }
        }
        self.entries = work;
    }

    /// Point removal; absent keys are left alone.
    pub fn remove(&mut self, key: &[u8])
        ensures
            sorted_kv(final(self).kv()),
            !contains_key(final(self).kv(), key@),
            same_except(old(self).kv(), final(self).kv(), key@),
    {
        proof {
            use_type_invariant(&*self);
        }
        let ghost es = self.kv();
        let mut work: Vec<(Vec<u8>, Vec<u8>)> = Vec::new();
        core::mem::swap(&mut work, &mut self.entries);
        let n = work.len();
        let mut i: usize = 0;
        while i < n
            invariant
                i <= n,
                n == es.len(),
                es == kv_of(work@),
                es == old(self).kv(),
                sorted_kv(es),
                forall|j: int| 0 <= j < i ==> (#[trigger] es[j].0) != key@,
            decreases n - i,
        {
            let hit = crate::order::bytes_eq(work[i].0.as_slice(), key);
            if hit {
                proof {
                    lemma_remove_semantics(es, i as int);
                }
                work.remove(i);
                proof {
                    assert(es[i as int].0 == key@);
                    assert(kv_of(work@) =~= es.remove(i as int));
                    assert(same_except(es, es.remove(i as int), key@));
                    assert(same_except(es, kv_of(work@), key@));
                }
                self.entries = work;
                return ;
            }
            i = i + 1;
        }
        proof {
            if contains_key(es, key@) {
                let j = index_of_key(es, key@);
                assert(es[j].0 == key@);
            }
        }
        self.entries = work;
    }

    /// An independent copy of the whole keyspace.
    pub fn duplicate(&self) -> (r: Keyspace)
        ensures
            r.kv() == self.kv(),
    {
        Keyspace { entries: self.snapshot_entries() }
    }

    /// A copy of the entries: the point-in-time view a snapshot or cursor
    /// takes.
    pub fn snapshot_entries(&self) -> (r: Vec<(Vec<u8>, Vec<u8>)>)
        ensures
            kv_of(r@) =~= self.kv(),
            sorted_kv(kv_of(r@)),
    {
        proof {
            use_type_invariant(&*self);
        }
        let n = self.entries.len();
        let mut out: Vec<(Vec<u8>, Vec<u8>)> = Vec::new();
        let mut i: usize = 0;
        while i < n
            invariant
                i <= n,
                n == self.kv().len(),
                out@.len() == i,
                forall|j: int| 0 <= j < i ==> kv_of(out@)[j] == (#[trigger] self.kv()[j]),
            decreases n - i,
        {
            let k = slice_to_vec(self.entries[i].0.as_slice());
            let v = slice_to_vec(self.entries[i].1.as_slice());
            let ghost pre = out@;
            out.push((k, v));
            proof {
                assert(out@[i as int].0@ == self.kv()[i as int].0);
                assert(out@[i as int].1@ == self.kv()[i as int].1);
                assert(kv_of(out@)[i as int] == self.kv()[i as int]);
                assert forall|j: int| 0 <= j < i implies kv_of(out@)[j] == self.kv()[j] by {
                    assert(out@[j] == pre[j]);
                    assert(kv_of(out@)[j] == kv_of(pre)[j]);
                }
            }
            i = i + 1;
        }
        proof {
            assert(kv_of(out@) =~= self.kv());
        }
        out
    }

    /// Remove every entry of family `cf` whose logical key falls in
    /// `[begin, end)`; an unbounded end removes everything from `begin` on.
    pub fn remove_range(&mut self, cf: &[u8], begin: &[u8], end: &[u8], unbounded_end: bool)
        ensures
            sorted_kv(final(self).kv()),
            forall|p: Seq<u8>|
                #![trigger contains_key(final(self).kv(), p)]
                contains_key(final(self).kv(), p) == (contains_key(old(self).kv(), p)
                    && !spec_range_match(p, cf@, begin@, end@, unbounded_end)),
            forall|p: Seq<u8>|
                #![trigger value_of(final(self).kv(), p)]
                contains_key(final(self).kv(), p) ==> value_of(final(self).kv(), p) == value_of(
                    old(self).kv(),
                    p,
                ),
    {
        proof {
            use_type_invariant(&*self);
        }
        let ghost es = self.kv();
        let n = self.entries.len();
        let mut out: Vec<(Vec<u8>, Vec<u8>)> = Vec::new();
        let mut i: usize = 0;
        while i < n
            invariant
                i <= n,
                n == es.len(),
                es == self.kv(),
                sorted_kv(es),
                sorted_kv(kv_of(out@)),
                forall|m: int|
                    0 <= m < out@.len() ==> exists|j: int|
                        0 <= j < i && (#[trigger] kv_of(out@)[m]) == es[j] && !spec_range_match(
                            es[j].0,
                            cf@,
                            begin@,
                            end@,
                            unbounded_end,
                        ),
                forall|j: int|
                    0 <= j < i && !spec_range_match(
                        (#[trigger] es[j]).0,
                        cf@,
                        begin@,
                        end@,
                        unbounded_end,
                    ) ==> contains_key(kv_of(out@), es[j].0) && value_of(kv_of(out@), es[j].0)
                        == es[j].1,
                out@.len() == 0 || exists|j: int|
                    0 <= j < i && kv_of(out@)[out@.len() - 1] == (#[trigger] es[j]),
            decreases n - i,
        {
            let keep = !self.entry_matches_range(i, cf, begin, end, unbounded_end);
            if keep {
                let k = slice_to_vec(self.entries[i].0.as_slice());
                let v = slice_to_vec(self.entries[i].1.as_slice());
                let ghost pre = kv_of(out@);
                proof {
                    // pushing keeps the output sorted: its last element comes
                    // from an earlier position of the sorted input
                    if pre.len() > 0 {
                        let j = choose|j: int| 0 <= j < i && pre[pre.len() - 1] == es[j];
                        assert(lex_lt(es[j].0, es[i as int].0));
                        assert forall|m: int| 0 <= m < pre.len() implies lex_lt(
                            (#[trigger] pre[m]).0,
                            es[i as int].0,
                        ) by {
                            if m < pre.len() - 1 {
                                lemma_lex_lt_transitive(pre[m].0, pre[pre.len() - 1].0, es[i as int].0);
                            }
                        }
                    }
                }
                out.push((k, v));
                proof {
                    assert(kv_of(out@) =~= pre.push((es[i as int].0, es[i as int].1)));
                    assert(kv_of(out@)[out@.len() - 1] == es[i as int]);
                    assert forall|a: int, b: int| 0 <= a < b < kv_of(out@).len() implies lex_lt(
                        (#[trigger] kv_of(out@)[a]).0,
                        (#[trigger] kv_of(out@)[b]).0,
                    ) by {
                        if b < kv_of(out@).len() - 1 {
                            assert(lex_lt(pre[a].0, pre[b].0));
                        }
                    }
                    assert forall|j: int|
                        0 <= j < i + 1 && !spec_range_match(
                            (#[trigger] es[j]).0,
                            cf@,
                            begin@,
                            end@,
                            unbounded_end,
                        ) implies contains_key(kv_of(out@), es[j].0) && value_of(
                        kv_of(out@),
                        es[j].0,
                    ) == es[j].1 by {
                        if j < i {
                            let m = index_of_key(pre, es[j].0);
                            assert(kv_of(out@)[m] == pre[m]);
                            assert(contains_key(kv_of(out@), es[j].0));
                            lemma_value_at(kv_of(out@), m);
                        } else {
                            assert(kv_of(out@)[out@.len() - 1] == es[j]);
                            assert(contains_key(kv_of(out@), es[j].0));
                            lemma_value_at(kv_of(out@), out@.len() - 1);
                        }
                    }
                }
            }
            i = i + 1;
        }
        self.entries = out;
        proof {
            let now = self.kv();
            assert forall|p: Seq<u8>|
                #![trigger contains_key(now, p)]
                contains_key(now, p) == (contains_key(es, p) && !spec_range_match(
                    p,
                    cf@,
                    begin@,
                    end@,
                    unbounded_end,
                )) by {
                if contains_key(now, p) {
                    let m = index_of_key(now, p);
                    assert(now[m].0 == p);
                    let j = choose|j: int|
                        0 <= j < n && now[m] == es[j] && !spec_range_match(
                            es[j].0,
                            cf@,
                            begin@,
                            end@,
                            unbounded_end,
                        );
                    assert(es[j].0 == p);
                    assert(contains_key(es, p));
                }
                if contains_key(es, p) && !spec_range_match(p, cf@, begin@, end@, unbounded_end) {
                    let j = index_of_key(es, p);
                    assert(es[j].0 == p);
                    assert(contains_key(now, p));
                }
            }
            assert forall|p: Seq<u8>|
                #![trigger value_of(now, p)]
                contains_key(now, p) implies value_of(now, p) == value_of(es, p) by {
                let m = index_of_key(now, p);
                assert(now[m].0 == p);
                let j = choose|j: int|
                    0 <= j < n && now[m] == es[j] && !spec_range_match(
                        es[j].0,
                        cf@,
                        begin@,
                        end@,
                        unbounded_end,
                    );
                lemma_value_at(now, m);
                lemma_value_at(es, j);
            }
        }
    }

    /// Does the entry at `i` fall to the given range removal?
    fn entry_matches_range(
        &self,
        i: usize,
        cf: &[u8],
        begin: &[u8],
        end: &[u8],
        unbounded_end: bool,
    ) -> (r: bool)
        requires
            i < self.kv().len(),
        ensures
            r == spec_range_match(self.kv()[i as int].0, cf@, begin@, end@, unbounded_end),
    {
        let (dcf, dkey) = crate::utils::decode_physical(self.entries[i].0.as_slice());
        let cf_match = crate::order::bytes_eq(dcf.as_slice(), cf);
        if !cf_match {
            return false;
        }
        let lower_ok = crate::order::bytes_le(begin, dkey.as_slice());
        if !lower_ok {
            return false;
        }
        if unbounded_end {
            return true;
        }
        crate::order::bytes_lt(dkey.as_slice(), end)
    }
}

} // verus!
