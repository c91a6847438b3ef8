//! The keyed, ordered table: the record store inside an aggregate.
//!
//! A table maps each record's primary key to the record. Keys are unique —
//! inserting a duplicate is rejected, never overwritten — and iteration is
//! in key order, not insertion order. A record's key is its identity; the
//! text form of the key (see [`crate::key::TableKey`]) decides when two
//! keys are the same entry.
use vstd::prelude::*;

use crate::doc::{Doc, DocModel};
use crate::key::{key_same, TableKey};

verus! {

/// Access to the value of a record's primary key.
///
/// An aggregate's record types implement this; the engine learns a record's
/// key only by calling it.
pub trait PrimaryKey {
    /// The type of the primary key.
    type PrimaryKeyType: TableKey;

    /// The record's primary key.
    fn primary_key(&self) -> &Self::PrimaryKeyType;
}

/// Rows are in strictly ascending key order: sorted, no two keys the same.
pub open spec fn table_wf<K: TableKey, V>(s: Seq<(K, V)>) -> bool {
    forall|i: int, j: int|
        #![trigger s[i], s[j]]
        0 <= i < j < s.len() ==> s[i].0.le(&s[j].0) && s[i].0.text() != s[j].0.text()
}

/// The value stored under the key with text `t`, if any (first match).
pub open spec fn lookup<K: TableKey, V>(s: Seq<(K, V)>, t: Seq<char>) -> Option<V>
    decreases s.len(),
{
    if s.len() == 0 {
        None
    } else if s[0].0.text() == t {
        Some(s[0].1)
    } else {
        lookup(s.drop_first(), t)
    }
}

/// Whether some row's key has text `t`.
pub open spec fn has_key<K: TableKey, V>(s: Seq<(K, V)>, t: Seq<char>) -> bool {
    lookup(s, t) is Some
}

/// The index of the first row whose key has text `t`.
pub open spec fn key_idx<K: TableKey, V>(s: Seq<(K, V)>, t: Seq<char>) -> int
    decreases s.len(),
{
    if s.len() == 0 {
        0
    } else if s[0].0.text() == t {
        0
    } else {
        1 + key_idx(s.drop_first(), t)
    }
}

/// Where a new row with key `k` goes: after the rows at or below it.
pub open spec fn insert_pos<K: TableKey, V>(s: Seq<(K, V)>, k: K) -> int
    decreases s.len(),
{
    if s.len() == 0 {
        0
    } else if s[0].0.le(&k) {
        1 + insert_pos(s.drop_first(), k)
    } else {
        0
    }
}

/// A key is present exactly when some row carries its text.
pub proof fn lemma_has_key_exists<K: TableKey, V>(s: Seq<(K, V)>, t: Seq<char>)
    ensures
        has_key(s, t) <==> exists|j: int| 0 <= j < s.len() && (#[trigger] s[j].0).text() == t,
    decreases s.len(),
{
    if s.len() > 0 {
        lemma_has_key_exists(s.drop_first(), t);
        if s[0].0.text() == t {
        } else {
            assert forall|j: int|
                0 <= j < s.drop_first().len() && (#[trigger] s.drop_first()[j].0).text()
                    == t implies s[j + 1].0.text() == t by {
                assert(s.drop_first()[j] == s[j + 1]);
            }
            assert forall|j: int| 0 <= j < s.len() && (#[trigger] s[j].0).text() == t implies j >= 1
                && s.drop_first()[j - 1].0.text() == t by {
                assert(s.drop_first()[j - 1] == s[j]);
            }
        }
    }
}

/// Where a key is present, its first index carries it, nothing before does,
/// and `lookup` returns the value stored there.
pub proof fn lemma_lookup_index<K: TableKey, V>(s: Seq<(K, V)>, t: Seq<char>)
    requires
        has_key(s, t),
    ensures
        0 <= key_idx(s, t) < s.len(),
        s[key_idx(s, t)].0.text() == t,
        forall|j: int| 0 <= j < key_idx(s, t) ==> (#[trigger] s[j].0).text() != t,
        lookup(s, t) == Some(s[key_idx(s, t)].1),
    decreases s.len(),
{
    if s[0].0.text() == t {
    } else {
        lemma_lookup_index(s.drop_first(), t);
        let i = key_idx(s.drop_first(), t);
        assert(s.drop_first()[i] == s[i + 1]);
        assert forall|j: int| 0 <= j < key_idx(s, t) implies (#[trigger] s[j].0).text() != t by {
            if j >= 1 {
                assert(s.drop_first()[j - 1] == s[j]);
            }
        }
    }
}

/// Where no row before `i` carries `t` and row `i` does, `lookup` finds row
/// `i`; where no row at all carries `t`, `lookup` finds nothing.
pub proof fn lemma_lookup_first<K: TableKey, V>(s: Seq<(K, V)>, t: Seq<char>, i: int)
    requires
        0 <= i < s.len(),
        s[i].0.text() == t,
        forall|j: int| 0 <= j < i ==> (#[trigger] s[j].0).text() != t,
    ensures
        lookup(s, t) == Some(s[i].1),
        key_idx(s, t) == i,
    decreases s.len(),
{
    if i == 0 {
    } else {
        assert(s[0].0.text() != t);
        assert(s.drop_first()[i - 1] == s[i]);
        assert forall|j: int| 0 <= j < i - 1 implies (#[trigger] s.drop_first()[j].0).text()
            != t by {
            assert(s.drop_first()[j] == s[j + 1]);
        }
        lemma_lookup_first(s.drop_first(), t, i - 1);
    }
}

/// `insert_pos` is the length of the longest prefix of rows at or below `k`.
pub proof fn lemma_insert_pos_char<K: TableKey, V>(s: Seq<(K, V)>, k: K, i: int)
    requires
        0 <= i <= s.len(),
        forall|j: int| 0 <= j < i ==> (#[trigger] s[j].0).le(&k),
        i < s.len() ==> !s[i].0.le(&k),
    ensures
        insert_pos(s, k) == i,
    decreases s.len(),
{
    if s.len() == 0 {
    } else if i == 0 {
    } else {
        assert(s[0].0.le(&k));
        assert forall|j: int| 0 <= j < i - 1 implies (#[trigger] s.drop_first()[j].0).le(&k) by {
            assert(s.drop_first()[j] == s[j + 1]);
        }
        if i - 1 < s.drop_first().len() {
            assert(s.drop_first()[i - 1] == s[i]);
        }
        lemma_insert_pos_char(s.drop_first(), k, i - 1);
    }
}

/// A table of records keyed by their primary key, in ascending key order.
pub struct Table<V: PrimaryKey> {
    rows: Vec<(<V as PrimaryKey>::PrimaryKeyType, V)>,
}

impl<V: PrimaryKey> View for Table<V> {
    type V = Seq<(<V as PrimaryKey>::PrimaryKeyType, V)>;

    closed spec fn view(&self) -> Self::V {
        self.rows@
    }
}

impl<V: PrimaryKey> Table<V> {
    /// The rows are in strictly ascending key order.
    pub open spec fn wf(&self) -> bool {
        table_wf(self@)
    }

    /// An empty table.
    pub fn new() -> (r: Self)
        ensures
            r@ == Seq::<(<V as PrimaryKey>::PrimaryKeyType, V)>::empty(),
            r.wf(),
    {
        let r = Table { rows: Vec::new() };
        proof {
            assert(r@ =~= Seq::<(<V as PrimaryKey>::PrimaryKeyType, V)>::empty());
        }
        r
    }

    /// The number of records.
    pub fn len(&self) -> (r: usize)
        ensures
            r == self@.len(),
    {
        self.rows.len()
    }

    /// The index of the row whose key is the same entry as `key`, found by
    /// bisection over the key order.
    fn find_idx(&self, key: &<V as PrimaryKey>::PrimaryKeyType) -> (r: Option<usize>)
        requires
            self.wf(),
        ensures
            match r {
                Some(i) => 0 <= i < self@.len() && self@[i as int].0.text() == key.text()
                    && (forall|j: int| 0 <= j < i ==> (#[trigger] self@[j].0).text() != key.text()),
                None => forall|j: int|
                    0 <= j < self@.len() ==> (#[trigger] self@[j].0).text() != key.text(),
            },
    {
        let ghost s = self@;
        let n = self.rows.len();
        let mut lo: usize = 0;
        let mut hi: usize = n;
        while lo < hi
            invariant
                0 <= lo <= hi <= n,
                n == s.len(),
                self@ == s,
                self.wf(),
                forall|j: int| 0 <= j < lo ==> (#[trigger] s[j].0).text() != key.text(),
                forall|j: int| hi <= j < n ==> (#[trigger] s[j].0).text() != key.text(),
            decreases hi - lo,
        {
            let mid = lo + (hi - lo) / 2;
            if self.rows[mid].0.key_le(key) {
                if key.key_le(&self.rows[mid].0) {
                    proof {
                        <V as PrimaryKey>::PrimaryKeyType::lemma_le_antisym(
                            &s[mid as int].0,
                            key,
                        );
                        assert forall|j: int| 0 <= j < mid implies (#[trigger] s[j].0).text()
                            != key.text() by {
                            assert(s[j].0.text() != s[mid as int].0.text());
                        }
                    }
                    return Some(mid);
                }
                // the row at mid sits strictly below the key
                proof {
                    assert forall|j: int| 0 <= j < mid + 1 implies (#[trigger] s[j].0).text()
                        != key.text() by {
                        if s[j].0.text() == key.text() {
                            <V as PrimaryKey>::PrimaryKeyType::lemma_text_le(key, &s[j].0);
                            if j < mid {
                                <V as PrimaryKey>::PrimaryKeyType::lemma_le_trans(
                                    key,
                                    &s[j].0,
                                    &s[mid as int].0,
                                );
                            }
                            assert(key.le(&s[mid as int].0));
                            assert(false);
                        }
                    }
                }
                lo = mid + 1;
            } else {
                // the key sits strictly below the row at mid
                proof {
                    <V as PrimaryKey>::PrimaryKeyType::lemma_le_total(&s[mid as int].0, key);
                    assert forall|j: int| mid <= j < n implies (#[trigger] s[j].0).text()
                        != key.text() by {
                        if s[j].0.text() == key.text() {
                            <V as PrimaryKey>::PrimaryKeyType::lemma_text_le(&s[j].0, key);
                            if j > mid {
                                <V as PrimaryKey>::PrimaryKeyType::lemma_le_trans(
                                    &s[mid as int].0,
                                    &s[j].0,
                                    key,
                                );
                            }
                            assert(s[mid as int].0.le(key));
                            assert(false);
                        }
                    }
                }
                hi = mid;
            }
        }
        None
    }

    /// Look a record up by exact key.
    ///
    /// Returns the record stored under `key`, or `None` exactly when the
    /// table holds no entry of that key.
    pub fn get(&self, key: &<V as PrimaryKey>::PrimaryKeyType) -> (r: Option<&V>)
        requires
            self.wf(),
        ensures
            match lookup(self@, key.text()) {
                Some(v) => r matches Some(rv) && *rv == v,
                None => r is None,
            },
    {
        match self.find_idx(key) {
            Some(i) => {
                proof {
                    lemma_lookup_first(self@, key.text(), i as int);
                }
                Some(&self.rows[i].1)
            },
            None => {
                proof {
                    lemma_has_key_exists(self@, key.text());
                }
                None
            },
        }
    }

    /// Look a record up by exact key, for mutation in place.
    ///
    /// Hands out a mutable borrow of the stored record exactly when the
    /// table holds an entry of that key. The caller must leave the
    /// record's primary key unchanged: rekeying in place would bypass the
    /// order of the table, which only [`Self::edit`] maintains.
    pub fn get_mut(&mut self, key: &<V as PrimaryKey>::PrimaryKeyType) -> (r: Option<&mut V>)
        requires
            old(self).wf(),
        ensures
            r is Some <==> has_key(old(self)@, key.text()),
    {
        match self.find_idx(key) {
            Some(i) => {
                proof {
                    lemma_has_key_exists(self@, key.text());
                }
                Some(&mut self.rows[i].1)
            },
            None => {
                proof {
                    lemma_has_key_exists(self@, key.text());
                }
                None
            },
        }
    }

    /// Mutable access to the record at a position of the key order:
    /// ordered mutable iteration, one record at a time, up to
    /// [`Self::len`]. The caller must leave the record's primary key
    /// unchanged, exactly as for [`Self::get_mut`].
    pub fn values_mut(&mut self, i: usize) -> (r: &mut V)
        requires
            i < old(self)@.len(),
    {
        &mut self.rows[i].1
    }

    /// Insert a record under an explicit key.
    ///
    /// Succeeds exactly when no entry of that key is present; the row goes
    /// to its place in key order. On a duplicate key nothing changes.
    pub fn insert(&mut self, key: <V as PrimaryKey>::PrimaryKeyType, value: V) -> (r: bool)
        requires
            old(self).wf(),
        ensures
            final(self).wf(),
            has_key(old(self)@, key.text()) ==> r == false && final(self)@ == old(self)@,
            !has_key(old(self)@, key.text()) ==> r == true && final(self)@ == old(self)@.insert(
                insert_pos(old(self)@, key),
                (key, value),
            ),
    {
        let ghost s = self@;
        let n = self.rows.len();
        let mut i: usize = 0;
        while i < n && self.rows[i].0.key_le(&key)
            invariant
                0 <= i <= n,
                n == self@.len(),
                self@ == s,
                old(self).wf(),
                forall|j: int| 0 <= j < i ==> (#[trigger] self@[j].0).le(&key),
                forall|j: int| 0 <= j < i ==> (#[trigger] self@[j].0).text() != key.text(),
            decreases n - i,
        {
            if key.key_le(&self.rows[i].0) {
                // both directions: the same entry is already present
                proof {
                    <V as PrimaryKey>::PrimaryKeyType::lemma_le_antisym(&s[i as int].0, &key);
                    lemma_has_key_exists(s, key.text());
                }
                return false;
            }
            proof {
                if s[i as int].0.text() == key.text() {
                    <V as PrimaryKey>::PrimaryKeyType::lemma_text_le(&key, &s[i as int].0);
                }
            }
            i = i + 1;
        }
        proof {
            // no row carries this key: before i none does, and from i on the
            // order rules it out
            assert forall|j: int| 0 <= j < s.len() implies (#[trigger] s[j].0).text()
                != key.text() by {
                if j >= i {
                    if s[j].0.text() == key.text() {
                        <V as PrimaryKey>::PrimaryKeyType::lemma_text_le(&s[j].0, &key);
                        if j > i {
                            assert(s[i as int].0.le(&s[j].0));
                            <V as PrimaryKey>::PrimaryKeyType::lemma_le_trans(
                                &s[i as int].0,
                                &s[j].0,
                                &key,
                            );
                        }
                        assert(s[i as int].0.le(&key));
                        assert(false);
                    }
                }
            }
            lemma_has_key_exists(s, key.text());
            if (i as int) < s.len() {
                assert(!s[i as int].0.le(&key));
            }
            lemma_insert_pos_char(s, key, i as int);
            // the new row keeps the strict order
            if (i as int) < s.len() {
                <V as PrimaryKey>::PrimaryKeyType::lemma_le_total(&s[i as int].0, &key);
            }
        }
        self.rows.insert(i, (key, value));
        proof {
            let s2 = s.insert(i as int, (key, value));
            assert(self@ =~= s2);
            assert forall|p: int, q: int|
                #![trigger s2[p], s2[q]]
                0 <= p < q < s2.len() implies s2[p].0.le(&s2[q].0) && s2[p].0.text()
                != s2[q].0.text() by {
                let ki = i as int;
                if p < ki && q < ki {
                    assert(s2[p] == s[p] && s2[q] == s[q]);
                } else if p < ki && q == ki {
                    assert(s2[p] == s[p] && s2[q] == (key, value));
                    assert(s[p].0.le(&key));
                } else if p < ki && q > ki {
                    assert(s2[p] == s[p] && s2[q] == s[q - 1]);
                } else if p == ki && q > ki {
                    assert(s2[p] == (key, value) && s2[q] == s[q - 1]);
                    assert(!s[ki].0.le(&key));
                    assert(key.le(&s[ki].0));
                    if q - 1 > ki {
                        <V as PrimaryKey>::PrimaryKeyType::lemma_le_trans(
                            &key,
                            &s[ki].0,
                            &s[q - 1].0,
                        );
                    }
                    assert(key.le(&s[q - 1].0));
                    if key.text() == s[q - 1].0.text() {
                        <V as PrimaryKey>::PrimaryKeyType::lemma_text_le(&s[q - 1].0, &key);
                        if q - 1 > ki {
                            <V as PrimaryKey>::PrimaryKeyType::lemma_le_trans(
                                &s[ki].0,
                                &s[q - 1].0,
                                &key,
                            );
                        }
                        assert(s[ki].0.le(&key));
                        assert(false);
                    }
                } else {
                    assert(p > ki && q > ki);
                    assert(s2[p] == s[p - 1] && s2[q] == s[q - 1]);
                }
            }
        }
        true
    }

    /// Add a record under its own primary key.
    ///
    /// Inserts only if the key is absent and returns a copy of the record;
    /// returns `None`, with the table unchanged, if the key already exists.
    pub fn add(&mut self, value: V) -> (r: Option<V>) where V: Clone
        requires
            old(self).wf(),
        ensures
            final(self).wf(),
            r is None ==> final(self)@ == old(self)@ && (exists|k:
                <V as PrimaryKey>::PrimaryKeyType| has_key(old(self)@, k.text())),
            r is Some ==> (exists|k: <V as PrimaryKey>::PrimaryKeyType|
                !has_key(old(self)@, (#[trigger] k.text())) && final(self)@ == old(self)@.insert(
                    insert_pos(old(self)@, k),
                    (k, value),
                )),
    {
        let k = value.primary_key().key_dup();
        let ret = value.clone();
        if self.insert(k, value) {
            Some(ret)
        } else {
            None
        }
    }

    /// Remove the record stored under `key` and hand it back.
    ///
    /// Returns `None`, with the table unchanged, exactly when no entry of
    /// that key is present.
    pub fn delete(&mut self, key: &<V as PrimaryKey>::PrimaryKeyType) -> (r: Option<V>)
        requires
            old(self).wf(),
        ensures
            final(self).wf(),
            match lookup(old(self)@, key.text()) {
                Some(v) => r == Some(v) && final(self)@ == old(self)@.remove(
                    key_idx(old(self)@, key.text()),
                ),
                None => r is None && final(self)@ == old(self)@,
            },
    {
        let ghost s = self@;
        match self.find_idx(key) {
            Some(i) => {
                proof {
                    lemma_lookup_first(s, key.text(), i as int);
                    lemma_wf_remove(s, i as int);
                }
                let row = self.rows.remove(i);
                Some(row.1)
            },
            None => {
                proof {
                    lemma_has_key_exists(s, key.text());
                }
                None
            },
        }
    }

    /// Replace the record under `old_key` with `new_value`, rekeying it.
    ///
    /// Succeeds only if `old_key` exists and the new record's key either
    /// equals `old_key` or is not already taken; the record then sits under
    /// its new key, in order. Fails with `None`, and no mutation, otherwise.
    pub fn edit(
        &mut self,
        key: &<V as PrimaryKey>::PrimaryKeyType,
        new_value: V,
    ) -> (r: Option<V>) where V: Clone
        requires
            old(self).wf(),
        ensures
            final(self).wf(),
            r is None ==> final(self)@ == old(self)@,
            r is Some ==> has_key(old(self)@, key.text()) && (exists|nk:
                <V as PrimaryKey>::PrimaryKeyType|
                {
                    let mid = old(self)@.remove(key_idx(old(self)@, key.text()));
                    ((#[trigger] nk.text()) == key.text() || !has_key(old(self)@, nk.text()))
                        && final(self)@ == mid.insert(insert_pos(mid, nk), (nk, new_value))
                }),
    {
        let ghost s = self@;
        let nk = new_value.primary_key().key_dup();
        let same = key_same(key, &nk);
        if !same {
            if self.find_idx(&nk).is_some() {
                return None;
            }
        }
        match self.delete(key) {
            None => None,
            Some(_old_record) => {
                proof {
                    lemma_lookup_index(s, key.text());
                    lemma_lookup_remove(s, key_idx(s, key.text()), nk.text());
                    let mid = s.remove(key_idx(s, key.text()));
                    if !same {
                        lemma_has_key_exists(s, nk.text());
                        assert(!has_key(s, nk.text()));
                        assert(!has_key(mid, nk.text()));
                    } else {
                        assert(!has_key(mid, nk.text()));
                    }
                }
                let ret = new_value.clone();
                let ok = self.insert(nk, new_value);
                assert(ok);
                Some(ret)
            },
        }
    }
}

impl<V: PrimaryKey> Default for Table<V> {
    /// An empty table.
    fn default() -> (r: Self)
        ensures
            r@ == Seq::<(<V as PrimaryKey>::PrimaryKeyType, V)>::empty(),
            r.wf(),
    {
        Table::new()
    }
}

/// The values of the rows whose pick is set, in row order.
pub open spec fn filtered_vals<V>(s: Seq<V>, picks: Seq<bool>) -> Seq<V>
    decreases s.len(),
{
    if s.len() == 0 || picks.len() != s.len() {
        Seq::empty()
    } else {
        filtered_vals(s.drop_last(), picks.drop_last()) + if picks.last() {
            seq![s.last()]
        } else {
            Seq::empty()
        }
    }
}

/// The values column of a row sequence.
pub open spec fn vals_of<K, V>(s: Seq<(K, V)>) -> Seq<V> {
    s.map_values(|p: (K, V)| p.1)
}

impl<V: PrimaryKey> Table<V> {
    /// All records that satisfy the predicate, in key order.
    pub fn search<'a, F: Fn(&V) -> bool>(&'a self, predicate: F) -> (r: Vec<&'a V>)
        requires
            forall|v: &V| call_requires(predicate, (v,)),
        ensures
            exists|picks: Seq<bool>|
                picks.len() == self@.len() && (forall|j: int|
                    0 <= j < self@.len() ==> call_ensures(
                        predicate,
                        (&(#[trigger] self@[j]).1,),
                        picks[j],
                    )) && r@.map_values(|rv: &'a V| *rv) == filtered_vals(vals_of(self@), picks),
    {
        let n = self.rows.len();
        let mut r: Vec<&V> = Vec::new();
        let mut i: usize = 0;
        let ghost mut picks: Seq<bool> = Seq::empty();
        proof {
            assert(vals_of(self@).take(0) =~= Seq::empty());
            assert(r@.map_values(|rv: &'a V| *rv) =~= filtered_vals(
                vals_of(self@).take(0),
                picks,
            ));
        }
        while i < n
            invariant
                0 <= i <= n,
                n == self@.len(),
                picks.len() == i,
                forall|v: &V| call_requires(predicate, (v,)),
                forall|j: int|
                    0 <= j < i ==> call_ensures(predicate, (&(#[trigger] self@[j]).1,), picks[j]),
                r@.map_values(|rv: &'a V| *rv) == filtered_vals(vals_of(self@).take(i as int), picks),
            decreases n - i,
        {
            let keep = predicate(&self.rows[i].1);
            let ghost prev = r@;
            if keep {
                r.push(&self.rows[i].1);
            }
            proof {
                let oldpicks = picks;
                picks = picks.push(keep);
                let vs = vals_of(self@);
                assert(vs.take(i + 1).drop_last() =~= vs.take(i as int));
                assert(picks.drop_last() =~= oldpicks);
                assert(picks.last() == keep);
                assert(vs.take(i + 1).last() == vs[i as int]);
                assert(vs[i as int] == self@[i as int].1);
                if keep {
                    assert(r@ =~= prev.push(&self.rows[i as int].1));
                    assert(r@.map_values(|rv: &'a V| *rv) =~= filtered_vals(
                        vs.take(i + 1),
                        picks,
                    ));
                } else {
                    assert(r@.map_values(|rv: &'a V| *rv) =~= filtered_vals(
                        vs.take(i + 1),
                        picks,
                    ));
                }
            }
            i = i + 1;
        }
        proof {
            assert(vals_of(self@).take(n as int) =~= vals_of(self@));
        }
        r
    }

    /// The records that satisfy the predicate, reordered by the
    /// comparator: the same records as a plain [`Self::search`] — the same
    /// multiset — with every adjacent pair of the result in comparator
    /// order (see [`ordered_by`]).
    #[verifier::rlimit(60)]
    pub fn search_ordered<'a, F: Fn(&V) -> bool, O: Fn(&&'a V, &&'a V) -> core::cmp::Ordering>(
        &'a self,
        predicate: F,
        comparator: O,
    ) -> (r: Vec<&'a V>)
        requires
            forall|v: &V| call_requires(predicate, (v,)),
            forall|a: &&'a V, b: &&'a V| call_requires(comparator, (a, b)),
        ensures
            ordered_by(r@, comparator),
            exists|picks: Seq<bool>|
                picks.len() == self@.len() && (forall|j: int|
                    0 <= j < self@.len() ==> call_ensures(
                        predicate,
                        (&(#[trigger] self@[j]).1,),
                        picks[j],
                    )) && r@.map_values(|rv: &'a V| *rv).to_multiset() == filtered_vals(
                    vals_of(self@),
                    picks,
                ).to_multiset(),
    {
        broadcast use vstd::multiset::group_multiset_axioms;
        broadcast use vstd::seq_lib::group_to_multiset_ensures;

        let src = self.search(predicate);
        let ghost f = |rv: &'a V| *rv;
        let n = src.len();
        let mut out: Vec<&'a V> = Vec::new();
        let mut i: usize = 0;
        proof {
            assert(out@.map_values(f) =~= Seq::<V>::empty());
            assert(src@.take(0).map_values(f) =~= Seq::<V>::empty());
        }
        while i < n
            invariant
                0 <= i <= n,
                n == src@.len(),
                forall|a: &&'a V, b: &&'a V| call_requires(comparator, (a, b)),
                f == (|rv: &'a V| *rv),
                ordered_by(out@, comparator),
                out@.map_values(f).to_multiset() == src@.take(i as int).map_values(
                    f,
                ).to_multiset(),
            decreases n - i,
        {
            let x = src[i];
            let len = out.len();
            let mut q: usize = len;
            loop
                invariant
                    0 <= q <= len,
                    len == out@.len(),
                    forall|a: &&'a V, b: &&'a V| call_requires(comparator, (a, b)),
                    forall|rr: int|
                        q <= rr < len ==> call_ensures(
                            comparator,
                            (&(#[trigger] out@[rr]), &x),
                            core::cmp::Ordering::Greater,
                        ),
                ensures
                    0 <= q <= len,
                    len == out@.len(),
                    forall|rr: int|
                        q <= rr < len ==> call_ensures(
                            comparator,
                            (&(#[trigger] out@[rr]), &x),
                            core::cmp::Ordering::Greater,
                        ),
                    q > 0 ==> pair_ordered(comparator, out@[q - 1], x),
                decreases q,
            {
                if q == 0 {
                    break ;
                }
                let o = comparator(&out[q - 1], &x);
                match o {
                    core::cmp::Ordering::Greater => {
                        q = q - 1;
                    },
                    _ => {
                        break ;
                    },
                }
            }
            let ghost outbefore = out@;
            out.insert(q, x);
            proof {
                // the result stays a permutation of the matches seen so far
                lemma_map_values_insert(outbefore, q as int, x, f);
                lemma_insert_to_multiset(outbefore.map_values(f), q as int, f(x));
                assert(out@ == outbefore.insert(q as int, x));
                assert(out@.map_values(f) == outbefore.map_values(f).insert(q as int, f(x)));
                assert(out@.map_values(f).to_multiset() == outbefore.map_values(
                    f,
                ).to_multiset().insert(f(x)));
                assert(src@.take(i + 1) =~= src@.take(i as int).push(src@[i as int]));
                lemma_map_values_push(src@.take(i as int), src@[i as int], f);
                assert(src@.take(i + 1).map_values(f) == src@.take(i as int).map_values(
                    f,
                ).push(f(src@[i as int])));
                src@.take(i as int).map_values(f).to_multiset_ensures();
                assert(src@.take(i as int).map_values(f).push(f(src@[i as int])).to_multiset()
                    =~= src@.take(i as int).map_values(f).to_multiset().insert(
                    f(src@[i as int]),
                ));
                assert(src@.take(i + 1).map_values(f).to_multiset() =~= src@.take(
                    i as int,
                ).map_values(f).to_multiset().insert(f(src@[i as int])));
                assert(x == src@[i as int]);
                assert(out@.map_values(f).to_multiset() =~= src@.take(i + 1).map_values(
                    f,
                ).to_multiset());
                // every adjacent pair still carries an ordering witness
                lemma_ordered_insert(outbefore, q as int, x, comparator);
                assert(ordered_by(out@, comparator));
            }
            i = i + 1;
        }
        proof {
            assert(src@.take(n as int) =~= src@);
        }
        out
    }

    /// All records, in key order.
    pub fn values<'a>(&'a self) -> (r: Vec<&'a V>)
        ensures
            r@.len() == self@.len(),
            forall|j: int| 0 <= j < r@.len() ==> *(#[trigger] r@[j]) == self@[j].1,
    {
        let n = self.rows.len();
        let mut r: Vec<&V> = Vec::new();
        let mut i: usize = 0;
        while i < n
            invariant
                0 <= i <= n,
                n == self@.len(),
                r@.len() == i,
                forall|j: int| 0 <= j < i ==> *(#[trigger] r@[j]) == self@[j].1,
            decreases n - i,
        {
            r.push(&self.rows[i].1);
            i = i + 1;
        }
        r
    }
}

/// Every row of `s` traces to one of the first `bound` entries: its key is
/// the entry's key text and its record is a decode of the entry's document.
pub open spec fn rows_trace_object<V: PrimaryKey, F: Fn(&Doc) -> Option<V>>(
    s: Seq<(<V as PrimaryKey>::PrimaryKeyType, V)>,
    entries: Seq<(Seq<char>, DocModel)>,
    decode: F,
    bound: int,
) -> bool {
    forall|i: int|
        0 <= i < s.len() ==> exists|j: int|
            0 <= j < bound && (#[trigger] s[i]).0.text() == entries[j].0 && (exists|item: Doc|
                item@ == entries[j].1 && call_ensures(decode, (&item,), Some(s[i].1)))
}

/// Entry `j` of an object cannot be loaded: its key text belongs to no key
/// of the table's key type, or its record document was refused by the
/// decoder.
pub open spec fn entry_refused<V: PrimaryKey, F: Fn(&Doc) -> Option<V>>(
    entries: Seq<(Seq<char>, DocModel)>,
    decode: F,
    j: int,
) -> bool {
    ||| (forall|k: <V as PrimaryKey>::PrimaryKeyType| (#[trigger] k.text()) != entries[j].0)
    ||| (exists|item: Doc|
        item@ == entries[j].1 && call_ensures(decode, (&item,), Option::<V>::None))
}

/// Every row of `s` holds a record decoded from one of the first `bound`
/// list elements.
pub open spec fn rows_trace_list<V: PrimaryKey, F: Fn(&Doc) -> Option<V>>(
    s: Seq<(<V as PrimaryKey>::PrimaryKeyType, V)>,
    items: Seq<DocModel>,
    decode: F,
    bound: int,
) -> bool {
    forall|i: int|
        0 <= i < s.len() ==> exists|j: int, item: Doc|
            0 <= j < bound && item@ == items[j] && call_ensures(
                decode,
                (&item,),
                Some((#[trigger] s[i]).1),
            )
}

impl<V: PrimaryKey> Table<V> {
    /// Turn the table into a document, in one of its two representations.
    ///
    /// The self-describing form (`human`) is an object keyed by the text of
    /// each primary key; the compact form is a plain list of the records in
    /// key order, with no keys on the wire. `encode` renders one record.
    pub fn serialize<F: Fn(&V) -> Doc>(&self, human: bool, encode: F) -> (d: Doc)
        requires
            forall|v: &V| call_requires(encode, (v,)),
        ensures
            exists|rdocs: Seq<Doc>|
                {
                    &&& rdocs.len() == self@.len()
                    &&& (forall|i: int|
                        0 <= i < self@.len() ==> call_ensures(
                            encode,
                            (&(#[trigger] self@[i]).1,),
                            rdocs[i],
                        ))
                    &&& d@ == (if human {
                        DocModel::Object(
                            Seq::new(
                                self@.len(),
                                |i: int| (self@[i].0.text(), crate::doc::doc_model(rdocs[i])),
                            ),
                        )
                    } else {
                        DocModel::List(
                            Seq::new(self@.len(), |i: int| crate::doc::doc_model(rdocs[i])),
                        )
                    })
                },
    {
        broadcast use crate::doc::lemma_list_model;
        broadcast use crate::doc::lemma_object_model;

        let n = self.rows.len();
        let ghost mut rdocs: Seq<Doc> = Seq::empty();
        if human {
            let mut entries: Vec<(String, Doc)> = Vec::new();
            let mut i: usize = 0;
            while i < n
                invariant
                    0 <= i <= n,
                    n == self@.len(),
                    forall|v: &V| call_requires(encode, (v,)),
                    rdocs.len() == i,
                    entries@.len() == i,
                    forall|j: int|
                        0 <= j < i ==> call_ensures(
                            encode,
                            (&(#[trigger] self@[j]).1,),
                            rdocs[j],
                        ),
                    forall|j: int|
                        0 <= j < i ==> (#[trigger] entries@[j]).0@ == self@[j].0.text()
                            && entries@[j].1 == rdocs[j],
                decreases n - i,
            {
                let key_text = self.rows[i].0.key_to_text();
                let rd = encode(&self.rows[i].1);
                proof {
                    rdocs = rdocs.push(rd);
                }
                entries.push((key_text, rd));
                i = i + 1;
            }
            let d = Doc::Object(entries);
            proof {
                assert(d@->Object_0 =~= Seq::new(
                    self@.len(),
                    |i: int| (self@[i].0.text(), crate::doc::doc_model(rdocs[i])),
                ));
            }
            d
        } else {
            let mut items: Vec<Doc> = Vec::new();
            let mut i: usize = 0;
            while i < n
                invariant
                    0 <= i <= n,
                    n == self@.len(),
                    forall|v: &V| call_requires(encode, (v,)),
                    rdocs.len() == i,
                    items@.len() == i,
                    forall|j: int|
                        0 <= j < i ==> call_ensures(
                            encode,
                            (&(#[trigger] self@[j]).1,),
                            rdocs[j],
                        ),
                    forall|j: int| 0 <= j < i ==> #[trigger] items@[j] == rdocs[j],
                decreases n - i,
            {
                let rd = encode(&self.rows[i].1);
                proof {
                    rdocs = rdocs.push(rd);
                }
                items.push(rd);
                i = i + 1;
            }
            let d = Doc::List(items);
            proof {
                assert(d@->List_0 =~= Seq::new(
                    self@.len(),
                    |i: int| crate::doc::doc_model(rdocs[i]),
                ));
            }
            d
        }
    }

    /// Rebuild a table from a document, in one of its two representations.
    ///
    /// In the self-describing form every entry key must parse back into a
    /// primary key, or the whole load fails; a repeated key keeps the later
    /// record. In the compact form the key of each record is re-derived from
    /// the record itself, which assumes the primary-key accessor is a pure
    /// function of the record. `decode` reads one record. A load of the
    /// right shape fails only over a concrete entry: one whose key text no
    /// key carries, or one whose record `decode` refused — an empty
    /// document always loads.
    pub fn deserialize<F: Fn(&Doc) -> Option<V>>(d: &Doc, human: bool, decode: F) -> (r: Option<
        Table<V>,
    >)
        requires
            forall|dd: &Doc| call_requires(decode, (dd,)),
        ensures
            human && !(d@ is Object) ==> r is None,
            !human && !(d@ is List) ==> r is None,
            human && d@ is Object && d@->Object_0.len() == 0 ==> r is Some,
            !human && d@ is List && d@->List_0.len() == 0 ==> r is Some,
            r is None && human && d@ is Object ==> exists|j: int|
                0 <= j < d@->Object_0.len() && entry_refused::<V, F>(d@->Object_0, decode, j),
            r is None && !human && d@ is List ==> exists|j: int, item: Doc|
                0 <= j < d@->List_0.len() && item@ == d@->List_0[j] && call_ensures(
                    decode,
                    (&item,),
                    Option::<V>::None,
                ),
            match r {
                Some(t) => {
                    &&& t.wf()
                    &&& (human ==> {
                        &&& d@ is Object
                        &&& (forall|j: int|
                            0 <= j < d@->Object_0.len() ==> has_key(
                                t@,
                                (#[trigger] d@->Object_0[j]).0,
                            ))
                        &&& rows_trace_object(t@, d@->Object_0, decode, d@->Object_0.len() as int)
                    })
                    &&& (!human ==> {
                        &&& d@ is List
                        &&& rows_trace_list(t@, d@->List_0, decode, d@->List_0.len() as int)
                    })
                },
                None => true,
            },
    {
        broadcast use crate::doc::lemma_list_model;
        broadcast use crate::doc::lemma_object_model;

        if human {
            match d {
                Doc::Object(entries) => {
                    let n = entries.len();
                    let mut t = Table::<V>::new();
                    let mut j: usize = 0;
                    while j < n
                        invariant
                            0 <= j <= n,
                            n == entries@.len(),
                            *d == Doc::Object(*entries),
                            forall|dd: &Doc| call_requires(decode, (dd,)),
                            t.wf(),
                            forall|jj: int|
                                0 <= jj < j ==> has_key(t@, (#[trigger] d@->Object_0[jj]).0),
                            rows_trace_object(t@, d@->Object_0, decode, j as int),
                        decreases n - j,
                    {
                        let parsed = <V as PrimaryKey>::PrimaryKeyType::key_from_text(
                            entries[j].0.as_str(),
                        );
                        match parsed {
                            None => {
                                proof {
                                    assert(entries@[j as int].0@ == d@->Object_0[j as int].0);
                                    assert(entry_refused::<V, F>(
                                        d@->Object_0,
                                        decode,
                                        j as int,
                                    ));
                                }
                                return None;
                            },
                            Some(k) => {
                                match decode(&entries[j].1) {
                                    None => {
                                        proof {
                                            let item = entries@[j as int].1;
                                            assert(item@ == d@->Object_0[j as int].1
                                                && call_ensures(
                                                decode,
                                                (&item,),
                                                Option::<V>::None,
                                            ));
                                            assert(entry_refused::<V, F>(
                                                d@->Object_0,
                                                decode,
                                                j as int,
                                            ));
                                        }
                                        return None;
                                    },
                                    Some(v) => {
                                        let ghost before = t@;
                                        let ghost kt = k.text();
                                        let _ = t.delete(&k);
                                        let ghost mid = t@;
                                        let ok = t.insert(k, v);
                                        assert(ok) by {
                                            if has_key(before, kt) {
                                                lemma_lookup_index(before, kt);
                                                lemma_lookup_remove(
                                                    before,
                                                    key_idx(before, kt),
                                                    kt,
                                                );
                                            }
                                        }
                                        proof {
                                            lemma_deser_step(
                                                before,
                                                mid,
                                                t@,
                                                k,
                                                v,
                                                d@->Object_0,
                                                j as int,
                                            );
                                            let after = t@;
                                            let eo = d@->Object_0;
                                            assert(k.text() == eo[j as int].0);
                                            assert(entries@[j as int].1@ == eo[j as int].1);
                                            assert forall|i: int|
                                                0 <= i < after.len() implies exists|jj: int|
                                                0 <= jj < j + 1 && (#[trigger] after[i]).0.text()
                                                    == eo[jj].0 && (exists|item: Doc|
                                                    item@ == eo[jj].1 && call_ensures(
                                                        decode,
                                                        (&item,),
                                                        Some(after[i].1),
                                                    )) by {
                                                if after[i] == (k, v) {
                                                    let item = entries@[j as int].1;
                                                    assert(after[i].0.text() == eo[j as int].0
                                                        && item@ == eo[j as int].1
                                                        && call_ensures(
                                                        decode,
                                                        (&item,),
                                                        Some(after[i].1),
                                                    ));
                                                } else {
                                                    let i0 = choose|i0: int|
                                                        0 <= i0 < before.len() && after[i]
                                                            == before[i0];
                                                    assert(before[i0].0.text()
                                                        == after[i].0.text());
                                                }
                                            }
                                            assert(rows_trace_object(
                                                after,
                                                eo,
                                                decode,
                                                j + 1,
                                            ));
                                        }
                                    },
                                }
                            },
                        }
                        j = j + 1;
                    }
                    proof {
                        assert(d@->Object_0.len() == entries@.len());
                        assert(rows_trace_object(t@, d@->Object_0, decode, d@->Object_0.len() as int));
                    }
                    Some(t)
                },
                _ => None,
            }
        } else {
            match d {
                Doc::List(items) => {
                    let n = items.len();
                    let mut t = Table::<V>::new();
                    let mut j: usize = 0;
                    while j < n
                        invariant
                            0 <= j <= n,
                            n == items@.len(),
                            *d == Doc::List(*items),
                            forall|dd: &Doc| call_requires(decode, (dd,)),
                            t.wf(),
                            rows_trace_list(t@, d@->List_0, decode, j as int),
                        decreases n - j,
                    {
                        match decode(&items[j]) {
                            None => {
                                proof {
                                    let item = items@[j as int];
                                    assert(item@ == d@->List_0[j as int] && call_ensures(
                                        decode,
                                        (&item,),
                                        Option::<V>::None,
                                    ));
                                }
                                return None;
                            },
                            Some(v) => {
                                let k = v.primary_key().key_dup();
                                let ghost before = t@;
                                let ghost kt = k.text();
                                let _ = t.delete(&k);
                                let ghost mid = t@;
                                let ok = t.insert(k, v);
                                assert(ok) by {
                                    if has_key(before, kt) {
                                        lemma_lookup_index(before, kt);
                                        lemma_lookup_remove(before, key_idx(before, kt), kt);
                                    }
                                }
                                proof {
                                    lemma_deser_vals(before, mid, t@, k, v);
                                    let after = t@;
                                    let li = d@->List_0;
                                    assert forall|i: int|
                                        0 <= i < after.len() implies exists|jj: int, item: Doc|
                                        0 <= jj < j + 1 && item@ == li[jj] && call_ensures(
                                            decode,
                                            (&item,),
                                            Some((#[trigger] after[i]).1),
                                        ) by {
                                        if after[i] == (k, v) {
                                            let item = items@[j as int];
                                            assert(item@ == li[j as int] && call_ensures(
                                                decode,
                                                (&item,),
                                                Some(after[i].1),
                                            ));
                                        } else {
                                            let i0 = choose|i0: int|
                                                0 <= i0 < before.len() && after[i] == before[i0];
                                            assert(after[i].1 == before[i0].1);
                                        }
                                    }
                                    assert(rows_trace_list(after, li, decode, j + 1));
                                }
                            },
                        }
                        j = j + 1;
                    }
                    proof {
                        assert(d@->List_0.len() == items@.len());
                        assert(rows_trace_list(t@, d@->List_0, decode, d@->List_0.len() as int));
                    }
                    Some(t)
                },
                _ => None,
            }
        }
    }
}

/// After a delete-then-insert, every row is either the new one or a row
/// that was already there, and every key that was present is still present.
proof fn lemma_deser_vals<K: TableKey, V>(
    before: Seq<(K, V)>,
    mid: Seq<(K, V)>,
    after: Seq<(K, V)>,
    k: K,
    v: V,
)
    requires
        table_wf(before),
        mid == if has_key(before, k.text()) {
            before.remove(key_idx(before, k.text()))
        } else {
            before
        },
        !has_key(mid, k.text()),
        after == mid.insert(insert_pos(mid, k), (k, v)),
    ensures
        forall|i: int|
            0 <= i < after.len() ==> (#[trigger] after[i]) == (k, v) || exists|i0: int|
                0 <= i0 < before.len() && after[i] == before[i0],
        forall|t: Seq<char>|
            has_key(before, t) && t != k.text() ==> #[trigger] has_key(after, t),
{
    if has_key(before, k.text()) {
        lemma_lookup_index(before, k.text());
    }
    let p = lemma_insert_pos_in_range(mid, k);
    assert forall|i: int| 0 <= i < after.len() implies (#[trigger] after[i]) == (k, v) || exists|
        i0: int,
    | 0 <= i0 < before.len() && after[i] == before[i0] by {
        if i != p {
            let im = if i < p {
                i
            } else {
                i - 1
            };
            assert(after[i] == mid[im]);
            if has_key(before, k.text()) {
                let ki = key_idx(before, k.text());
                let i0 = if im < ki {
                    im
                } else {
                    im + 1
                };
                assert(mid[im] == before[i0]);
            }
        }
    }
    assert forall|t: Seq<char>| has_key(before, t) && t != k.text() implies #[trigger] has_key(
        after,
        t,
    ) by {
        assert(has_key(before, t));
        if has_key(before, k.text()) {
            lemma_lookup_remove(before, key_idx(before, k.text()), t);
        }
        lemma_lookup_insert(mid, p, k, v, t);
    }
}

/// One step of the self-describing load: the entry's key is now present,
/// earlier keys stay present, and every row still traces to some entry.
proof fn lemma_deser_step<K: TableKey, V>(
    before: Seq<(K, V)>,
    mid: Seq<(K, V)>,
    after: Seq<(K, V)>,
    k: K,
    v: V,
    entries: Seq<(Seq<char>, DocModel)>,
    j: int,
)
    requires
        table_wf(before),
        mid == if has_key(before, k.text()) {
            before.remove(key_idx(before, k.text()))
        } else {
            before
        },
        !has_key(mid, k.text()),
        after == mid.insert(insert_pos(mid, k), (k, v)),
    ensures
        has_key(after, k.text()),
        forall|t: Seq<char>|
            has_key(before, t) && t != k.text() ==> #[trigger] has_key(after, t),
        forall|i: int|
            0 <= i < after.len() ==> (#[trigger] after[i]) == (k, v) || exists|i0: int|
                0 <= i0 < before.len() && after[i] == before[i0],
{
    lemma_deser_vals(before, mid, after, k, v);
    let p = lemma_insert_pos_in_range(mid, k);
    lemma_lookup_insert(mid, p, k, v, k.text());
}

/// Round trip through the self-describing form: a table written as an
/// object — one entry per row, keyed by the text of the row's key, which is
/// what `serialize` emits — and read back into any table that
/// `deserialize`'s contract admits holds exactly the keys of the original:
/// no key is lost and none appears from nowhere.
pub proof fn lemma_round_trip_keys<V: PrimaryKey, F: Fn(&Doc) -> Option<V>>(
    s: Seq<(<V as PrimaryKey>::PrimaryKeyType, V)>,
    entries: Seq<(Seq<char>, DocModel)>,
    t2: Seq<(<V as PrimaryKey>::PrimaryKeyType, V)>,
    decode: F,
)
    requires
        entries.len() == s.len(),
        forall|i: int| 0 <= i < s.len() ==> (#[trigger] entries[i]).0 == s[i].0.text(),
        forall|j: int| 0 <= j < entries.len() ==> has_key(t2, (#[trigger] entries[j]).0),
        rows_trace_object(t2, entries, decode, entries.len() as int),
    ensures
        forall|tt: Seq<char>| #[trigger] has_key(s, tt) ==> has_key(t2, tt),
        forall|tt: Seq<char>| #[trigger] has_key(t2, tt) ==> has_key(s, tt),
{
    assert forall|tt: Seq<char>| #[trigger] has_key(s, tt) implies has_key(t2, tt) by {
        lemma_has_key_exists(s, tt);
        let i = choose|i: int| 0 <= i < s.len() && (#[trigger] s[i].0).text() == tt;
        assert(entries[i].0 == tt);
    }
    assert forall|tt: Seq<char>| #[trigger] has_key(t2, tt) implies has_key(s, tt) by {
        lemma_has_key_exists(t2, tt);
        let i = choose|i: int| 0 <= i < t2.len() && (#[trigger] t2[i].0).text() == tt;
        let j = choose|j: int|
            0 <= j < entries.len() && (#[trigger] t2[i]).0.text() == entries[j].0 && (exists|
                item: Doc,
            |
                item@ == entries[j].1 && call_ensures(decode, (&item,), Some(t2[i].1)));
        assert(s[j].0.text() == tt);
        lemma_has_key_exists(s, tt);
    }
}

/// The comparator's contract puts `a` at or below `b`: a call on the pair
/// could return something other than `Greater`, or a call on the reversed
/// pair could return `Greater`. For a comparator whose result is a
/// function of its arguments this says exactly that `a, b` do not compare
/// `Greater`.
pub open spec fn pair_ordered<'a, V, O: Fn(&&'a V, &&'a V) -> core::cmp::Ordering>(
    comparator: O,
    a: &'a V,
    b: &'a V,
) -> bool {
    ||| (exists|o: core::cmp::Ordering|
        #![trigger call_ensures(comparator, (&a, &b), o)]
        call_ensures(comparator, (&a, &b), o) && o != core::cmp::Ordering::Greater)
    ||| call_ensures(comparator, (&b, &a), core::cmp::Ordering::Greater)
}

/// Every adjacent pair of the sequence stands in comparator order.
pub open spec fn ordered_by<'a, V, O: Fn(&&'a V, &&'a V) -> core::cmp::Ordering>(
    s: Seq<&'a V>,
    comparator: O,
) -> bool {
    forall|i: int|
        0 <= i < s.len() - 1 ==> pair_ordered(comparator, #[trigger] s[i], s[i + 1])
}

/// Pushing an element between the rows that compare `Greater` to it and
/// the rest keeps every adjacent pair in comparator order.
proof fn lemma_ordered_insert<'a, V, O: Fn(&&'a V, &&'a V) -> core::cmp::Ordering>(
    s: Seq<&'a V>,
    q: int,
    x: &'a V,
    comparator: O,
)
    requires
        0 <= q <= s.len(),
        ordered_by(s, comparator),
        forall|rr: int|
            q <= rr < s.len() ==> call_ensures(
                comparator,
                (&(#[trigger] s[rr]), &x),
                core::cmp::Ordering::Greater,
            ),
        q > 0 ==> pair_ordered(comparator, s[q - 1], x),
    ensures
        ordered_by(s.insert(q, x), comparator),
{
    let s2 = s.insert(q, x);
    assert forall|i: int| 0 <= i < s2.len() - 1 implies pair_ordered(
        comparator,
        #[trigger] s2[i],
        s2[i + 1],
    ) by {
        if i < q - 1 {
            assert(s2[i] == s[i] && s2[i + 1] == s[i + 1]);
            assert(pair_ordered(comparator, s[i], s[i + 1]));
        } else if i == q - 1 {
            assert(s2[i] == s[q - 1] && s2[i + 1] == x);
        } else if i == q {
            assert(s2[i] == x && s2[i + 1] == s[q]);
            assert(call_ensures(comparator, (&s[q], &x), core::cmp::Ordering::Greater));
        } else {
            assert(s2[i] == s[i - 1] && s2[i + 1] == s[i]);
            assert(pair_ordered(comparator, s[i - 1], s[i]));
        }
    }
}

/// Mapping commutes with pushing an element into the middle.
proof fn lemma_map_values_insert<A, B>(s: Seq<A>, i: int, x: A, f: spec_fn(A) -> B)
    requires
        0 <= i <= s.len(),
    ensures
        s.insert(i, x).map_values(f) == s.map_values(f).insert(i, f(x)),
{
    assert(s.insert(i, x).map_values(f) =~= s.map_values(f).insert(i, f(x)));
}

/// Pushing an element into the middle adds it to the multiset.
proof fn lemma_insert_to_multiset<A>(s: Seq<A>, i: int, x: A)
    requires
        0 <= i <= s.len(),
    ensures
        s.insert(i, x).to_multiset() == s.to_multiset().insert(x),
{
    broadcast use vstd::multiset::group_multiset_axioms;
    broadcast use vstd::seq_lib::group_to_multiset_ensures;

    let s2 = s.insert(i, x);
    assert(s2.remove(i) =~= s);
    assert(s2[i] == x);
    assert(s2.remove(i).to_multiset() =~= s2.to_multiset().remove(x));
    assert(s2.contains(x)) by {
        assert(s2[i] == x);
    }
    assert(s2.to_multiset().count(x) > 0);
    assert(s2.to_multiset() =~= s.to_multiset().insert(x));
}

/// Mapping commutes with appending an element.
proof fn lemma_map_values_push<A, B>(s: Seq<A>, x: A, f: spec_fn(A) -> B)
    ensures
        s.push(x).map_values(f) == s.map_values(f).push(f(x)),
{
    assert(s.push(x).map_values(f) =~= s.map_values(f).push(f(x)));
}

/// Uniqueness: once a record with key `k1` is added, a second record whose
/// key is the same entry finds the key taken — so, by the contract of
/// `insert` and `add`, the second call returns a refusal and leaves the
/// table exactly as it was.
pub proof fn lemma_unique_keys<K: TableKey, V>(s: Seq<(K, V)>, k1: K, v1: V, k2: K)
    requires
        table_wf(s),
        !has_key(s, k1.text()),
        k2.text() == k1.text(),
    ensures
        has_key(s.insert(insert_pos(s, k1), (k1, v1)), k2.text()),
{
    let i = lemma_insert_pos_in_range(s, k1);
    let s2 = s.insert(i, (k1, v1));
    assert(s2[i] == (k1, v1));
    assert(0 <= i < s2.len() && s2[i].0.text() == k2.text());
    lemma_has_key_exists(s2, k2.text());
}

/// `insert_pos` points inside the widened sequence.
pub proof fn lemma_insert_pos_in_range<K: TableKey, V>(s: Seq<(K, V)>, k: K) -> (i: int)
    ensures
        i == insert_pos(s, k),
        0 <= i <= s.len(),
    decreases s.len(),
{
    if s.len() == 0 {
    } else if s[0].0.le(&k) {
        lemma_insert_pos_in_range(s.drop_first(), k);
    } else {
    }
    insert_pos(s, k)
}

/// Rekeying: after an `edit` moves a record from `old_key` to a fresh key
/// `nk`, the new key resolves to the edited record and the old key resolves
/// to nothing.
pub proof fn lemma_edit_rekey<K: TableKey, V>(s: Seq<(K, V)>, t: Seq<char>, nk: K, v: V)
    requires
        table_wf(s),
        has_key(s, t),
        nk.text() != t,
        !has_key(s, nk.text()),
    ensures
        ({
            let mid = s.remove(key_idx(s, t));
            let s2 = mid.insert(insert_pos(mid, nk), (nk, v));
            lookup(s2, nk.text()) == Some(v) && !has_key(s2, t)
        }),
{
    lemma_lookup_index(s, t);
    let i = key_idx(s, t);
    lemma_wf_remove(s, i);
    lemma_lookup_remove(s, i, nk.text());
    lemma_lookup_remove(s, i, t);
    let mid = s.remove(i);
    let p = lemma_insert_pos_in_range(mid, nk);
    let s2 = mid.insert(p, (nk, v));
    lemma_lookup_insert(mid, p, nk, v, nk.text());
    lemma_lookup_insert(mid, p, nk, v, t);
}

/// The same, for an `edit` that keeps the key: the key resolves to the
/// edited record afterwards.
pub proof fn lemma_edit_same_key<K: TableKey, V>(s: Seq<(K, V)>, t: Seq<char>, nk: K, v: V)
    requires
        table_wf(s),
        has_key(s, t),
        nk.text() == t,
    ensures
        ({
            let mid = s.remove(key_idx(s, t));
            let s2 = mid.insert(insert_pos(mid, nk), (nk, v));
            lookup(s2, t) == Some(v)
        }),
{
    lemma_lookup_index(s, t);
    let i = key_idx(s, t);
    lemma_wf_remove(s, i);
    lemma_lookup_remove(s, i, t);
    let mid = s.remove(i);
    let p = lemma_insert_pos_in_range(mid, nk);
    lemma_lookup_insert(mid, p, nk, v, t);
}

/// How `lookup` sees a sequence with one row pushed in: the new key
/// resolves to the new value if it was absent; other keys are untouched.
pub proof fn lemma_lookup_insert<K: TableKey, V>(s: Seq<(K, V)>, i: int, k: K, v: V, t: Seq<char>)
    requires
        0 <= i <= s.len(),
        !has_key(s, k.text()),
    ensures
        k.text() == t ==> lookup(s.insert(i, (k, v)), t) == Some(v),
        k.text() != t ==> lookup(s.insert(i, (k, v)), t) == lookup(s, t),
{
    let s2 = s.insert(i, (k, v));
    lemma_has_key_exists(s, t);
    if k.text() == t {
        assert(s2[i] == (k, v));
        assert forall|a: int| 0 <= a < i implies (#[trigger] s2[a].0).text() != t by {
            assert(s2[a] == s[a]);
        }
        lemma_lookup_first(s2, t, i);
    } else {
        if has_key(s, t) {
            lemma_lookup_index(s, t);
            let j = key_idx(s, t);
            let j2 = if j < i {
                j
            } else {
                j + 1
            };
            assert(s2[j2] == s[j]);
            assert forall|a: int| 0 <= a < j2 implies (#[trigger] s2[a].0).text() != t by {
                if a < i {
                    assert(s2[a] == s[a]);
                    assert(a < j);
                } else if a == i {
                    assert(s2[a] == (k, v));
                } else {
                    assert(s2[a] == s[a - 1]);
                    assert(a - 1 < j);
                }
            }
            lemma_lookup_first(s2, t, j2);
        } else {
            lemma_has_key_exists(s2, t);
            assert forall|a: int| 0 <= a < s2.len() implies (#[trigger] s2[a].0).text() != t by {
                if a < i {
                    assert(s2[a] == s[a]);
                } else if a == i {
                    assert(s2[a] == (k, v));
                } else {
                    assert(s2[a] == s[a - 1]);
                }
            }
        }
    }
}

/// Removing a row keeps the rows in strictly ascending key order.
pub proof fn lemma_wf_remove<K: TableKey, V>(s: Seq<(K, V)>, i: int)
    requires
        table_wf(s),
        0 <= i < s.len(),
    ensures
        table_wf(s.remove(i)),
{
    let s2 = s.remove(i);
    assert forall|p: int, q: int|
        #![trigger s2[p], s2[q]]
        0 <= p < q < s2.len() implies s2[p].0.le(&s2[q].0) && s2[p].0.text() != s2[q].0.text() by {
        let p0 = if p < i {
            p
        } else {
            p + 1
        };
        let q0 = if q < i {
            q
        } else {
            q + 1
        };
        assert(s2[p] == s[p0] && s2[q] == s[q0]);
    }
}

/// How `lookup` sees a sequence with one row taken out: the removed key is
/// gone, every other key is untouched.
pub proof fn lemma_lookup_remove<K: TableKey, V>(s: Seq<(K, V)>, i: int, t: Seq<char>)
    requires
        table_wf(s),
        0 <= i < s.len(),
    ensures
        s[i].0.text() == t ==> !has_key(s.remove(i), t),
        s[i].0.text() != t ==> lookup(s.remove(i), t) == lookup(s, t),
{
    let s2 = s.remove(i);
    if s[i].0.text() == t {
        lemma_has_key_exists(s2, t);
        assert forall|j: int| 0 <= j < s2.len() implies (#[trigger] s2[j].0).text() != t by {
            let j0 = if j < i {
                j
            } else {
                j + 1
            };
            assert(s2[j] == s[j0]);
            assert(j0 != i);
            if j0 < i {
                assert(s[j0].0.text() != s[i].0.text());
            } else {
                assert(s[i].0.text() != s[j0].0.text());
            }
        }
    } else {
        lemma_has_key_exists(s, t);
        lemma_has_key_exists(s2, t);
        if has_key(s, t) {
            lemma_lookup_index(s, t);
            let j = key_idx(s, t);
            assert(j != i);
            let j2 = if j < i {
                j
            } else {
                j - 1
            };
            assert(s2[j2] == s[j]);
            assert forall|a: int| 0 <= a < j2 implies (#[trigger] s2[a].0).text() != t by {
                let a0 = if a < i {
                    a
                } else {
                    a + 1
                };
                assert(s2[a] == s[a0]);
                assert(a0 < j);
            }
            lemma_lookup_first(s2, t, j2);
        } else {
            assert forall|j: int| 0 <= j < s2.len() implies (#[trigger] s2[j].0).text() != t by {
                let j0 = if j < i {
                    j
                } else {
                    j + 1
                };
                assert(s2[j] == s[j0]);
            }
        }
    }
}

} // verus!
