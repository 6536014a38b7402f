//! A keyed record store: at most one record per key, with point lookup,
//! removal, and a query pipeline that filters and then sorts.

use vstd::prelude::*;
use crate::error::QueryError;
use crate::sort::{sort_strict, strictly_sorted};

verus! {

/// A record type that a `RecordStore` can hold.
pub trait Record: Sized {
    /// The key, as the store's contents are indexed by it.
    type Key;

    /// A key as executable code passes it to a lookup.
    type KeyValue;

    /// A field that a query can sort by.
    type Field: Copy;

    /// The record's key.
    spec fn key(&self) -> Self::Key;

    /// The key that an executable key value stands for.
    spec fn key_of_value(k: &Self::KeyValue) -> Self::Key;

    /// The field that a selector name denotes, if any.
    spec fn field_named(s: Seq<char>) -> Option<Self::Field>;

    /// Order of a query sorted by `f`: by field `f`, ties broken by key.
    spec fn before(f: Self::Field, a: Self, b: Self) -> bool;

    /// The record's key, as a value that lookups take.
    fn key_value(&self) -> (k: Self::KeyValue)
        ensures
            Self::key_of_value(&k) == self.key(),
    ;

    /// Whether the record's key is `k`.
    fn has_key(&self, k: &Self::KeyValue) -> (r: bool)
        ensures
            r == (self.key() == Self::key_of_value(k)),
    ;

    /// An equal copy of the record.
    fn copy_record(&self) -> (r: Self)
        ensures
            r == *self,
    ;

    /// Looks a selector name up.
    fn field_from_name(s: &str) -> (r: Option<Self::Field>)
        ensures
            r == Self::field_named(s@),
    ;

    /// Whether `a` comes before `b` in a query sorted by `f`.
    fn less(f: Self::Field, a: &Self, b: &Self) -> (r: bool)
        ensures
            r == Self::before(f, *a, *b),
    ;

    /// `before(f)` is a strict order, total on records with different keys.
    proof fn lemma_order(f: Self::Field, a: Self, b: Self, c: Self)
        ensures
            !Self::before(f, a, a),
            a.key() != b.key() ==> Self::before(f, a, b) || Self::before(f, b, a),
            Self::before(f, a, b) && Self::before(f, b, c) ==> Self::before(f, a, c),
    ;
}

/// The order of a query sorted by `f`, as a spec function value.
pub open spec fn record_order<R: Record>(f: R::Field) -> spec_fn(R, R) -> bool {
    |a: R, b: R| R::before(f, a, b)
}

/// The filter, where there is one, can be called on every record.
pub open spec fn filter_callable<R: Record, P: Fn(&R) -> bool>(filter: &Option<P>) -> bool {
    match filter {
        Some(p) => forall|x: &R| #[trigger] p.requires((x,)),
        None => true,
    }
}

/// The filter, where there is one, answered `true` on `x`.
pub open spec fn kept<R: Record, P: Fn(&R) -> bool>(filter: &Option<P>, x: R) -> bool {
    match filter {
        Some(p) => p.ensures((&x,), true),
        None => true,
    }
}

/// There is a filter, and it answered `false` on `x`.
pub open spec fn dropped<R: Record, P: Fn(&R) -> bool>(filter: &Option<P>, x: R) -> bool {
    match filter {
        Some(p) => p.ensures((&x,), false),
        None => false,
    }
}

/// `v` holds, once each, exactly the stored records of `m` that the filter kept.
pub open spec fn is_selection<R: Record, P: Fn(&R) -> bool>(m: Map<R::Key, R>, filter: &Option<P>, v: Seq<R>) -> bool {
    &&& forall|i: int|
        0 <= i < v.len() ==> m.contains_key(#[trigger] v[i].key()) && m[v[i].key()] == v[i] && kept(filter, v[i])
    &&& forall|k: R::Key|
        #[trigger] m.contains_key(k) ==> (exists|i: int| 0 <= i < v.len() && v[i].key() == k) || dropped(
            filter,
            m[k],
        )
    &&& unique_keys(v)
}

/// `v` holds, once each, exactly the stored records of `m` that satisfy `pred`.
pub open spec fn lists_exactly<R: Record>(m: Map<R::Key, R>, v: Seq<R>, pred: spec_fn(R) -> bool) -> bool {
    &&& forall|i: int|
        0 <= i < v.len() ==> m.contains_key(#[trigger] v[i].key()) && m[v[i].key()] == v[i] && pred(v[i])
    &&& forall|k: R::Key|
        #[trigger] m.contains_key(k) && pred(m[k]) ==> exists|i: int| 0 <= i < v.len() && v[i].key() == k
    &&& unique_keys(v)
}

/// A query filtered by a predicate whose answer depends on the record alone
/// returns, once each, exactly the stored records that satisfy it.
pub proof fn law_filter_selects_exactly<R: Record, P: Fn(&R) -> bool>(
    m: Map<R::Key, R>,
    p: P,
    v: Seq<R>,
    pred: spec_fn(R) -> bool,
)
    requires
        is_selection(m, &Some(p), v),
        forall|x: &R, b: bool| #[trigger] p.ensures((x,), b) ==> b == pred(*x),
    ensures
        lists_exactly(m, v, pred),
{
    let filter = Some(p);
    assert forall|i: int| 0 <= i < v.len() implies m.contains_key(#[trigger] v[i].key()) && m[v[i].key()] == v[i]
        && pred(v[i]) by {
        assert(m.contains_key(v[i].key()));
        assert(m[v[i].key()] == v[i]);
        assert(kept(&filter, v[i]));
        assert(p.ensures((&v[i],), true));
    }
    assert forall|k: R::Key| #[trigger] m.contains_key(k) && pred(m[k]) implies exists|i: int|
        0 <= i < v.len() && v[i].key() == k by {
        if dropped(&filter, m[k]) {
            assert(p.ensures((&m[k],), false));
        }
    }
}

/// What a lookup of `k` in contents `m` returns.
pub open spec fn lookup<R: Record>(m: Map<R::Key, R>, k: R::Key) -> Option<R> {
    if m.contains_key(k) {
        Some(m[k])
    } else {
        None
    }
}

/// The contents after adding `adds`, in order, to contents `m`.
pub open spec fn after_adds<R: Record>(m: Map<R::Key, R>, adds: Seq<R>) -> Map<R::Key, R>
    decreases adds.len(),
{
    if adds.len() == 0 {
        m
    } else {
        after_adds(m, adds.drop_last()).insert(adds.last().key(), adds.last())
    }
}

/// After any sequence of additions, each key holds one record: the one added last
/// under that key, or, where none was added under it, what was there before.
pub proof fn law_last_add_wins<R: Record>(m: Map<R::Key, R>, adds: Seq<R>, k: R::Key)
    ensures
        forall|i: int|
            0 <= i < adds.len() && (#[trigger] adds[i]).key() == k && (forall|j: int|
                i < j < adds.len() ==> (#[trigger] adds[j]).key() != k) ==> lookup(after_adds(m, adds), k)
                == Some(adds[i]),
        (forall|i: int| 0 <= i < adds.len() ==> (#[trigger] adds[i]).key() != k) ==> lookup(
            after_adds(m, adds),
            k,
        ) == lookup(m, k),
    decreases adds.len(),
{
    if adds.len() > 0 {
        let pre = adds.drop_last();
        law_last_add_wins(m, pre, k);
        let n = adds.len() - 1;
        assert forall|i: int|
            0 <= i < adds.len() && (#[trigger] adds[i]).key() == k && (forall|j: int|
                i < j < adds.len() ==> (#[trigger] adds[j]).key() != k) implies lookup(after_adds(m, adds), k)
            == Some(adds[i]) by {
            if i < n {
                assert(adds[n].key() != k);
                assert(pre[i] == adds[i]);
                assert forall|j: int| i < j < pre.len() implies (#[trigger] pre[j]).key() != k by {
                    assert(pre[j] == adds[j]);
                }
            }
        }
        if forall|i: int| 0 <= i < adds.len() ==> (#[trigger] adds[i]).key() != k {
            assert(adds[n].key() != k);
            assert forall|i: int| 0 <= i < pre.len() implies (#[trigger] pre[i]).key() != k by {
                assert(pre[i] == adds[i]);
            }
        }
    }
}

/// Adding a record and then looking its key up gives the record back.
pub proof fn law_add_then_get<R: Record>(m: Map<R::Key, R>, r: R)
    ensures
        lookup(m.insert(r.key(), r), r.key()) == Some(r),
{
}

/// Removing an absent key reports nothing removed and changes nothing; removing
/// the same key twice in a row reports nothing removed the second time.
pub proof fn law_remove_idempotent<R: Record>(m: Map<R::Key, R>, k: R::Key)
    ensures
        !m.contains_key(k) ==> m.remove(k) == m,
        !m.remove(k).contains_key(k),
        m.remove(k).remove(k) == m.remove(k),
{
    if !m.contains_key(k) {
        assert(m.remove(k) =~= m);
    }
    assert(m.remove(k).remove(k) =~= m.remove(k));
}

/// The sort selector names no field of `R`.
pub open spec fn bad_selector<R: Record>(sort_by: Option<&str>) -> bool {
    match sort_by {
        Some(name) => R::field_named(name@) is None,
        None => false,
    }
}

/// `v` is in the order that the selector asks for (any order where there is none).
pub open spec fn ordered_by_selector<R: Record>(v: Seq<R>, sort_by: Option<&str>) -> bool {
    match sort_by {
        Some(name) => match R::field_named(name@) {
            Some(f) => strictly_sorted(v, record_order::<R>(f)),
            None => true,
        },
        None => true,
    }
}

proof fn lemma_selection_reordered<R: Record, P: Fn(&R) -> bool>(
    m: Map<R::Key, R>,
    filter: &Option<P>,
    v: Seq<R>,
    w: Seq<R>,
    f: R::Field,
)
    requires
        is_selection(m, filter, v),
        forall|x: R| w.contains(x) <==> v.contains(x),
        strictly_sorted(w, record_order::<R>(f)),
    ensures
        is_selection(m, filter, w),
{
    assert forall|i: int| 0 <= i < w.len() implies m.contains_key(#[trigger] w[i].key()) && m[w[i].key()]
        == w[i] && kept(filter, w[i]) by {
        assert(w.contains(w[i]));
        let j = choose|j: int| 0 <= j < v.len() && v[j] == w[i];
        assert(v[j].key() == w[i].key());
    }
    assert forall|k: R::Key| #[trigger] m.contains_key(k) implies (exists|i: int|
        0 <= i < w.len() && w[i].key() == k) || dropped(filter, m[k]) by {
        if !dropped(filter, m[k]) {
            let j = choose|j: int| 0 <= j < v.len() && v[j].key() == k;
            assert(v.contains(v[j]));
            let i = choose|i: int| 0 <= i < w.len() && w[i] == v[j];
            assert(w[i].key() == k);
        }
    }
    assert forall|a: int, b: int| 0 <= a < b < w.len() implies (#[trigger] w[a]).key() != (#[trigger] w[b]).key() by {
        assert(R::before(f, w[a], w[b]));
        if w[a].key() == w[b].key() {
            assert(m[w[a].key()] == w[a]);
            R::lemma_order(f, w[a], w[b], w[b]);
        }
    }
}

/// No two records of `s` share a key.
pub open spec fn unique_keys<R: Record>(s: Seq<R>) -> bool {
    forall|i: int, j: int| 0 <= i < j < s.len() ==> (#[trigger] s[i]).key() != (#[trigger] s[j]).key()
}

/// The map from key to record that a sequence of records with unique keys denotes.
pub open spec fn records_map<R: Record>(s: Seq<R>) -> Map<R::Key, R> {
    Map::new(
        |k: R::Key| exists|i: int| 0 <= i < s.len() && (#[trigger] s[i]).key() == k,
        |k: R::Key| s[choose|i: int| 0 <= i < s.len() && (#[trigger] s[i]).key() == k],
    )
}

proof fn lemma_records_map<R: Record>(s: Seq<R>)
    requires
        unique_keys(s),
    ensures
        forall|i: int|
            0 <= i < s.len() ==> records_map(s).contains_key(#[trigger] s[i].key()) && records_map(s)[s[i].key()]
                == s[i],
        forall|k: R::Key|
            #[trigger] records_map(s).contains_key(k) ==> exists|i: int| 0 <= i < s.len() && s[i].key() == k,
{
    assert forall|i: int| 0 <= i < s.len() implies records_map(s).contains_key(#[trigger] s[i].key())
        && records_map(s)[s[i].key()] == s[i] by {
        let k = s[i].key();
        let j = choose|j: int| 0 <= j < s.len() && (#[trigger] s[j]).key() == k;
        assert(0 <= j < s.len() && s[j].key() == k);
        if j < i {
            assert(s[j].key() != s[i].key());
        } else if j > i {
            assert(s[i].key() != s[j].key());
        }
    }
}

/// A keyed store of records: at most one record per key.
pub struct RecordStore<R: Record> {
    records: Vec<R>,
}

impl<R: Record> View for RecordStore<R> {
    type V = Map<R::Key, R>;

    closed spec fn view(&self) -> Map<R::Key, R> {
        records_map(self.records@)
    }
}

impl<R: Record> RecordStore<R> {
    /// Every record is stored under its own key, once.
    pub closed spec fn wf(&self) -> bool {
        unique_keys(self.records@)
    }

    /// An empty store.
    pub fn new() -> (r: RecordStore<R>)
        ensures
            r.wf(),
            r@ == Map::<R::Key, R>::empty(),
    {
        let r = RecordStore { records: Vec::new() };
        assert(r@ =~= Map::<R::Key, R>::empty());
        r
    }

    fn index_of(&self, key: &R::KeyValue) -> (r: Option<usize>)
        ensures
            match r {
                Some(i) => i < self.records.len() && self.records@[i as int].key() == R::key_of_value(key),
                None => forall|i: int| 0 <= i < self.records.len() ==> (#[trigger] self.records@[i]).key() != R::key_of_value(key),
            },
    {
        let mut i: usize = 0;
        while i < self.records.len()
            invariant
                i <= self.records.len(),
                forall|j: int| 0 <= j < i ==> (#[trigger] self.records@[j]).key() != R::key_of_value(key),
            decreases self.records.len() - i,
        {
            if self.records[i].has_key(key) {
                return Some(i);
            }
            i = i + 1;
        }
        None
    }

    /// Stores `record` under its key, replacing any record that had that key.
    pub fn add(&mut self, record: R)
        requires
            old(self).wf(),
        ensures
            final(self).wf(),
            final(self)@ == old(self)@.insert(record.key(), record),
    {
        let ghost s = self.records@;
        let ghost k0 = record.key();
        let ghost it = record;
        proof {
            lemma_records_map(s);
        }
        let key = record.key_value();
        match self.index_of(&key) {
            Some(i) => {
                self.records.set(i, record);
                let ghost t = self.records@;
                assert(t == s.update(i as int, it));
                assert forall|a: int, b: int| 0 <= a < b < t.len() implies (#[trigger] t[a]).key()
                    != (#[trigger] t[b]).key() by {
                    if a != i && b != i {
                        assert(s[a].key() != s[b].key());
                    } else if a == i {
                        assert(s[i as int].key() != s[b].key());
                    } else {
                        assert(s[a].key() != s[i as int].key());
                    }
                }
                proof {
                    lemma_records_map(t);
                }
                assert forall|k: R::Key| #[trigger] records_map(t).contains_key(k) == records_map(s).insert(k0, it).contains_key(k) by {
                    if records_map(s).contains_key(k) {
                        let j = choose|j: int| 0 <= j < s.len() && s[j].key() == k;
                        if j != i {
                            assert(t[j].key() == k);
                        }
                    }
                    if records_map(t).contains_key(k) {
                        let j = choose|j: int| 0 <= j < t.len() && t[j].key() == k;
                        if j != i {
                            assert(s[j].key() == k);
                        }
                    }
                    if k == k0 {
                        assert(t[i as int].key() == k);
                    }
                }
                assert forall|k: R::Key| #[trigger] records_map(t).contains_key(k) implies records_map(t)[k] == records_map(s).insert(k0, it)[k] by {
                    let j = choose|j: int| 0 <= j < t.len() && t[j].key() == k;
                    if j != i {
                        assert(s[j] == t[j]);
                    }
                }
                assert(records_map(t) =~= records_map(s).insert(k0, it));
            },
            None => {
                self.records.push(record);
                let ghost t = self.records@;
                assert(t == s.push(it));
                assert forall|a: int, b: int| 0 <= a < b < t.len() implies (#[trigger] t[a]).key()
                    != (#[trigger] t[b]).key() by {
                    if b < s.len() {
                        assert(s[a].key() != s[b].key());
                    } else {
                        assert(s[a].key() != k0);
                    }
                }
                proof {
                    lemma_records_map(t);
                }
                assert forall|k: R::Key| #[trigger] records_map(t).contains_key(k) == records_map(s).insert(k0, it).contains_key(k) by {
                    if records_map(s).contains_key(k) {
                        let j = choose|j: int| 0 <= j < s.len() && s[j].key() == k;
                        assert(t[j].key() == k);
                    }
                    if records_map(t).contains_key(k) {
                        let j = choose|j: int| 0 <= j < t.len() && t[j].key() == k;
                        if j < s.len() {
                            assert(s[j].key() == k);
                        }
                    }
                    if k == k0 {
                        assert(t[s.len() as int].key() == k);
                    }
                }
                assert forall|k: R::Key| #[trigger] records_map(t).contains_key(k) implies records_map(t)[k] == records_map(s).insert(k0, it)[k] by {
                    let j = choose|j: int| 0 <= j < t.len() && t[j].key() == k;
                    if j < s.len() {
                        assert(s[j] == t[j]);
                    }
                }
                assert(records_map(t) =~= records_map(s).insert(k0, it));
            },
        }
    }

    /// Deletes the record with key `key`; says whether there was one.
    pub fn remove(&mut self, key: &R::KeyValue) -> (r: bool)
        requires
            old(self).wf(),
        ensures
            final(self).wf(),
            r == old(self)@.contains_key(R::key_of_value(key)),
            final(self)@ == old(self)@.remove(R::key_of_value(key)),
    {
        let ghost s = self.records@;
        proof {
            lemma_records_map(s);
        }
        match self.index_of(key) {
            Some(i) => {
                self.records.remove(i);
                let ghost t = self.records@;
                assert(t == s.remove(i as int));
                assert forall|a: int, b: int| 0 <= a < b < t.len() implies (#[trigger] t[a]).key()
                    != (#[trigger] t[b]).key() by {
                    if b < i {
                        assert(s[a].key() != s[b].key());
                    } else if a < i {
                        assert(s[a].key() != s[b + 1].key());
                    } else {
                        assert(s[a + 1].key() != s[b + 1].key());
                    }
                }
                proof {
                    lemma_records_map(t);
                }
                assert forall|k: R::Key| #[trigger] records_map(t).contains_key(k) == records_map(s).remove(R::key_of_value(key)).contains_key(k) by {
                    if records_map(s).contains_key(k) && k != R::key_of_value(key) {
                        let j = choose|j: int| 0 <= j < s.len() && s[j].key() == k;
                        if j < i {
                            assert(t[j].key() == k);
                        } else {
                            assert(t[j - 1].key() == k);
                        }
                    }
                    if records_map(t).contains_key(k) {
                        let j = choose|j: int| 0 <= j < t.len() && t[j].key() == k;
                        if j < i {
                            assert(s[j].key() == k);
                            assert(s[j].key() != s[i as int].key());
                        } else {
                            assert(s[j + 1].key() == k);
                            assert(s[i as int].key() != s[j + 1].key());
                        }
                    }
                }
                assert forall|k: R::Key| #[trigger] records_map(t).contains_key(k) implies records_map(t)[k] == records_map(s).remove(R::key_of_value(key))[k] by {
                    let j = choose|j: int| 0 <= j < t.len() && t[j].key() == k;
                    if j < i {
                        assert(s[j] == t[j]);
                    } else {
                        assert(s[j + 1] == t[j]);
                    }
                }
                assert(records_map(t) =~= records_map(s).remove(R::key_of_value(key)));
                true
            },
            None => {
                assert(records_map(s) =~= records_map(s).remove(R::key_of_value(key)));
                false
            },
        }
    }

    /// The record stored under `key`, as a copy.
    pub fn get(&self, key: &R::KeyValue) -> (r: Option<R>)
        requires
            self.wf(),
        ensures
            r == lookup(self@, R::key_of_value(key)),
    {
        proof {
            lemma_records_map(self.records@);
        }
        match self.index_of(key) {
            Some(i) => Some(self.records[i].copy_record()),
            None => None,
        }
    }

    /// The stored records that `filter` keeps (all of them where there is none),
    /// sorted by the field that `sort_by` names, ties broken by key; unsorted
    /// where `sort_by` is `None`. Fails when `sort_by` names no field.
    pub fn query<P: Fn(&R) -> bool>(&self, filter: Option<P>, sort_by: Option<&str>) -> (r: Result<
        Vec<R>,
        QueryError,
    >)
        requires
            self.wf(),
            filter_callable(&filter),
        ensures
            r is Err <==> bad_selector::<R>(sort_by),
            match r {
                Ok(v) => is_selection(self@, &filter, v@) && ordered_by_selector(v@, sort_by),
                Err(e) => e == QueryError::InvalidQuery,
            },
    {
        let field = match sort_by {
            Some(name) => match R::field_from_name(name) {
                Some(f) => Some(f),
                None => {
                    return Err(QueryError::InvalidQuery);
                },
            },
            None => None,
        };
        let ghost s = self.records@;
        let mut out: Vec<R> = Vec::new();
        let mut i: usize = 0;
        while i < self.records.len()
            invariant
                s == self.records@,
                unique_keys(s),
                filter_callable(&filter),
                i <= s.len(),
                forall|a: int|
                    0 <= a < out.len() ==> (exists|j: int| 0 <= j < i && s[j] == #[trigger] out@[a])
                        && kept(&filter, out@[a]),
                forall|j: int|
                    0 <= j < i ==> (exists|a: int| 0 <= a < out.len() && out@[a].key() == (#[trigger] s[j]).key())
                        || dropped(&filter, s[j]),
                unique_keys(out@),
            decreases s.len() - i,
        {
            let keep = match &filter {
                Some(p) => p(&self.records[i]),
                None => true,
            };
            if keep {
                let ghost o = out@;
                out.push(self.records[i].copy_record());
                assert forall|a: int| 0 <= a < out.len() implies (exists|j: int|
                    0 <= j < i + 1 && s[j] == #[trigger] out@[a]) && kept(&filter, out@[a]) by {
                    if a < o.len() {
                        assert(out@[a] == o[a]);
                    } else {
                        assert(s[i as int] == out@[a]);
                    }
                }
                assert forall|j: int| 0 <= j < i + 1 implies (exists|a: int|
                    0 <= a < out.len() && out@[a].key() == (#[trigger] s[j]).key()) || dropped(&filter, s[j]) by {
                    if j < i {
                        if !dropped(&filter, s[j]) {
                            let a = choose|a: int| 0 <= a < o.len() && o[a].key() == s[j].key();
                            assert(out@[a] == o[a]);
                        }
                    } else {
                        assert(out@[o.len() as int] == s[j]);
                    }
                }
                assert forall|a: int, b: int| 0 <= a < b < out.len() implies (#[trigger] out@[a]).key()
                    != (#[trigger] out@[b]).key() by {
                    if b < o.len() {
                        assert(o[a].key() != o[b].key());
                    } else {
                        let j = choose|j: int| 0 <= j < i && s[j] == o[a];
                        assert(s[j].key() != s[i as int].key());
                    }
                }
            }
            i = i + 1;
        }
        proof {
            lemma_records_map(s);
            let m = records_map(s);
            assert forall|k: R::Key| #[trigger] m.contains_key(k) implies (exists|a: int|
                0 <= a < out.len() && out@[a].key() == k) || dropped(&filter, m[k]) by {
                let j = choose|j: int| 0 <= j < s.len() && s[j].key() == k;
                assert(m[s[j].key()] == s[j]);
            }
            assert forall|a: int| 0 <= a < out.len() implies m.contains_key(#[trigger] out@[a].key())
                && m[out@[a].key()] == out@[a] && kept(&filter, out@[a]) by {
                let j = choose|j: int| 0 <= j < i && s[j] == out@[a];
                assert(m[s[j].key()] == s[j]);
            }
            assert(is_selection(self@, &filter, out@));
        }
        match field {
            Some(f) => {
                let less = |a: &R, b: &R| -> (r: bool)
                    ensures
                        r == R::before(f, *a, *b),
                    { R::less(f, a, b) };
                proof {
                    assert forall|a: R, b: R, c: R| #[trigger] record_order::<R>(f)(a, b) && #[trigger] record_order::<R>(f)(b, c)
                        implies record_order::<R>(f)(a, c) by {
                        R::lemma_order(f, a, b, c);
                    }
                    assert forall|a: int, b: int| 0 <= a < out.len() && 0 <= b < out.len() && a != b
                        implies record_order::<R>(f)(#[trigger] out@[a], #[trigger] out@[b]) || record_order::<R>(f)(out@[b], out@[a]) by {
                        R::lemma_order(f, out@[a], out@[b], out@[b]);
                    }
                }
                let ghost v = out@;
                let sorted = sort_strict(out, &less, Ghost(record_order::<R>(f)));
                proof {
                    lemma_selection_reordered(self@, &filter, v, sorted@, f);
                }
                Ok(sorted)
            },
            None => Ok(out),
        }
    }

}

} // verus!
