//! Paged record storage for one table: fixed-capacity pages of encoded
//! records, and an index that gives the order in which a scan yields them
//! (key order where the table has a primary key, insertion order otherwise).
use vstd::prelude::*;
use crate::error::Error;
use crate::predicate::Cmp;
use crate::record::{decode_from, decode_record, decode_record_exec, lemma_decode_fits, lemma_decode_len, models};
use crate::value::{
    fits, labels_of, lemma_comparable, lemma_text_order_antisym, lemma_value_order_antisym, lemma_value_order_trans, lemma_value_order_zero, names_view, value_order, values_of, ColType, LabeledTypedTuple, Value, ValueModel,
};

verus! {

/// The number of bytes a page holds.
pub const PAGE_CAPACITY: usize = 4096;

/// A page: the records written to it, and how many bytes they take.
#[derive(Debug)]
pub struct Page {
    pub records: Vec<Vec<u8>>,
    pub used: usize,
}

/// Where a record lives, with its primary-key value where the table has one.
#[derive(Debug)]
pub struct IndexEntry {
    pub key: Option<Value>,
    pub page: usize,
    pub slot: usize,
}

/// A table: its schema, its pages, and its index.
#[derive(Debug)]
pub struct Table {
    pub name: String,
    pub column_names: Vec<String>,
    pub column_types: Vec<ColType>,
    pub primary_key: Option<usize>,
    pub pages: Vec<Page>,
    pub index: Vec<IndexEntry>,
}

/// The primary-key value of a record, the column `k` of its decoding.
pub open spec fn key_in(rec: Seq<u8>, types: Seq<ColType>, k: int) -> ValueModel {
    decode_record(rec, types)->Some_0[k]
}

/// The first position at or after `i` whose key is not below `key`: where
/// a record with that key goes.
pub open spec fn position_for(
    rows: Seq<Seq<u8>>,
    types: Seq<ColType>,
    k: int,
    key: ValueModel,
    i: int,
) -> int
    decreases rows.len() - i,
{
    if i >= rows.len() {
        i
    } else if value_order(key_in(rows[i], types, k), key) == Some(-1int) {
        position_for(rows, types, k, key, i + 1)
    } else {
        i
    }
}

/// The rows in scan order after one more record is stored.
pub open spec fn rows_after(
    rows: Seq<Seq<u8>>,
    types: Seq<ColType>,
    pk: Option<usize>,
    rec: Seq<u8>,
) -> Seq<Seq<u8>> {
    match pk {
        None => rows.push(rec),
        Some(k) => rows.insert(position_for(rows, types, k as int, key_in(rec, types, k as int), 0), rec),
    }
}

/// The rows in scan order after the records are stored one after another.
pub open spec fn rows_after_all(
    rows: Seq<Seq<u8>>,
    types: Seq<ColType>,
    pk: Option<usize>,
    recs: Seq<Seq<u8>>,
) -> Seq<Seq<u8>>
    decreases recs.len(),
{
    if recs.len() == 0 {
        rows
    } else {
        rows_after(rows_after_all(rows, types, pk, recs.drop_last()), types, pk, recs.last())
    }
}

/// The key of row `i` is below the key of row `i + 1`.
pub open spec fn ascending_at(rows: Seq<Seq<u8>>, types: Seq<ColType>, k: int, i: int) -> bool {
    value_order(key_in(rows[i], types, k), key_in(rows[i + 1], types, k)) == Some(-1int)
}

/// The rows' keys strictly ascend.
pub open spec fn keys_ascending(rows: Seq<Seq<u8>>, types: Seq<ColType>, k: int) -> bool {
    forall|i: int| 0 <= i && i + 1 < rows.len() ==> #[trigger] ascending_at(rows, types, k, i)
}

/// Every record decodes against the column types.
pub open spec fn all_decode(recs: Seq<Seq<u8>>, types: Seq<ColType>) -> bool {
    forall|i: int| 0 <= i < recs.len() ==> (#[trigger] decode_record(recs[i], types)) is Some
}

/// Every record fits in a page.
pub open spec fn all_fit(recs: Seq<Seq<u8>>) -> bool {
    forall|i: int| 0 <= i < recs.len() ==> (#[trigger] recs[i].len()) <= PAGE_CAPACITY
}

/// Every record has a key, and no two keys among the stored rows and the
/// new records are the same.
pub open spec fn keys_fresh(rows: Seq<Seq<u8>>, recs: Seq<Seq<u8>>, types: Seq<ColType>, k: int) -> bool {
    &&& forall|i: int| 0 <= i < recs.len() ==> !(#[trigger] key_in(recs[i], types, k) is Null)
    &&& forall|i: int, j: int|
        0 <= i < recs.len() && 0 <= j < rows.len() ==> value_order(
            #[trigger] key_in(rows[j], types, k),
            #[trigger] key_in(recs[i], types, k),
        ) != Some(0int)
    &&& forall|i: int, j: int|
        0 <= i < j < recs.len() ==> value_order(
            #[trigger] key_in(recs[i], types, k),
            #[trigger] key_in(recs[j], types, k),
        ) != Some(0int)
}

/// A batch of records is accepted: each decodes, fits a page and, under a
/// primary key, brings a new key.
pub open spec fn insert_accepts(
    rows: Seq<Seq<u8>>,
    types: Seq<ColType>,
    pk: Option<usize>,
    recs: Seq<Seq<u8>>,
) -> bool {
    &&& all_decode(recs, types)
    &&& all_fit(recs)
    &&& pk matches Some(k) ==> keys_fresh(rows, recs, types, k as int)
}

/// The decoded rows that a scan returns: all of them, or those for which the
/// filter holds under the column names.
pub open spec fn select_rows(
    rows: Seq<Seq<u8>>,
    types: Seq<ColType>,
    names: Seq<Seq<char>>,
    filter: Option<Cmp>,
) -> Seq<Seq<ValueModel>>
    decreases rows.len(),
{
    if rows.len() == 0 {
        Seq::empty()
    } else {
        let prev = select_rows(rows.drop_last(), types, names, filter);
        let v = decode_record(rows.last(), types)->Some_0;
        match filter {
            Some(c) => if c.holds(v, names) {
                prev.push(v)
            } else {
                prev
            },
            None => prev.push(v),
        }
    }
}

/// The byte views of some records.
pub open spec fn record_views(recs: Seq<Vec<u8>>) -> Seq<Seq<u8>> {
    recs.map_values(|r: Vec<u8>| r@)
}

impl Table {
    /// The record that index entry `i` points to.
    pub open spec fn record_at(self, i: int) -> Seq<u8> {
        self.pages@[self.index@[i].page as int].records@[self.index@[i].slot as int]@
    }

    /// The stored records in scan order.
    pub open spec fn rows(self) -> Seq<Seq<u8>> {
        Seq::new(self.index@.len(), |i: int| self.record_at(i))
    }

    /// The column types of the schema.
    pub open spec fn types(self) -> Seq<ColType> {
        self.column_types@
    }

    /// The column names of the schema.
    pub open spec fn names(self) -> Seq<Seq<char>> {
        names_view(self.column_names@)
    }

    /// The table's storage and index agree with its schema.
    pub open spec fn wf(self) -> bool {
        &&& self.column_names@.len() == self.column_types@.len()
        &&& self.primary_key matches Some(k) ==> k < self.column_types@.len()
        &&& forall|p: int| 0 <= p < self.pages@.len() ==> (#[trigger] self.pages@[p]).used <= PAGE_CAPACITY
        &&& forall|i: int| 0 <= i < self.index@.len() ==> #[trigger] self.entry_ok(i)
        &&& self.primary_key matches Some(k) ==> keys_ascending(self.rows(), self.types(), k as int)
    }

    /// Index entry `i` points into the pages at a record that decodes, and
    /// carries that record's key.
    pub open spec fn entry_ok(self, i: int) -> bool {
        &&& self.index@[i].page < self.pages@.len()
        &&& self.index@[i].slot < self.pages@[self.index@[i].page as int].records@.len()
        &&& decode_record(self.record_at(i), self.types()) is Some
        &&& self.entry_key_ok(i)
    }


    /// Index entry `i` carries the primary-key value of its record, or no key
    /// where the table has no primary key.
    pub open spec fn entry_key_ok(self, i: int) -> bool {
        match self.primary_key {
            None => self.index@[i].key is None,
            Some(k) => self.index@[i].key matches Some(v) && v@ == key_in(
                self.record_at(i),
                self.types(),
                k as int,
            ) && !(v@ is Null),
        }
    }

    /// The schema is unchanged from `other`.
    pub open spec fn same_schema(self, other: Table) -> bool {
        &&& self.name == other.name
        &&& self.column_names == other.column_names
        &&& self.column_types == other.column_types
        &&& self.primary_key == other.primary_key
    }

    /// An empty table with the given schema.
    pub fn new(name: String, column_names: Vec<String>, column_types: Vec<ColType>, primary_key: Option<usize>) -> (r: Table)
        requires
            column_names@.len() == column_types@.len(),
            primary_key matches Some(k) ==> k < column_types@.len(),
        ensures
            r.wf(),
            r.rows().len() == 0,
            r.name == name,
            r.column_names == column_names,
            r.column_types == column_types,
            r.primary_key == primary_key,
    {
        Table { name, column_names, column_types, primary_key, pages: Vec::new(), index: Vec::new() }
    }
}


/// The decoded values of some rows.
pub open spec fn rows_values(rows: Seq<LabeledTypedTuple>) -> Seq<Seq<ValueModel>> {
    rows.map_values(|t: LabeledTypedTuple| values_of(t.0@))
}

fn copy_bytes(b: &Vec<u8>) -> (r: Vec<u8>)
    ensures
        r@ == b@,
{
    let mut out: Vec<u8> = Vec::new();
    let mut i: usize = 0;
    while i < b.len()
        invariant
            i <= b@.len(),
            out@ == b@.take(i as int),
        decreases b@.len() - i,
    {
        out.push(b[i]);
        assert(b@.take(i + 1) =~= b@.take(i as int).push(b@[i as int]));
        i += 1;
    }
    assert(b@.take(i as int) =~= b@);
    out
}

/// Pairs each column name with its value.
fn labelled(names: &Vec<String>, vals: &Vec<Value>) -> (r: LabeledTypedTuple)
    requires
        names@.len() == vals@.len(),
    ensures
        values_of(r.0@) == models(vals@),
        labels_of(r.0@) == names_view(names@),
{
    let mut cells: Vec<(String, Value)> = Vec::new();
    let mut k: usize = 0;
    while k < vals.len()
        invariant
            names@.len() == vals@.len(),
            k <= vals@.len(),
            values_of(cells@) == models(vals@.take(k as int)),
            labels_of(cells@) == names_view(names@.take(k as int)),
        decreases vals@.len() - k,
    {
        let cell = (names[k].clone(), vals[k].duplicate());
        let ghost prev = cells@;
        cells.push(cell);
        assert(cells@ == prev.push(cell));
        assert(vals@.take(k + 1) =~= vals@.take(k as int).push(vals@[k as int]));
        assert(names@.take(k + 1) =~= names@.take(k as int).push(names@[k as int]));
        assert(values_of(prev.push(cell)) =~= values_of(prev).push(cell.1@));
        assert(labels_of(prev.push(cell)) =~= labels_of(prev).push(cell.0@));
        assert(values_of(cells@) =~= models(vals@.take(k + 1)));
        assert(labels_of(cells@) =~= names_view(names@.take(k + 1)));
        k += 1;
    }
    assert(vals@.take(k as int) =~= vals@);
    assert(names@.take(k as int) =~= names@);
    LabeledTypedTuple(cells)
}

/// Where a record goes: every row before it has a smaller key, and the
/// row it lands in front of does not.
proof fn lemma_position_props(rows: Seq<Seq<u8>>, types: Seq<ColType>, k: int, key: ValueModel, i: int)
    requires
        0 <= i <= rows.len(),
    ensures
        i <= position_for(rows, types, k, key, i) <= rows.len(),
        forall|j: int|
            i <= j < position_for(rows, types, k, key, i) ==> value_order(#[trigger] key_in(rows[j], types, k), key)
                == Some(-1int),
        position_for(rows, types, k, key, i) < rows.len() ==> value_order(
            key_in(rows[position_for(rows, types, k, key, i)], types, k),
            key,
        ) != Some(-1int),
    decreases rows.len() - i,
{
    if i < rows.len() {
        lemma_position_props(rows, types, k, key, i + 1);
    }
}

/// Under ascending keys, every earlier row's key is below every later one's.
proof fn lemma_ascending_pair(rows: Seq<Seq<u8>>, types: Seq<ColType>, k: int, i: int, j: int)
    requires
        keys_ascending(rows, types, k),
        0 <= i < j < rows.len(),
    ensures
        value_order(key_in(rows[i], types, k), key_in(rows[j], types, k)) == Some(-1int),
    decreases j - i,
{
    assert(ascending_at(rows, types, k, j - 1));
    if j > i + 1 {
        lemma_ascending_pair(rows, types, k, i, j - 1);
        lemma_value_order_trans(
            key_in(rows[i], types, k),
            key_in(rows[j - 1], types, k),
            key_in(rows[j], types, k),
        );
    }
}

/// The place for a key is the first row whose key is not below it.
proof fn lemma_position_at(rows: Seq<Seq<u8>>, types: Seq<ColType>, k: int, key: ValueModel, i: int, p: int)
    requires
        0 <= i <= p <= rows.len(),
        forall|j: int| i <= j < p ==> value_order(#[trigger] key_in(rows[j], types, k), key) == Some(-1int),
        p < rows.len() ==> value_order(key_in(rows[p], types, k), key) != Some(-1int),
    ensures
        position_for(rows, types, k, key, i) == p,
    decreases p - i,
{
    if i < p {
        lemma_position_at(rows, types, k, key, i + 1, p);
    }
}

/// The key of a stored record fits its column and is no null.
proof fn lemma_key_fits(rec: Seq<u8>, types: Seq<ColType>, k: int)
    requires
        0 <= k < types.len(),
        decode_record(rec, types) is Some,
    ensures
        fits(key_in(rec, types, k), types[k]),
{
    lemma_decode_len(rec, types, 0, 0);
    lemma_decode_fits(rec, types, 0, 0);
    assert(fits(decode_from(rec, types, 0, 0)->Some_0[k], types[0 + k]));
}

/// Inserting a record whose key is new at its place keeps keys ascending.
proof fn lemma_ascending_after_insert(t: Table, rec: Seq<u8>, k: usize, p: int)
    requires
        t.wf(),
        t.primary_key == Some(k),
        decode_record(rec, t.types()) is Some,
        !(key_in(rec, t.types(), k as int) is Null),
        forall|j: int|
            0 <= j < t.rows().len() ==> value_order(
                #[trigger] key_in(t.rows()[j], t.types(), k as int),
                key_in(rec, t.types(), k as int),
            ) != Some(0int),
        p == position_for(t.rows(), t.types(), k as int, key_in(rec, t.types(), k as int), 0),
    ensures
        keys_ascending(t.rows().insert(p, rec), t.types(), k as int),
{
    let rows = t.rows();
    let types = t.types();
    let kk = k as int;
    let key = key_in(rec, types, kk);
    let new = rows.insert(p, rec);
    lemma_position_props(rows, types, kk, key, 0);
    if p < rows.len() {
        assert(t.entry_ok(p));
        assert(rows[p] == t.record_at(p));
        lemma_key_fits(rows[p], types, kk);
        lemma_key_fits(rec, types, kk);
        lemma_comparable(key_in(rows[p], types, kk), key, types[kk]);
        lemma_value_order_antisym(key_in(rows[p], types, kk), key);
    }
    assert forall|i: int| 0 <= i && i + 1 < new.len() implies #[trigger] ascending_at(new, types, kk, i) by {
        if i + 1 < p {
            assert(ascending_at(rows, types, kk, i));
        } else if i + 1 == p {
            assert(new[i] == rows[i]);
        } else if i == p {
            assert(new[i + 1] == rows[p]);
        } else {
            assert(ascending_at(rows, types, kk, i - 1));
            assert(new[i] == rows[i - 1]);
            assert(new[i + 1] == rows[i]);
        }
    }
}

/// Every element of a sequence with one element inserted is that element or
/// was there before.
proof fn lemma_insert_members(s: Seq<Seq<u8>>, p: int, r: Seq<u8>)
    requires
        0 <= p <= s.len(),
    ensures
        forall|x: Seq<u8>| s.insert(p, r).contains(x) ==> x == r || s.contains(x),
{
    assert forall|x: Seq<u8>| s.insert(p, r).contains(x) implies x == r || s.contains(x) by {
        let m = choose|m: int| 0 <= m < s.insert(p, r).len() && s.insert(p, r)[m] == x;
        if m < p {
            assert(s[m] == x);
        } else if m > p {
            assert(s[m - 1] == x);
        }
    }
}

impl Table {
    /// Where a record with this key goes in the index: a binary search over
    /// the ascending keys.
    fn key_position(&self, key: &Value) -> (r: usize)
        requires
            self.wf(),
            self.primary_key is Some,
        ensures
            r as int == position_for(self.rows(), self.types(), self.primary_key->Some_0 as int, key@, 0),
            r <= self.index@.len(),
    {
        let ghost k: usize = self.primary_key->Some_0;
        let ghost rows = self.rows();
        let ghost types = self.types();
        let mut lo: usize = 0;
        let mut hi: usize = self.index.len();
        while lo < hi
            invariant
                self.wf(),
                self.primary_key == Some(k),
                rows == self.rows(),
                types == self.types(),
                0 <= lo <= hi <= self.index@.len(),
                forall|j: int| 0 <= j < lo ==> value_order(#[trigger] key_in(rows[j], types, k as int), key@) == Some(-1int),
                forall|j: int|
                    hi <= j < self.index@.len() ==> value_order(#[trigger] key_in(rows[j], types, k as int), key@) != Some(-1int),
            decreases hi - lo,
        {
            let mid = lo + (hi - lo) / 2;
            assert(self.entry_ok(mid as int));
            assert(rows[mid as int] == self.record_at(mid as int));
            let below = match &self.index[mid].key {
                Some(v) => match v.order(key) {
                    Some(o) => o == -1,
                    None => false,
                },
                None => false,
            };
            proof {
                let km = key_in(rows[mid as int], types, k as int);
                if below {
                    assert forall|j: int| 0 <= j < mid + 1 implies value_order(
                        #[trigger] key_in(rows[j], types, k as int),
                        key@,
                    ) == Some(-1int) by {
                        if lo <= j < mid {
                            lemma_ascending_pair(rows, types, k as int, j, mid as int);
                            lemma_value_order_trans(key_in(rows[j], types, k as int), km, key@);
                        }
                    }
                } else {
                    assert forall|j: int| mid <= j < self.index@.len() implies value_order(
                        #[trigger] key_in(rows[j], types, k as int),
                        key@,
                    ) != Some(-1int) by {
                        if mid < j < hi && value_order(key_in(rows[j], types, k as int), key@) == Some(-1int) {
                            lemma_ascending_pair(rows, types, k as int, mid as int, j);
                            lemma_value_order_trans(km, key_in(rows[j], types, k as int), key@);
                        }
                    }
                }
            }
            if below {
                lo = mid + 1;
            } else {
                hi = mid;
            }
        }
        proof {
            lemma_position_at(rows, types, k as int, key@, 0, lo as int);
        }
        lo
    }

    /// Whether a stored row has this key: it can only be the row where a
    /// record with the key would go.
    fn has_key(&self, key: &Value) -> (r: bool)
        requires
            self.wf(),
            self.primary_key is Some,
        ensures
            r == exists|j: int|
                0 <= j < self.rows().len() && value_order(
                    #[trigger] key_in(self.rows()[j], self.types(), self.primary_key->Some_0 as int),
                    key@,
                ) == Some(0int),
    {
        let ghost k: usize = self.primary_key->Some_0;
        let ghost rows = self.rows();
        let ghost types = self.types();
        let p = self.key_position(key);
        proof {
            lemma_position_props(rows, types, k as int, key@, 0);
        }
        if p == self.index.len() {
            proof {
                assert forall|j: int| 0 <= j < rows.len() implies value_order(
                    #[trigger] key_in(rows[j], types, k as int),
                    key@,
                ) != Some(0int) by {}
            }
            return false;
        }
        assert(self.entry_ok(p as int));
        assert(rows[p as int] == self.record_at(p as int));
        let found = match &self.index[p].key {
            Some(v) => match v.order(key) {
                Some(o) => o == 0,
                None => false,
            },
            None => false,
        };
        proof {
            if !found {
                assert forall|j: int| 0 <= j < rows.len() implies value_order(
                    #[trigger] key_in(rows[j], types, k as int),
                    key@,
                ) != Some(0int) by {
                    if p < j && value_order(key_in(rows[j], types, k as int), key@) == Some(0int) {
                        lemma_value_order_zero(key_in(rows[j], types, k as int), key@);
                        lemma_ascending_pair(rows, types, k as int, p as int, j);
                    }
                }
            }
        }
        found
    }

    /// Writes one record to the tail page, or to a new page where the tail
    /// lacks room, and indexes it.
    fn store(&mut self, rec: Vec<u8>, key: Option<Value>)
        requires
            old(self).wf(),
            decode_record(rec@, old(self).types()) is Some,
            rec@.len() <= PAGE_CAPACITY,
            match old(self).primary_key {
                None => key is None,
                Some(k) => key matches Some(v) && v@ == key_in(rec@, old(self).types(), k as int),
            },
            old(self).primary_key matches Some(k) ==> {
                &&& !(key_in(rec@, old(self).types(), k as int) is Null)
                &&& forall|j: int|
                    0 <= j < old(self).rows().len() ==> value_order(
                        #[trigger] key_in(old(self).rows()[j], old(self).types(), k as int),
                        key_in(rec@, old(self).types(), k as int),
                    ) != Some(0int)
            },
        ensures
            final(self).wf(),
            final(self).same_schema(*old(self)),
            final(self).rows() == rows_after(old(self).rows(), old(self).types(), old(self).primary_key, rec@),
    {
        let ghost before = *self;
        let pos: usize = match &key {
            Some(v) => self.key_position(v),
            None => self.index.len(),
        };
        let len = rec.len();
        let np = self.pages.len();
        let fits_tail = np > 0 && len <= PAGE_CAPACITY - self.pages[np - 1].used;
        let page_no: usize;
        let slot: usize;
        let ghost rv = rec@;
        let ghost rvec = rec;
        if fits_tail {
            let mut page = self.pages.pop().unwrap();
            slot = page.records.len();
            page.records.push(rec);
            page.used = page.used + len;
            self.pages.push(page);
            page_no = np - 1;
            assert(self.pages@ == before.pages@.update(np - 1, page));
        } else {
            let mut records: Vec<Vec<u8>> = Vec::new();
            records.push(rec);
            self.pages.push(Page { records, used: len });
            page_no = np;
            slot = 0;
        }
        assert forall|p: int, q: int|
            0 <= p < before.pages@.len() && 0 <= q < before.pages@[p].records@.len() implies
                #[trigger] self.pages@[p].records@[q] == before.pages@[p].records@[q] by {
            if fits_tail && p == np - 1 {
                assert(self.pages@[p].records@ == before.pages@[p].records@.push(rvec));
            } else {
                assert(self.pages@[p] == before.pages@[p]);
            }
        }
        assert forall|i: int| 0 <= i < before.index@.len() implies before.record_at(i) == (Table {
            pages: self.pages,
            ..before
        }).record_at(i) by {
            assert(before.entry_ok(i));
        }
        let ghost mid = *self;
        self.index.insert(pos, IndexEntry { key, page: page_no, slot });
        proof {
            let t = *self;
            assert(t.pages == mid.pages);
            assert(t.record_at(pos as int) == rv);
            assert forall|i: int| 0 <= i < t.index@.len() implies #[trigger] t.entry_ok(i) by {
                if i < pos {
                    assert(t.index@[i] == before.index@[i]);
                    assert(before.entry_ok(i));
                } else if i > pos {
                    assert(t.index@[i] == before.index@[i - 1]);
                    assert(before.entry_ok(i - 1));
                }
            }
            assert forall|p: int| 0 <= p < t.pages@.len() implies (#[trigger] t.pages@[p]).used <= PAGE_CAPACITY by {
                if p < before.pages@.len() && p != page_no {
                    assert(t.pages@[p] == before.pages@[p]);
                }
            }
        }
        assert(self.rows() =~= before.rows().insert(pos as int, rv));
        assert(before.rows().insert(before.rows().len() as int, rv) =~= before.rows().push(rv));
        proof {
            if let Some(k) = before.primary_key {
                lemma_ascending_after_insert(before, rv, k, pos as int);
            }
        }
    }
}


fn copy_key(key: &Option<Value>) -> (r: Option<Value>)
    ensures
        r == *key,
{
    match key {
        Some(v) => Some(v.duplicate()),
        None => None,
    }
}

impl Table {
    /// Stores a batch of encoded records, all or none. Fails with a decode
    /// error where a record does not decode against the schema, then with
    /// `PageOutOfBounds` where one is larger than a page, then, under a
    /// primary key, with `InvalidKey` where a key is null or already taken.
    pub fn insert_records(&mut self, recs: &Vec<Vec<u8>>) -> (r: Result<(), Error>)
        requires
            old(self).wf(),
        ensures
            final(self).wf(),
            final(self).same_schema(*old(self)),
            r is Ok <==> insert_accepts(old(self).rows(), old(self).types(), old(self).primary_key, record_views(recs@)),
            r is Ok ==> final(self).rows() == rows_after_all(
                old(self).rows(),
                old(self).types(),
                old(self).primary_key,
                record_views(recs@),
            ),
            r is Err ==> *final(self) == *old(self),
            r matches Err(e) ==> (e is MiscDecodeError <==> !all_decode(record_views(recs@), old(self).types())),
            r matches Err(e) ==> (e is PageOutOfBounds <==> (all_decode(record_views(recs@), old(self).types())
                && !all_fit(record_views(recs@)))),
            r matches Err(e) ==> (e is MiscDecodeError || e is PageOutOfBounds || e is InvalidKey),
    {
        let ghost rs = record_views(recs@);
        let ghost t0 = *self;
        let ghost types = self.types();
        let mut keys: Vec<Option<Value>> = Vec::new();
        let mut i: usize = 0;
        while i < recs.len()
            invariant
                *self == t0,
                t0.wf(),
                types == t0.types(),
                rs == record_views(recs@),
                i <= recs@.len(),
                keys@.len() == i,
                forall|j: int| 0 <= j < i ==> (#[trigger] decode_record(rs[j], types)) is Some,
                forall|j: int|
                    0 <= j < i ==> match t0.primary_key {
                        None => (#[trigger] keys@[j]) is None,
                        Some(k) => keys@[j] matches Some(v) && v@ == key_in(rs[j], types, k as int),
                    },
            decreases recs@.len() - i,
        {
            match decode_record_exec(&recs[i], &self.column_types) {
                None => {
                    assert(decode_record(rs[i as int], types) is None);
                    return Err(Error::MiscDecodeError);
                },
                Some(vals) => {
                    proof {
                        lemma_decode_len(rs[i as int], types, 0, 0);
                    }
                    let key = match self.primary_key {
                        Some(k) => Some(vals[k].duplicate()),
                        None => None,
                    };
                    keys.push(key);
                },
            }
            i += 1;
        }
        assert(all_decode(rs, types));
        let mut i: usize = 0;
        while i < recs.len()
            invariant
                *self == t0,
                t0.wf(),
                types == t0.types(),
                all_decode(rs, types),
                rs == record_views(recs@),
                i <= recs@.len(),
                forall|j: int| 0 <= j < i ==> (#[trigger] rs[j].len()) <= PAGE_CAPACITY,
            decreases recs@.len() - i,
        {
            if recs[i].len() > PAGE_CAPACITY {
                assert(rs[i as int].len() > PAGE_CAPACITY);
                return Err(Error::PageOutOfBounds);
            }
            i += 1;
        }
        assert(all_fit(rs));
        match self.primary_key {
            Some(k) => {
                let mut i: usize = 0;
                while i < keys.len()
                    invariant
                        *self == t0,
                        t0.wf(),
                        t0.primary_key == Some(k),
                        types == t0.types(),
                        rs == record_views(recs@),
                        all_decode(rs, types),
                        all_fit(rs),
                        keys@.len() == rs.len(),
                        i <= keys@.len(),
                        forall|j: int|
                            0 <= j < keys@.len() ==> ((#[trigger] keys@[j]) matches Some(v) && v@ == key_in(
                                rs[j],
                                types,
                                k as int,
                            )),
                        forall|j: int| 0 <= j < i ==> !(#[trigger] key_in(rs[j], types, k as int) is Null),
                        forall|a: int, j: int|
                            0 <= a < i && 0 <= j < t0.rows().len() ==> value_order(
                                #[trigger] key_in(t0.rows()[j], types, k as int),
                                #[trigger] key_in(rs[a], types, k as int),
                            ) != Some(0int),
                        forall|a: int, b: int|
                            0 <= a < b < i ==> value_order(
                                #[trigger] key_in(rs[a], types, k as int),
                                #[trigger] key_in(rs[b], types, k as int),
                            ) != Some(0int),
                    decreases keys@.len() - i,
                {
                    assert(keys@[i as int] matches Some(v) && v@ == key_in(rs[i as int], types, k as int));
                    let v = match &keys[i] {
                        Some(v) => v,
                        None => {
                            return Err(Error::InvalidKey);
                        },
                    };
                    if let Value::Null = v {
                        assert(key_in(rs[i as int], types, k as int) is Null);
                        assert(!keys_fresh(t0.rows(), rs, types, k as int));
                        return Err(Error::InvalidKey);
                    }
                    if self.has_key(v) {
                        let ghost j = choose|j: int|
                            0 <= j < t0.rows().len() && value_order(
                                #[trigger] key_in(t0.rows()[j], types, k as int),
                                v@,
                            ) == Some(0int);
                        assert(value_order(key_in(t0.rows()[j], types, k as int), key_in(rs[i as int], types, k as int)) == Some(0int));
                        assert(!keys_fresh(t0.rows(), rs, types, k as int));
                        return Err(Error::InvalidKey);
                    }
                    let mut m: usize = 0;
                    while m < i
                        invariant
                            *self == t0,
                            t0.wf(),
                            t0.primary_key == Some(k),
                            types == t0.types(),
                            rs == record_views(recs@),
                            all_decode(rs, types),
                            all_fit(rs),
                            i < keys@.len(),
                            m <= i,
                            keys@.len() == rs.len(),
                            forall|j: int|
                                0 <= j < keys@.len() ==> ((#[trigger] keys@[j]) matches Some(w) && w@ == key_in(
                                    rs[j],
                                    types,
                                    k as int,
                                )),
                            v@ == key_in(rs[i as int], types, k as int),
                            forall|a: int|
                                0 <= a < m ==> value_order(
                                    #[trigger] key_in(rs[a], types, k as int),
                                    key_in(rs[i as int], types, k as int),
                                ) != Some(0int),
                        decreases i - m,
                    {
                        assert(keys@[m as int] matches Some(w) && w@ == key_in(rs[m as int], types, k as int));
                        match &keys[m] {
                            Some(w) => match w.order(v) {
                                Some(o) => {
                                    if o == 0 {
                                        assert(value_order(key_in(rs[m as int], types, k as int), key_in(rs[i as int], types, k as int)) == Some(0int));
                                        assert(!keys_fresh(t0.rows(), rs, types, k as int));
                                        return Err(Error::InvalidKey);
                                    }
                                },
                                None => {},
                            },
                            None => {},
                        }
                        m += 1;
                    }
                    i += 1;
                }
            },
            None => {},
        }
        assert(insert_accepts(t0.rows(), types, t0.primary_key, rs));
        assert(rs.take(0) =~= Seq::<Seq<u8>>::empty());
        let mut i: usize = 0;
        while i < recs.len()
            invariant
                self.wf(),
                self.same_schema(t0),
                types == t0.types(),
                rs == record_views(recs@),
                keys@.len() == rs.len(),
                i <= recs@.len(),
                all_decode(rs, types),
                all_fit(rs),
                forall|j: int|
                    0 <= j < keys@.len() ==> match t0.primary_key {
                        None => (#[trigger] keys@[j]) is None,
                        Some(k) => keys@[j] matches Some(v) && v@ == key_in(rs[j], types, k as int),
                    },
                self.rows() == rows_after_all(t0.rows(), types, t0.primary_key, rs.take(i as int)),
                insert_accepts(t0.rows(), types, t0.primary_key, rs),
                forall|x: Seq<u8>|
                    #[trigger] self.rows().contains(x) ==> t0.rows().contains(x) || rs.take(i as int).contains(x),
            decreases recs@.len() - i,
        {
            assert(decode_record(rs[i as int], types) is Some);
            assert(rs[i as int].len() <= PAGE_CAPACITY);
            let ghost cur = self.rows();
            proof {
                if let Some(k) = t0.primary_key {
                    let kk = k as int;
                    assert forall|j: int| 0 <= j < cur.len() implies value_order(
                        #[trigger] key_in(cur[j], types, kk),
                        key_in(rs[i as int], types, kk),
                    ) != Some(0int) by {
                        assert(cur.contains(cur[j]));
                        if t0.rows().contains(cur[j]) {
                            let a = choose|a: int| 0 <= a < t0.rows().len() && t0.rows()[a] == cur[j];
                            assert(value_order(key_in(t0.rows()[a], types, kk), key_in(rs[i as int], types, kk)) != Some(0int));
                        } else {
                            let b = choose|b: int| 0 <= b < rs.take(i as int).len() && rs.take(i as int)[b] == cur[j];
                            assert(rs.take(i as int)[b] == rs[b]);
                            assert(value_order(key_in(rs[b], types, kk), key_in(rs[i as int], types, kk)) != Some(0int));
                        }
                    }
                    assert(!(key_in(rs[i as int], types, kk) is Null));
                }
            }
            let rec = copy_bytes(&recs[i]);
            let key = copy_key(&keys[i]);
            self.store(rec, key);
            proof {
                let r = rs[i as int];
                let p = match t0.primary_key {
                    Some(k) => position_for(cur, types, k as int, key_in(r, types, k as int), 0),
                    None => cur.len() as int,
                };
                match t0.primary_key {
                    Some(k) => lemma_position_props(cur, types, k as int, key_in(r, types, k as int), 0),
                    None => assert(cur.push(r) =~= cur.insert(cur.len() as int, r)),
                }
                lemma_insert_members(cur, p, r);
                assert(self.rows() == cur.insert(p, r));
                assert(rs.take(i + 1) =~= rs.take(i as int).push(r));
                assert forall|x: Seq<u8>| #[trigger] self.rows().contains(x) implies t0.rows().contains(x)
                    || rs.take(i + 1).contains(x) by {
                    if x == r {
                        assert(rs.take(i + 1)[i as int] == r);
                    } else {
                        assert(cur.contains(x));
                        if rs.take(i as int).contains(x) {
                            let b = choose|b: int| 0 <= b < i && rs.take(i as int)[b] == x;
                            assert(rs.take(i + 1)[b] == x);
                        }
                    }
                }
            }
            assert(rs.take(i + 1).drop_last() =~= rs.take(i as int));
            assert(rs.take(i + 1).last() == rs[i as int]);
            i += 1;
        }
        assert(rs.take(i as int) =~= rs);
        Ok(())
    }

    /// The rows of the table in scan order, decoded and labelled with the
    /// column names; under a filter, only those for which it holds.
    pub fn scan(&self, filter: &Option<Cmp>) -> (r: Vec<LabeledTypedTuple>)
        requires
            self.wf(),
        ensures
            rows_values(r@) == select_rows(self.rows(), self.types(), self.names(), *filter),
            forall|i: int| 0 <= i < r@.len() ==> labels_of((#[trigger] r@[i]).0@) == self.names(),
    {
        let mut out: Vec<LabeledTypedTuple> = Vec::new();
        let mut i: usize = 0;
        while i < self.index.len()
            invariant
                self.wf(),
                i <= self.index@.len(),
                rows_values(out@) == select_rows(self.rows().take(i as int), self.types(), self.names(), *filter),
                forall|j: int| 0 <= j < out@.len() ==> labels_of((#[trigger] out@[j]).0@) == self.names(),
            decreases self.index@.len() - i,
        {
            assert(self.entry_ok(i as int));
            let entry = &self.index[i];
            let ghost rec = self.rows()[i as int];
            assert(self.rows().take(i + 1).drop_last() =~= self.rows().take(i as int));
            assert(self.rows().take(i + 1).last() == rec);
            match decode_record_exec(&self.pages[entry.page].records[entry.slot], &self.column_types) {
                Some(vals) => {
                    proof {
                        lemma_decode_len(rec, self.types(), 0, 0);
                    }
                    let tup = labelled(&self.column_names, &vals);
                    let keep = match filter {
                        Some(c) => c.has_value(&tup, self.column_names.as_slice()),
                        None => true,
                    };
                    let ghost prev = out@;
                    if keep {
                        out.push(tup);
                        assert(rows_values(out@) =~= rows_values(prev).push(values_of(tup.0@)));
                    }
                },
                None => {},
            }
            i += 1;
        }
        assert(self.rows().take(i as int) =~= self.rows());
        out
    }
}


/// A scan without a filter decodes every row, in order.
proof fn lemma_select_all(rows: Seq<Seq<u8>>, types: Seq<ColType>, names: Seq<Seq<char>>)
    ensures
        select_rows(rows, types, names, None) == rows.map_values(
            |r: Seq<u8>| decode_record(r, types)->Some_0,
        ),
    decreases rows.len(),
{
    if rows.len() > 0 {
        lemma_select_all(rows.drop_last(), types, names);
        assert(rows.map_values(|r: Seq<u8>| decode_record(r, types)->Some_0) =~= rows.drop_last().map_values(
            |r: Seq<u8>| decode_record(r, types)->Some_0,
        ).push(decode_record(rows.last(), types)->Some_0));
    } else {
        assert(rows.map_values(|r: Seq<u8>| decode_record(r, types)->Some_0) =~= Seq::empty());
    }
}

/// Storing one record puts it among the rows, at the end without a
/// primary key and in its key's place with one.
proof fn lemma_stored_row(rows: Seq<Seq<u8>>, types: Seq<ColType>, pk: Option<usize>, rec: Seq<u8>)
    ensures
        rows_after_all(rows, types, pk, seq![rec]).len() == rows.len() + 1,
        exists|p: int|
            0 <= p <= rows.len() && rows_after_all(rows, types, pk, seq![rec]) == rows.insert(p, rec),
{
    assert(seq![rec].drop_last() =~= Seq::<Seq<u8>>::empty());
    assert(rows_after_all(rows, types, pk, Seq::<Seq<u8>>::empty()) == rows);
    assert(seq![rec].last() == rec);
    assert(rows_after_all(rows, types, pk, seq![rec]) == rows_after(rows, types, pk, rec));
    match pk {
        Some(k) => {
            lemma_position_props(rows, types, k as int, key_in(rec, types, k as int), 0);
            let p = position_for(rows, types, k as int, key_in(rec, types, k as int), 0);
            assert(rows_after_all(rows, types, pk, seq![rec]) == rows.insert(p, rec));
        },
        None => {
            assert(rows.push(rec) =~= rows.insert(rows.len() as int, rec));
        },
    }
}

/// Once a record is stored, a scan without a filter returns its values;
/// from an empty table it returns exactly those values.
pub proof fn lemma_insert_then_select(
    rows: Seq<Seq<u8>>,
    types: Seq<ColType>,
    names: Seq<Seq<char>>,
    pk: Option<usize>,
    rec: Seq<u8>,
)
    requires
        insert_accepts(rows, types, pk, seq![rec]),
    ensures
        select_rows(rows_after_all(rows, types, pk, seq![rec]), types, names, None).contains(
            decode_record(rec, types)->Some_0,
        ),
        rows.len() == 0 ==> select_rows(rows_after_all(rows, types, pk, seq![rec]), types, names, None)
            == seq![decode_record(rec, types)->Some_0],
{
    lemma_stored_row(rows, types, pk, rec);
    let after = rows_after_all(rows, types, pk, seq![rec]);
    let p = choose|p: int| 0 <= p <= rows.len() && after == rows.insert(p, rec);
    lemma_select_all(after, types, names);
    let sel = select_rows(after, types, names, None);
    assert(after[p] == rec);
    assert(sel[p] == decode_record(rec, types)->Some_0);
    if rows.len() == 0 {
        assert(sel =~= seq![decode_record(rec, types)->Some_0]);
    }
}

/// After one record is stored under a primary key, a second record with
/// the same key is refused.
pub proof fn lemma_duplicate_key_rejected(
    rows: Seq<Seq<u8>>,
    types: Seq<ColType>,
    k: usize,
    first: Seq<u8>,
    second: Seq<u8>,
)
    requires
        insert_accepts(rows, types, Some(k), seq![first]),
        key_in(second, types, k as int) == key_in(first, types, k as int),
    ensures
        !insert_accepts(rows_after_all(rows, types, Some(k), seq![first]), types, Some(k), seq![second]),
{
    lemma_stored_row(rows, types, Some(k), first);
    let after = rows_after_all(rows, types, Some(k), seq![first]);
    let p = choose|p: int| 0 <= p <= rows.len() && after == rows.insert(p, first);
    assert(after[p] == first);
    let key = key_in(first, types, k as int);
    assert(!(key_in(seq![first][0], types, k as int) is Null));
    match key {
        ValueModel::Text(t) => lemma_text_order_antisym(t, t),
        _ => {},
    }
    assert(value_order(key, key) == Some(0int));
    assert(value_order(key_in(after[p], types, k as int), key_in(seq![second][0], types, k as int)) == Some(0int));
}

} // verus!
