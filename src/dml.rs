//! The data-manipulation commands. Insert and Select run against a
//! database's storage (see the engine); Project and Join work on rows that
//! the caller already holds.
use vstd::prelude::*;
use crate::error::Error;
use crate::predicate::Cmp;
use crate::value::{labels_of, names_view, values_of, LabeledTypedTuple, Value};

verus! {

/// The name of a database, unique within the engine.
#[derive(Clone, Debug)]
pub struct DbName(pub String);

/// The name of a table, unique within its database.
#[derive(Clone, Debug)]
pub struct TableName(pub String);

/// A request that encoded records be inserted into a table.
#[derive(Debug)]
pub struct Insert {
    pub db_name: DbName,
    pub table_name: TableName,
    pub values: Vec<Vec<u8>>,
}

/// A request that the rows of a table be retrieved, optionally filtered.
#[derive(Debug)]
pub struct Select {
    pub db_name: DbName,
    pub table_name: TableName,
    pub filter: Option<Cmp>,
}

/// A request that specific columns of some rows be retrieved.
#[derive(Debug)]
pub struct Project {
    pub input: Vec<LabeledTypedTuple>,
    pub columns: Vec<String>,
}

/// A request that two collections of rows be combined where a condition holds.
#[derive(Debug)]
pub struct Join {
    pub input_1: Vec<LabeledTypedTuple>,
    pub input_2: Vec<LabeledTypedTuple>,
    pub cond: Cmp,
}

/// The first position at or after `i` whose label is `n`.
pub open spec fn label_position(cells: Seq<(String, Value)>, n: Seq<char>, i: int) -> Option<int>
    decreases cells.len() - i,
{
    if i >= cells.len() {
        None
    } else if cells[i].0@ == n {
        Some(i)
    } else {
        label_position(cells, n, i + 1)
    }
}

/// Every requested column is a label of the row.
pub open spec fn has_columns(cells: Seq<(String, Value)>, columns: Seq<String>) -> bool {
    forall|k: int|
        0 <= k < columns.len() ==> (#[trigger] label_position(cells, columns[k]@, 0)) is Some
}

/// The row cut down to the requested columns, in the requested order; each
/// column is the first cell of the row with that label.
pub open spec fn projected(cells: Seq<(String, Value)>, columns: Seq<String>) -> Seq<(String, Value)> {
    Seq::new(columns.len(), |k: int| cells[label_position(cells, columns[k]@, 0)->Some_0])
}

/// The labels of a row's cells, as a name list for the predicate evaluator.
pub open spec fn names_of(cells: Seq<(String, Value)>) -> Seq<String> {
    cells.map_values(|p: (String, Value)| p.0)
}

/// The rows that `t` forms with each row of `r` in turn, kept where `cond`
/// holds under the combined row's own labels.
pub open spec fn join_one(t: Seq<(String, Value)>, r: Seq<LabeledTypedTuple>, cond: Cmp) -> Seq<
    Seq<(String, Value)>,
>
    decreases r.len(),
{
    if r.len() == 0 {
        Seq::empty()
    } else {
        let both = t + r.last().0@;
        join_one(t, r.drop_last(), cond) + if cond.holds(values_of(both), labels_of(both)) {
            seq![both]
        } else {
            Seq::empty()
        }
    }
}

/// The nested-loop join of `l` and `r` under `cond`, `l` in the outer loop.
pub open spec fn join_rows(l: Seq<LabeledTypedTuple>, r: Seq<LabeledTypedTuple>, cond: Cmp) -> Seq<
    Seq<(String, Value)>,
>
    decreases l.len(),
{
    if l.len() == 0 {
        Seq::empty()
    } else {
        join_rows(l.drop_last(), r, cond) + join_one(l.last().0@, r, cond)
    }
}

/// The cells of each row.
pub open spec fn rows_cells(rows: Seq<LabeledTypedTuple>) -> Seq<Seq<(String, Value)>> {
    rows.map_values(|t: LabeledTypedTuple| t.0@)
}

/// The labels of a row, copied out as a name list.
pub fn label_names(tup: &LabeledTypedTuple) -> (r: Vec<String>)
    ensures
        r@ == names_of(tup.0@),
{
    let mut out: Vec<String> = Vec::new();
    let mut k: usize = 0;
    while k < tup.0.len()
        invariant
            k <= tup.0@.len(),
            out@ == names_of(tup.0@.take(k as int)),
        decreases tup.0@.len() - k,
    {
        out.push(tup.0[k].0.clone());
        assert(names_of(tup.0@.take(k + 1)) =~= names_of(tup.0@.take(k as int)).push(tup.0@[k as int].0));
        k += 1;
    }
    assert(tup.0@.take(k as int) =~= tup.0@);
    out
}

fn find_label(cells: &Vec<(String, Value)>, n: &String) -> (r: Option<usize>)
    ensures
        r matches Some(i) ==> label_position(cells@, n@, 0) == Some(i as int) && i < cells@.len(),
        r is None ==> label_position(cells@, n@, 0) is None,
{
    let mut i: usize = 0;
    while i < cells.len()
        invariant
            i <= cells@.len(),
            label_position(cells@, n@, 0) == label_position(cells@, n@, i as int),
        decreases cells@.len() - i,
    {
        if cells[i].0 == *n {
            return Some(i);
        }
        i += 1;
    }
    None
}

fn project_row(tup: &LabeledTypedTuple, columns: &Vec<String>) -> (r: Option<LabeledTypedTuple>)
    ensures
        r is Some <==> has_columns(tup.0@, columns@),
        r matches Some(t) ==> t.0@ == projected(tup.0@, columns@),
{
    let mut out: Vec<(String, Value)> = Vec::new();
    let mut k: usize = 0;
    while k < columns.len()
        invariant
            k <= columns@.len(),
            forall|j: int| 0 <= j < k ==> (#[trigger] label_position(tup.0@, columns@[j]@, 0)) is Some,
            out@ == projected(tup.0@, columns@.take(k as int)),
        decreases columns@.len() - k,
    {
        match find_label(&tup.0, &columns[k]) {
            Some(i) => {
                let cell = (tup.0[i].0.clone(), tup.0[i].1.duplicate());
                out.push(cell);
                assert(projected(tup.0@, columns@.take(k + 1)) =~= projected(tup.0@, columns@.take(k as int)).push(cell));
            },
            None => {
                assert(label_position(tup.0@, columns@[k as int]@, 0) is None);
                return None;
            },
        }
        k += 1;
    }
    assert(columns@.take(k as int) =~= columns@);
    Some(LabeledTypedTuple(out))
}

impl Project {
    /// Cuts every input row down to the requested columns, in the requested
    /// order. Fails as a whole where some row lacks a requested column.
    pub fn run(&self) -> (r: Result<Vec<LabeledTypedTuple>, Error>)
        ensures
            r is Ok <==> forall|i: int|
                0 <= i < self.input@.len() ==> #[trigger] has_columns(self.input@[i].0@, self.columns@),
            r matches Ok(rows) ==> rows@.len() == self.input@.len() && forall|i: int|
                0 <= i < rows@.len() ==> #[trigger] rows@[i].0@ == projected(self.input@[i].0@, self.columns@),
            r matches Err(e) ==> e is MissingCatalogueEntry,
    {
        let mut rows: Vec<LabeledTypedTuple> = Vec::new();
        let mut i: usize = 0;
        while i < self.input.len()
            invariant
                i <= self.input@.len(),
                rows@.len() == i,
                forall|j: int| 0 <= j < i ==> #[trigger] has_columns(self.input@[j].0@, self.columns@),
                forall|j: int|
                    0 <= j < i ==> #[trigger] rows@[j].0@ == projected(self.input@[j].0@, self.columns@),
            decreases self.input@.len() - i,
        {
            match project_row(&self.input[i], &self.columns) {
                Some(t) => rows.push(t),
                None => return Err(Error::MissingCatalogueEntry),
            }
            i += 1;
        }
        Ok(rows)
    }
}

fn concat_cells(a: &LabeledTypedTuple, b: &LabeledTypedTuple) -> (r: LabeledTypedTuple)
    ensures
        r.0@ == a.0@ + b.0@,
{
    let mut left = a.duplicate();
    let mut right = b.duplicate();
    left.0.append(&mut right.0);
    left
}

impl Join {
    /// The nested-loop join: each row of `input_1` with each row of
    /// `input_2`, concatenated in that order, kept where `cond` holds under
    /// the concatenated labels (so `input_1`'s columns win a name collision).
    pub fn run(&self) -> (r: Result<Vec<LabeledTypedTuple>, Error>)
        ensures
            r matches Ok(rows) && rows_cells(rows@) == join_rows(self.input_1@, self.input_2@, self.cond),
    {
        let mut rows: Vec<LabeledTypedTuple> = Vec::new();
        let mut i: usize = 0;
        while i < self.input_1.len()
            invariant
                i <= self.input_1@.len(),
                rows_cells(rows@) == join_rows(self.input_1@.take(i as int), self.input_2@, self.cond),
            decreases self.input_1@.len() - i,
        {
            let ghost before = rows_cells(rows@);
            let mut j: usize = 0;
            while j < self.input_2.len()
                invariant
                    i < self.input_1@.len(),
                    j <= self.input_2@.len(),
                    rows_cells(rows@) == before + join_one(
                        self.input_1@[i as int].0@,
                        self.input_2@.take(j as int),
                        self.cond,
                    ),
                decreases self.input_2@.len() - j,
            {
                let both = concat_cells(&self.input_1[i], &self.input_2[j]);
                let names = label_names(&both);
                let keep = self.cond.has_value(&both, names.as_slice());
                assert(names_view(names@) =~= labels_of(both.0@));
                let ghost t = self.input_1@[i as int].0@;
                let ghost prev = rows@;
                assert(self.input_2@.take(j + 1).drop_last() =~= self.input_2@.take(j as int));
                assert(self.input_2@.take(j + 1).last() == self.input_2@[j as int]);
                assert(join_one(t, self.input_2@.take(j + 1), self.cond) == join_one(
                    t,
                    self.input_2@.take(j as int),
                    self.cond,
                ) + if self.cond.holds(values_of(both.0@), labels_of(both.0@)) {
                    seq![both.0@]
                } else {
                    Seq::empty()
                });
                if keep {
                    rows.push(both);
                    assert(rows_cells(rows@) =~= rows_cells(prev).push(both.0@));
                } else {
                    assert(rows_cells(rows@) =~= rows_cells(prev));
                }
                assert(rows_cells(rows@) =~= before + join_one(t, self.input_2@.take(j + 1), self.cond));
                j += 1;
            }
            assert(self.input_2@.take(j as int) =~= self.input_2@);
            assert(self.input_1@.take(i + 1).drop_last() =~= self.input_1@.take(i as int));
            i += 1;
        }
        assert(self.input_1@.take(i as int) =~= self.input_1@);
        Ok(rows)
    }
}

} // verus!
