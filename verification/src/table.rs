//! The in-memory columnar table: named, typed columns of equal length.

use vstd::prelude::*;
use crate::value::{Value, ValueV, ColType, cell_ok};
use crate::seqs::sum_ints;
use crate::errors::{Error, ErrorV};

verus! {

/// A column name together with its logical type.
#[derive(Debug)]
pub struct Field {
    pub name: String,
    pub ty: ColType,
}

impl View for Field {
    type V = (Seq<char>, ColType);

    open spec fn view(&self) -> (Seq<char>, ColType) {
        (self.name@, self.ty)
    }
}

impl DeepView for Field {
    type V = (Seq<char>, ColType);

    open spec fn deep_view(&self) -> (Seq<char>, ColType) {
        self@
    }
}

impl Field {
    pub fn duplicate(&self) -> (r: Field)
        ensures
            r@ == self@,
    {
        Field { name: self.name.clone(), ty: self.ty }
    }
}

/// One named, typed column: an ordered sequence of cells.
#[derive(Debug)]
pub struct Column {
    pub name: String,
    pub ty: ColType,
    pub cells: Vec<Value>,
}

/// Mathematical model of a column.
#[verifier::ext_equal]
pub ghost struct ColumnV {
    pub name: Seq<char>,
    pub ty: ColType,
    pub cells: Seq<ValueV>,
}

impl View for Column {
    type V = ColumnV;

    open spec fn view(&self) -> ColumnV {
        ColumnV { name: self.name@, ty: self.ty, cells: self.cells.deep_view() }
    }
}

impl DeepView for Column {
    type V = ColumnV;

    open spec fn deep_view(&self) -> ColumnV {
        self@
    }
}

/// An in-memory table: columns of equal length with pairwise distinct names.
/// `frags` records the storage fragmentation of the row range: how many rows
/// each contiguous fragment holds. Appending partitions appends fragments;
/// rechunking consolidates them into one.
#[derive(Debug)]
pub struct Table {
    pub cols: Vec<Column>,
    pub nrows: usize,
    pub frags: Vec<usize>,
}

/// Mathematical model of a table.
#[verifier::ext_equal]
pub ghost struct TableV {
    pub cols: Seq<ColumnV>,
    pub nrows: int,
    pub frags: Seq<int>,
}

impl View for Table {
    type V = TableV;

    open spec fn view(&self) -> TableV {
        TableV {
            cols: self.cols.deep_view(),
            nrows: self.nrows as int,
            frags: self.frags@.map_values(|x: usize| x as int),
        }
    }
}

impl DeepView for Table {
    type V = TableV;

    open spec fn deep_view(&self) -> TableV {
        self@
    }
}

impl TableV {
    /// Table well-formedness: every column has `nrows` cells of its own type,
    /// column names are pairwise distinct, and the fragment lengths cover the
    /// rows exactly.
    pub open spec fn wf(self) -> bool {
        &&& forall|c: int|
            0 <= c < self.cols.len() ==> (#[trigger] self.cols[c]).cells.len() == self.nrows
        &&& forall|c: int, d: int|
            0 <= c < d < self.cols.len() ==> self.cols[c].name != self.cols[d].name
        &&& forall|c: int, r: int|
            0 <= c < self.cols.len() && 0 <= r < self.nrows ==> cell_ok(
                self.cols[c].ty,
                #[trigger] self.cols[c].cells[r],
            )
        &&& sum_ints(self.frags) == self.nrows
        &&& forall|k: int| 0 <= k < self.frags.len() ==> 0 <= #[trigger] self.frags[k]
    }

    /// The name-and-type pairs of the columns, in column order.
    pub open spec fn schema(self) -> Seq<(Seq<char>, ColType)> {
        self.cols.map_values(|c: ColumnV| (c.name, c.ty))
    }

    /// Row `r` as the sequence of its cells in column order.
    pub open spec fn row(self, r: int) -> Seq<ValueV> {
        Seq::new(self.cols.len() as nat, |c: int| self.cols[c].cells[r])
    }

    /// All rows of the table, in order.
    pub open spec fn rows(self) -> Seq<Seq<ValueV>> {
        Seq::new(self.nrows as nat, |r: int| self.row(r))
    }
}

/// No two fields of the schema share a name.
pub open spec fn distinct_names(schema: Seq<(Seq<char>, ColType)>) -> bool {
    forall|a: int, b: int| 0 <= a < b < schema.len() ==> schema[a].0 != schema[b].0
}

/// Every row has one cell per schema field, of the field's type.
pub open spec fn rows_ok(schema: Seq<(Seq<char>, ColType)>, rows: Seq<Seq<ValueV>>) -> bool {
    &&& forall|r: int| 0 <= r < rows.len() ==> (#[trigger] rows[r]).len() == schema.len()
    &&& forall|r: int, c: int|
        0 <= r < rows.len() && 0 <= c < schema.len() ==> cell_ok(
            schema[c].1,
            #[trigger] rows[r][c],
        )
}

/// The table holding exactly the given rows under the given schema, stored as
/// one contiguous fragment.
pub open spec fn table_of(schema: Seq<(Seq<char>, ColType)>, rows: Seq<Seq<ValueV>>) -> TableV {
    TableV {
        cols: Seq::new(
            schema.len(),
            |c: int|
                ColumnV {
                    name: schema[c].0,
                    ty: schema[c].1,
                    cells: Seq::new(rows.len(), |r: int| rows[r][c]),
                },
        ),
        nrows: rows.len() as int,
        frags: seq![rows.len() as int],
    }
}

pub proof fn lemma_table_of(schema: Seq<(Seq<char>, ColType)>, rows: Seq<Seq<ValueV>>)
    requires
        distinct_names(schema),
        rows_ok(schema, rows),
    ensures
        table_of(schema, rows).wf(),
        table_of(schema, rows).schema() =~= schema,
        table_of(schema, rows).rows() =~~= rows,
        table_of(schema, rows).nrows == rows.len(),
{
    let t = table_of(schema, rows);
    assert(t.frags.drop_last() =~= Seq::<int>::empty());
    assert(sum_ints(Seq::<int>::empty()) == 0);
    assert(sum_ints(t.frags) == rows.len() as int);
    assert forall|r: int| 0 <= r < rows.len() implies t.rows()[r] =~= rows[r] by {
        assert(rows[r].len() == schema.len());
    }
}

/// First position of `name` in the schema, or -1 if absent.
pub open spec fn idx_of(schema: Seq<(Seq<char>, ColType)>, name: Seq<char>) -> int
    decreases schema.len(),
{
    if schema.len() == 0 {
        -1
    } else if schema[0].0 == name {
        0
    } else {
        let r = idx_of(schema.skip(1), name);
        if r < 0 {
            -1
        } else {
            r + 1
        }
    }
}

pub proof fn lemma_idx_of(schema: Seq<(Seq<char>, ColType)>, name: Seq<char>)
    ensures
        idx_of(schema, name) < 0 ==> forall|j: int|
            0 <= j < schema.len() ==> (#[trigger] schema[j]).0 != name,
        idx_of(schema, name) >= 0 ==> {
            &&& 0 <= idx_of(schema, name) < schema.len()
            &&& schema[idx_of(schema, name)].0 == name
            &&& forall|j: int| 0 <= j < idx_of(schema, name) ==> (#[trigger] schema[j]).0 != name
        },
    decreases schema.len(),
{
    if schema.len() > 0 && schema[0].0 != name {
        lemma_idx_of(schema.skip(1), name);
        assert forall|j: int| 1 <= j < schema.len() implies schema.skip(1)[j - 1] == schema[j] by {}
    }
}

/// A cell-for-cell copy of a vector of values.
pub fn clone_cells(src: &Vec<Value>) -> (out: Vec<Value>)
    ensures
        out.deep_view() == src.deep_view(),
        out@.len() == src@.len(),
{
    let mut out: Vec<Value> = Vec::new();
    let mut r: usize = 0;
    while r < src.len()
        invariant
            0 <= r <= src.len(),
            out@.len() == r,
            forall|i: int| 0 <= i < r ==> out@[i]@ == src@[i]@,
        decreases src.len() - r,
    {
        out.push(src[r].duplicate());
        r += 1;
    }
    assert forall|i: int| 0 <= i < out.deep_view().len() implies out.deep_view()[i]
        == src.deep_view()[i] by {
        assert(out@[i]@ == src@[i]@);
    }
    assert(out.deep_view() =~= src.deep_view());
    out
}

/// Append a cell-for-cell copy of `src` to `dst`.
pub fn append_cells(dst: &mut Vec<Value>, src: &Vec<Value>)
    ensures
        final(dst).deep_view() == old(dst).deep_view() + src.deep_view(),
        final(dst)@.len() == old(dst)@.len() + src@.len(),
{
    let base = dst.len();
    let mut r: usize = 0;
    while r < src.len()
        invariant
            0 <= r <= src.len(),
            base == old(dst)@.len(),
            dst@.len() == base + r,
            forall|i: int| 0 <= i < base ==> dst@[i] == old(dst)@[i],
            forall|i: int| 0 <= i < r ==> dst@[base + i]@ == src@[i]@,
        decreases src.len() - r,
    {
        dst.push(src[r].duplicate());
        r += 1;
    }
    assert forall|i: int| 0 <= i < dst.deep_view().len() implies dst.deep_view()[i] == (old(
        dst,
    ).deep_view() + src.deep_view())[i] by {
        if i < base {
            assert(dst@[i] == old(dst)@[i]);
        } else {
            assert(dst@[i]@ == src@[i - base]@);
        }
    }
    assert(dst.deep_view() =~= old(dst).deep_view() + src.deep_view());
}

impl Table {
    /// Well-formedness of the table (see [`TableV::wf`]).
    pub open spec fn wf(&self) -> bool {
        self@.wf()
    }

    /// Position of the column called `name`, if any.
    pub fn find_col(&self, name: &String) -> (r: Option<usize>)
        ensures
            match r {
                Some(i) => idx_of(self@.schema(), name@) == i as int,
                None => idx_of(self@.schema(), name@) < 0,
            },
    {
        let mut i: usize = 0;
        while i < self.cols.len()
            invariant
                0 <= i <= self.cols.len(),
                forall|j: int| 0 <= j < i ==> (#[trigger] self@.schema()[j]).0 != name@,
            decreases self.cols.len() - i,
        {
            if self.cols[i].name == *name {
                proof {
                    lemma_idx_of(self@.schema(), name@);
                    assert(self@.schema()[i as int].0 == name@);
                }
                return Some(i);
            }
            assert(self@.schema()[i as int].0 != name@);
            i += 1;
        }
        proof {
            lemma_idx_of(self@.schema(), name@);
        }
        None
    }

    /// Row `r` as a vector of cells in column order.
    pub fn get_row(&self, r: usize) -> (out: Vec<Value>)
        requires
            self.wf(),
            (r as int) < self@.nrows,
        ensures
            out.deep_view() == self@.row(r as int),
    {
        let mut out: Vec<Value> = Vec::new();
        let mut c: usize = 0;
        while c < self.cols.len()
            invariant
                self.wf(),
                (r as int) < self@.nrows,
                0 <= c <= self.cols.len(),
                out@.len() == c,
                forall|i: int| 0 <= i < c ==> out@[i]@ == self@.cols[i].cells[r as int],
            decreases self.cols.len() - c,
        {
            assert(self@.cols[c as int].cells.len() == self@.nrows);
            out.push(self.cols[c].cells[r].duplicate());
            c += 1;
        }
        assert forall|i: int| 0 <= i < out.deep_view().len() implies out.deep_view()[i]
            == self@.row(r as int)[i] by {
            assert(out@[i]@ == self@.cols[i].cells[r as int]);
        }
        assert(out.deep_view() =~= self@.row(r as int));
        out
    }

    /// The schema of the table as a vector of fields.
    pub fn schema_fields(&self) -> (out: Vec<Field>)
        ensures
            out.deep_view() == self@.schema(),
    {
        let mut out: Vec<Field> = Vec::new();
        let mut c: usize = 0;
        while c < self.cols.len()
            invariant
                0 <= c <= self.cols.len(),
                out@.len() == c,
                forall|i: int| 0 <= i < c ==> out@[i]@ == #[trigger] self@.schema()[i],
            decreases self.cols.len() - c,
        {
            out.push(Field { name: self.cols[c].name.clone(), ty: self.cols[c].ty });
            c += 1;
        }
        assert forall|i: int| 0 <= i < out.deep_view().len() implies out.deep_view()[i]
            == self@.schema()[i] by {
            assert(out@[i]@ == self@.schema()[i]);
        }
        assert(out.deep_view() =~= self@.schema());
        out
    }

    /// A copy of the table with the same model.
    pub fn duplicate(&self) -> (r: Table)
        ensures
            r@ == self@,
    {
        let mut cols: Vec<Column> = Vec::new();
        let mut c: usize = 0;
        while c < self.cols.len()
            invariant
                0 <= c <= self.cols.len(),
                cols@.len() == c,
                forall|i: int| 0 <= i < c ==> cols@[i]@ == self@.cols[i],
            decreases self.cols.len() - c,
        {
            let src = &self.cols[c];
            let cells = clone_cells(&src.cells);
            cols.push(Column { name: src.name.clone(), ty: src.ty, cells });
            c += 1;
        }
        let mut frags: Vec<usize> = Vec::new();
        let mut k: usize = 0;
        while k < self.frags.len()
            invariant
                0 <= k <= self.frags.len(),
                frags@.len() == k,
                forall|i: int| 0 <= i < k ==> frags@[i] == self.frags@[i],
            decreases self.frags.len() - k,
        {
            frags.push(self.frags[k]);
            k += 1;
        }
        let r = Table { cols, nrows: self.nrows, frags };
        proof {
            assert forall|i: int| 0 <= i < cols.deep_view().len() implies cols.deep_view()[i]
                == self@.cols[i] by {
                assert(cols@[i]@ == self@.cols[i]);
            }
            assert(cols.deep_view() =~= self@.cols);
            assert(frags@ =~= self.frags@);
            assert(r@ =~~= self@);
        }
        r
    }

    /// Consolidate the row storage into one contiguous fragment. The content
    /// of the table — row count, column names, column types, every cell — is
    /// unchanged; only the storage layout is.
    pub fn rechunk(&self) -> (r: Table)
        requires
            self.wf(),
        ensures
            r.wf(),
            r@.cols == self@.cols,
            r@.nrows == self@.nrows,
            r@.frags =~= seq![self@.nrows],
    {
        let dup = self.duplicate();
        let mut frags: Vec<usize> = Vec::new();
        frags.push(self.nrows);
        let r = Table { cols: dup.cols, nrows: dup.nrows, frags };
        proof {
            assert(r@.frags =~= seq![self@.nrows]);
            assert(r@.frags.drop_last() =~= Seq::<int>::empty());
            assert(sum_ints(Seq::<int>::empty()) == 0);
            assert(sum_ints(r@.frags) == self@.nrows);
        }
        r
    }

    /// Append the rows of `other` below the rows of `self`. Succeeds exactly
    /// when the two schemas (names and types, in order) are equal and the
    /// combined row count fits the machine; the result keeps the fragments of
    /// both inputs, in order.
    pub fn vstack(&self, other: &Table) -> (r: Result<Table, Error>)
        requires
            self.wf(),
            other.wf(),
        ensures
            match r {
                Ok(t) => {
                    &&& self@.schema() == other@.schema()
                    &&& self@.nrows + other@.nrows <= usize::MAX
                    &&& t.wf()
                    &&& t@.nrows == self@.nrows + other@.nrows
                    &&& t@.frags =~= self@.frags + other@.frags
                    &&& t@.cols.len() == self@.cols.len()
                    &&& forall|c: int|
                        0 <= c < t@.cols.len() ==> (#[trigger] t@.cols[c]).name
                            == self@.cols[c].name && t@.cols[c].ty == self@.cols[c].ty
                            && t@.cols[c].cells == self@.cols[c].cells + other@.cols[c].cells
                },
                Err(e) => {
                    &&& (e@ == ErrorV::SchemaMismatch || e@ == ErrorV::Overflow)
                    &&& e@ == ErrorV::SchemaMismatch ==> self@.schema() != other@.schema()
                    &&& e@ == ErrorV::Overflow ==> self@.schema() == other@.schema()
                        && self@.nrows + other@.nrows > usize::MAX
                },
            },
    {
        if self.cols.len() != other.cols.len() {
            proof {
                assert(self@.schema().len() != other@.schema().len());
            }
            return Err(Error::SchemaMismatch);
        }
        let mut c: usize = 0;
        while c < self.cols.len()
            invariant
                self.wf(),
                other.wf(),
                self.cols.len() == other.cols.len(),
                0 <= c <= self.cols.len(),
                forall|j: int| 0 <= j < c ==> #[trigger] self@.schema()[j] == other@.schema()[j],
            decreases self.cols.len() - c,
        {
            let sc = &self.cols[c];
            let oc = &other.cols[c];
            if !(sc.name == oc.name) || sc.ty != oc.ty {
                proof {
                    assert(self@.schema()[c as int] != other@.schema()[c as int]);
                }
                return Err(Error::SchemaMismatch);
            }
            assert(self@.schema()[c as int] == other@.schema()[c as int]);
            c += 1;
        }
        proof {
            assert(self@.schema() =~= other@.schema());
        }
        let total = match self.nrows.checked_add(other.nrows) {
            Some(n) => n,
            None => {
                return Err(Error::Overflow);
            },
        };
        let mut cols: Vec<Column> = Vec::new();
        let mut c: usize = 0;
        while c < self.cols.len()
            invariant
                self.wf(),
                other.wf(),
                self.cols.len() == other.cols.len(),
                0 <= c <= self.cols.len(),
                cols@.len() == c,
                forall|j: int|
                    0 <= j < c ==> (#[trigger] cols@[j]@).name == self@.cols[j].name
                        && cols@[j]@.ty == self@.cols[j].ty && cols@[j]@.cells == self@.cols[j].cells
                        + other@.cols[j].cells,
            decreases self.cols.len() - c,
        {
            let sc = &self.cols[c];
            let oc = &other.cols[c];
            let mut cells = clone_cells(&sc.cells);
            append_cells(&mut cells, &oc.cells);
            cols.push(Column { name: sc.name.clone(), ty: sc.ty, cells });
            c += 1;
        }
        let mut frags: Vec<usize> = Vec::new();
        let mut k: usize = 0;
        while k < self.frags.len()
            invariant
                0 <= k <= self.frags.len(),
                frags@.len() == k,
                forall|i: int| 0 <= i < k ==> frags@[i] == self.frags@[i],
            decreases self.frags.len() - k,
        {
            frags.push(self.frags[k]);
            k += 1;
        }
        let mut k: usize = 0;
        while k < other.frags.len()
            invariant
                0 <= k <= other.frags.len(),
                frags@.len() == self.frags@.len() + k,
                forall|i: int| 0 <= i < self.frags@.len() ==> frags@[i] == self.frags@[i],
                forall|i: int|
                    0 <= i < k ==> frags@[self.frags@.len() + i] == other.frags@[i],
            decreases other.frags.len() - k,
        {
            frags.push(other.frags[k]);
            k += 1;
        }
        assert(frags@ =~= self.frags@ + other.frags@);
        let t = Table { cols, nrows: total, frags };
        proof {
            assert forall|i: int| 0 <= i < t@.frags.len() implies t@.frags[i] == (self@.frags
                + other@.frags)[i] by {}
            assert(t@.frags =~= self@.frags + other@.frags);
            lemma_sum_concat(self@.frags, other@.frags);
            assert forall|cc: int| 0 <= cc < t@.cols.len() implies t@.cols[cc] == cols@[cc]@ by {}
            assert forall|cc: int, rr: int|
                0 <= cc < t@.cols.len() && 0 <= rr < t@.nrows implies cell_ok(
                t@.cols[cc].ty,
                #[trigger] t@.cols[cc].cells[rr],
            ) by {
                assert(t@.cols[cc] == cols@[cc]@);
                assert(cols@[cc]@.name == self@.cols[cc].name);
                assert(t@.cols[cc].ty == self@.cols[cc].ty);
                assert(self@.schema()[cc] == (self@.cols[cc].name, self@.cols[cc].ty));
                assert(other@.schema()[cc] == (other@.cols[cc].name, other@.cols[cc].ty));
                assert(other@.cols[cc].ty == self@.cols[cc].ty);
                assert(t@.cols[cc].cells == self@.cols[cc].cells + other@.cols[cc].cells);
                assert(self@.cols[cc].cells.len() == self@.nrows);
                assert(other@.cols[cc].cells.len() == other@.nrows);
                if rr < self@.nrows {
                    assert(t@.cols[cc].cells[rr] == self@.cols[cc].cells[rr]);
                } else {
                    assert(t@.cols[cc].cells[rr] == other@.cols[cc].cells[rr - self@.nrows]);
                }
            }
            assert forall|cc: int, dd: int|
                0 <= cc < dd < t@.cols.len() implies t@.cols[cc].name != t@.cols[dd].name by {
                assert(self@.cols[cc].name != self@.cols[dd].name);
            }
        }
        Ok(t)
    }
}

/// Build the table holding exactly `rows` under `schema`, as one fragment.
pub fn from_rows(schema: Vec<Field>, rows: &Vec<Vec<Value>>) -> (t: Table)
    requires
        distinct_names(schema.deep_view()),
        rows_ok(schema.deep_view(), rows.deep_view()),
    ensures
        t.wf(),
        t@ =~~= table_of(schema.deep_view(), rows.deep_view()),
{
    let ghost sv = schema.deep_view();
    let ghost rv = rows.deep_view();
    let nrows = rows.len();
    let mut cols: Vec<Column> = Vec::new();
    let mut c: usize = 0;
    while c < schema.len()
        invariant
            sv == schema.deep_view(),
            rv == rows.deep_view(),
            distinct_names(sv),
            rows_ok(sv, rv),
            nrows == rows.len(),
            0 <= c <= schema.len(),
            cols@.len() == c,
            forall|j: int| 0 <= j < c ==> cols@[j]@ == #[trigger] table_of(sv, rv).cols[j],
        decreases schema.len() - c,
    {
        let mut cells: Vec<Value> = Vec::new();
        let mut r: usize = 0;
        while r < rows.len()
            invariant
                sv == schema.deep_view(),
                rv == rows.deep_view(),
                rows_ok(sv, rv),
                0 <= c < schema.len(),
                0 <= r <= rows.len(),
                cells@.len() == r,
                forall|k: int| 0 <= k < r ==> cells@[k]@ == rv[k][c as int],
            decreases rows.len() - r,
        {
            assert(rv[r as int].len() == sv.len());
            assert(rows@[r as int].deep_view() == rv[r as int]);
            cells.push(rows[r][c].duplicate());
            r += 1;
        }
        proof {
            assert forall|k: int| 0 <= k < cells.deep_view().len() implies cells.deep_view()[k]
                == table_of(sv, rv).cols[c as int].cells[k] by {
                assert(cells@[k]@ == rv[k][c as int]);
            }
            assert(cells.deep_view() =~= table_of(sv, rv).cols[c as int].cells);
        }
        cols.push(Column { name: schema[c].name.clone(), ty: schema[c].ty, cells });
        c += 1;
    }
    let mut frags: Vec<usize> = Vec::new();
    frags.push(nrows);
    let t = Table { cols, nrows, frags };
    proof {
        assert forall|j: int| 0 <= j < t@.cols.len() implies t@.cols[j] == table_of(
            sv,
            rv,
        ).cols[j] by {
            assert(cols@[j]@ == table_of(sv, rv).cols[j]);
        }
        assert(t@.cols =~= table_of(sv, rv).cols);
        assert(t@.frags =~= seq![rv.len() as int]);
        assert(t@ =~~= table_of(sv, rv));
        lemma_table_of(sv, rv);
    }
    t
}

/// Sums distribute over concatenation of fragment lists.
pub proof fn lemma_sum_concat(a: Seq<int>, b: Seq<int>)
    ensures
        sum_ints(a + b) == sum_ints(a) + sum_ints(b),
    decreases b.len(),
{
    if b.len() == 0 {
        assert(a + b =~= a);
    } else {
        lemma_sum_concat(a, b.drop_last());
        assert((a + b).drop_last() =~= a + b.drop_last());
        assert((a + b).last() == b.last());
    }
}

} // verus!
