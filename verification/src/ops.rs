//! Row-level operators: predicate filtering, projection, and transforms.

use vstd::prelude::*;
use crate::table::{
    Table, TableV, Field, idx_of, lemma_idx_of, table_of, lemma_table_of, distinct_names, rows_ok,
    from_rows,
};
use crate::value::{Value, ValueV, ColType, cell_ok, NUM_SCALE};
use crate::errors::{Error, ErrorV};
use crate::pred::{Pred, PredV, pred_check, pred_holds, check_pred, eval_pred};
use crate::seqs::{
    mask_seq, lemma_mask_take_step, lemma_mask_all_true, lemma_mask_membership,
};

verus! {

/// Push one row onto a row buffer.
pub fn push_row(rows: &mut Vec<Vec<Value>>, row: Vec<Value>)
    ensures
        final(rows)@.len() == old(rows)@.len() + 1,
        final(rows).deep_view() == old(rows).deep_view().push(row.deep_view()),
{
    let ghost rv = row.deep_view();
    rows.push(row);
    proof {
        assert forall|i: int| 0 <= i < rows.deep_view().len() implies rows.deep_view()[i] == old(
            rows,
        ).deep_view().push(rv)[i] by {
            if i < old(rows)@.len() {
                assert(rows@[i] == old(rows)@[i]);
            } else {
                assert(rows@[i].deep_view() == rv);
            }
        }
        assert(rows.deep_view() =~= old(rows).deep_view().push(rv));
    }
}

/// Which rows of `t` the predicate keeps.
pub open spec fn filter_mask(t: TableV, p: PredV) -> Seq<bool> {
    Seq::new(t.nrows as nat, |r: int| pred_holds(t.schema(), p, t.row(r)))
}

/// Filtering keeps, in their original relative order, exactly the rows on
/// which the predicate holds; it fails exactly when the predicate does not
/// fit the schema, with the predicate's first error.
pub open spec fn spec_filter(t: TableV, p: PredV) -> Result<TableV, ErrorV> {
    match pred_check(t.schema(), p) {
        Some(e) => Err(e),
        None => Ok(table_of(t.schema(), mask_seq(t.rows(), filter_mask(t, p)))),
    }
}

/// A well-formed table has a distinct-name schema and type-correct rows.
pub proof fn lemma_wf_schema(t: TableV)
    requires
        t.wf(),
    ensures
        distinct_names(t.schema()),
        rows_ok(t.schema(), t.rows()),
{
    assert forall|a: int, b: int| 0 <= a < b < t.schema().len() implies t.schema()[a].0
        != t.schema()[b].0 by {
        assert(t.cols[a].name != t.cols[b].name);
    }
    assert forall|r: int, c: int|
        0 <= r < t.rows().len() && 0 <= c < t.schema().len() implies cell_ok(
        t.schema()[c].1,
        #[trigger] t.rows()[r][c],
    ) by {
        assert(t.rows()[r][c] == t.cols[c].cells[r]);
        assert(cell_ok(t.cols[c].ty, t.cols[c].cells[r]));
    }
}

/// The rows a filter keeps are rows of the input, so they are well formed
/// under the input schema.
pub proof fn lemma_filter_rows_ok(t: TableV, p: PredV)
    requires
        t.wf(),
    ensures
        rows_ok(t.schema(), mask_seq(t.rows(), filter_mask(t, p))),
{
    lemma_wf_schema(t);
    let m = mask_seq(t.rows(), filter_mask(t, p));
    lemma_mask_membership(t.rows(), filter_mask(t, p));
    assert forall|r: int| 0 <= r < m.len() implies (#[trigger] m[r]).len()
        == t.schema().len() by {
        let j = choose|j: int|
            0 <= j < t.rows().len() && filter_mask(t, p)[j] && t.rows()[j] == m[r];
        assert(t.rows()[j].len() == t.schema().len());
    }
    assert forall|r: int, c: int|
        0 <= r < m.len() && 0 <= c < t.schema().len() implies cell_ok(
        t.schema()[c].1,
        #[trigger] m[r][c],
    ) by {
        let j = choose|j: int|
            0 <= j < t.rows().len() && filter_mask(t, p)[j] && t.rows()[j] == m[r];
        assert(cell_ok(t.schema()[c].1, t.rows()[j][c]));
    }
}

/// Materialize a filter over `t`.
pub fn filter_table(t: &Table, p: &Pred) -> (res: Result<Table, Error>)
    requires
        t.wf(),
    ensures
        match res {
            Ok(out) => {
                &&& spec_filter(t@, p@) is Ok
                &&& out@ == spec_filter(t@, p@)->Ok_0
                &&& out.wf()
            },
            Err(e) => spec_filter(t@, p@) == Err::<TableV, ErrorV>(e@),
        },
{
    match check_pred(t, p) {
        Some(e) => {
            return Err(e);
        },
        None => {},
    }
    let ghost fm = filter_mask(t@, p@);
    let mut rows_out: Vec<Vec<Value>> = Vec::new();
    let mut r: usize = 0;
    while r < t.nrows
        invariant
            t.wf(),
            pred_check(t@.schema(), p@) is None,
            fm == filter_mask(t@, p@),
            0 <= r <= t@.nrows,
            rows_out.deep_view() == mask_seq(t@.rows().take(r as int), fm.take(r as int)),
        decreases t@.nrows - r,
    {
        let keep = eval_pred(t, p, r);
        proof {
            lemma_mask_take_step(t@.rows(), fm, r as int);
            assert(t@.rows()[r as int] == t@.row(r as int));
            assert(fm[r as int] == pred_holds(t@.schema(), p@, t@.row(r as int)));
        }
        if keep {
            let row = t.get_row(r);
            proof {
                assert(row.deep_view() == t@.row(r as int));
            }
            push_row(&mut rows_out, row);
            proof {
                assert(rows_out.deep_view() =~= mask_seq(
                    t@.rows().take(r as int),
                    fm.take(r as int),
                ) + seq![t@.rows()[r as int]]);
            }
        } else {
            proof {
                assert(mask_seq(t@.rows().take(r as int + 1), fm.take(r as int + 1)) =~= mask_seq(
                    t@.rows().take(r as int),
                    fm.take(r as int),
                ));
            }
        }
        r += 1;
    }
    proof {
        assert(t@.rows().take(t@.nrows) =~= t@.rows());
        assert(fm.take(t@.nrows) =~= fm);
        lemma_wf_schema(t@);
        lemma_filter_rows_ok(t@, p@);
    }
    let schema = t.schema_fields();
    let out = from_rows(schema, &rows_out);
    proof {
        assert(out@ =~~= table_of(t@.schema(), mask_seq(t@.rows(), fm)));
    }
    Ok(out)
}

/// Applying the same predicate a second time changes nothing: the kept rows
/// all satisfy it already.
pub proof fn lemma_filter_idempotent(t: TableV, p: PredV)
    requires
        t.wf(),
        spec_filter(t, p) is Ok,
    ensures
        spec_filter(spec_filter(t, p)->Ok_0, p) == spec_filter(t, p),
{
    let schema = t.schema();
    let m = mask_seq(t.rows(), filter_mask(t, p));
    let t2 = table_of(schema, m);
    lemma_wf_schema(t);
    lemma_filter_rows_ok(t, p);
    lemma_table_of(schema, m);
    assert(t2.schema() =~= schema);
    assert(pred_check(t2.schema(), p) is None);
    lemma_mask_membership(t.rows(), filter_mask(t, p));
    assert forall|r: int| 0 <= r < t2.nrows implies filter_mask(t2, p)[r] by {
        assert(t2.rows() =~~= m);
        let j = choose|j: int|
            0 <= j < t.rows().len() && filter_mask(t, p)[j] && t.rows()[j] == m[r];
        assert(pred_holds(schema, p, t.rows()[j]));
        assert(t2.rows()[r] == m[r]);
        assert(t2.row(r) =~= m[r]);
    }
    lemma_mask_all_true(t2.rows(), filter_mask(t2, p));
    assert(t2.rows() =~~= m);
    assert(mask_seq(t2.rows(), filter_mask(t2, p)) == t2.rows());
    assert(spec_filter(t2, p)->Ok_0 =~~= table_of(schema, m));
}

/// First name of the requested projection that is unknown upstream or
/// repeated in the request, scanning left to right; `None` when the
/// projection is valid.
pub open spec fn select_err(schema: Seq<(Seq<char>, ColType)>, names: Seq<Seq<char>>) -> Option<
    Seq<char>,
>
    decreases names.len(),
{
    if names.len() == 0 {
        None
    } else {
        match select_err(schema, names.drop_last()) {
            Some(n) => Some(n),
            None => {
                if idx_of(schema, names.last()) < 0 || names.drop_last().contains(names.last()) {
                    Some(names.last())
                } else {
                    None
                }
            },
        }
    }
}

pub proof fn lemma_select_err_hit(
    schema: Seq<(Seq<char>, ColType)>,
    names: Seq<Seq<char>>,
    k: int,
)
    requires
        0 <= k < names.len(),
        select_err(schema, names.take(k)) is None,
        idx_of(schema, names[k]) < 0 || names.take(k).contains(names[k]),
    ensures
        select_err(schema, names) == Some(names[k]),
{
    assert(names.take(k + 1).drop_last() =~= names.take(k));
    assert(names.take(k + 1).last() == names[k]);
    assert(select_err(schema, names.take(k + 1).drop_last()) is None);
    assert(select_err(schema, names.take(k + 1)) == Some(names[k]));
    lemma_select_err_persist(schema, names, k + 1);
}

pub proof fn lemma_select_err_extend(
    schema: Seq<(Seq<char>, ColType)>,
    names: Seq<Seq<char>>,
    k: int,
)
    requires
        0 <= k < names.len(),
        select_err(schema, names.take(k)) is None,
        idx_of(schema, names[k]) >= 0,
        !names.take(k).contains(names[k]),
    ensures
        select_err(schema, names.take(k + 1)) is None,
{
    assert(names.take(k + 1).drop_last() =~= names.take(k));
    assert(names.take(k + 1).last() == names[k]);
    assert(select_err(schema, names.take(k + 1).drop_last()) is None);
}

pub proof fn lemma_select_err_persist(
    schema: Seq<(Seq<char>, ColType)>,
    names: Seq<Seq<char>>,
    k: int,
)
    requires
        0 <= k <= names.len(),
        select_err(schema, names.take(k)) is Some,
    ensures
        select_err(schema, names) == select_err(schema, names.take(k)),
    decreases names.len() - k,
{
    if k < names.len() {
        assert(names.take(k + 1).drop_last() =~= names.take(k));
        lemma_select_err_persist(schema, names, k + 1);
    } else {
        assert(names.take(k) =~= names);
    }
}

pub proof fn lemma_select_err_none(schema: Seq<(Seq<char>, ColType)>, names: Seq<Seq<char>>)
    requires
        select_err(schema, names) is None,
    ensures
        forall|a: int, b: int| 0 <= a < b < names.len() ==> names[a] != names[b],
        forall|k: int| 0 <= k < names.len() ==> idx_of(schema, #[trigger] names[k]) >= 0,
    decreases names.len(),
{
    if names.len() > 0 {
        lemma_select_err_none(schema, names.drop_last());
        assert forall|a: int, b: int| 0 <= a < b < names.len() implies names[a] != names[b] by {
            if b < names.len() - 1 {
                assert(names.drop_last()[a] != names.drop_last()[b]);
            } else {
                assert(!names.drop_last().contains(names.last()));
                assert(names.drop_last()[a] == names[a]);
            }
        }
        assert forall|k: int| 0 <= k < names.len() implies idx_of(schema, #[trigger] names[k])
            >= 0 by {
            if k < names.len() - 1 {
                assert(names.drop_last()[k] == names[k]);
            }
        }
    }
}

/// The schema a valid projection produces: the requested names with their
/// upstream types, in request order.
pub open spec fn select_schema(schema: Seq<(Seq<char>, ColType)>, names: Seq<Seq<char>>) -> Seq<
    (Seq<char>, ColType),
> {
    names.map_values(|n: Seq<char>| (n, schema[idx_of(schema, n)].1))
}

/// The rows a valid projection produces.
pub open spec fn select_rows(t: TableV, names: Seq<Seq<char>>) -> Seq<Seq<ValueV>> {
    t.rows().map_values(
        |row: Seq<ValueV>| Seq::new(names.len(), |k: int| row[idx_of(t.schema(), names[k])]),
    )
}

/// Projection to the named columns, in the requested order. Fails exactly
/// when a requested name is unknown or repeated, naming the first such name.
pub open spec fn spec_select(t: TableV, names: Seq<Seq<char>>) -> Result<TableV, ErrorV> {
    match select_err(t.schema(), names) {
        Some(n) => Err(ErrorV::Plan(n)),
        None => Ok(table_of(select_schema(t.schema(), names), select_rows(t, names))),
    }
}

/// Materialize a projection of `t`.
pub fn select_table(t: &Table, names: &Vec<String>) -> (res: Result<Table, Error>)
    requires
        t.wf(),
    ensures
        match res {
            Ok(out) => {
                &&& spec_select(t@, names.deep_view()) is Ok
                &&& out@ == spec_select(t@, names.deep_view())->Ok_0
                &&& out.wf()
            },
            Err(e) => spec_select(t@, names.deep_view()) == Err::<TableV, ErrorV>(e@),
        },
{
    let ghost nv = names.deep_view();
    let mut idxs: Vec<usize> = Vec::new();
    let mut k: usize = 0;
    while k < names.len()
        invariant
            t.wf(),
            nv == names.deep_view(),
            0 <= k <= names.len(),
            select_err(t@.schema(), nv.take(k as int)) is None,
            idxs@.len() == k,
            forall|j: int| 0 <= j < k ==> idxs@[j] as int == idx_of(t@.schema(), nv[j]),
            forall|j: int| 0 <= j < k ==> idx_of(t@.schema(), #[trigger] nv[j]) >= 0,
        decreases names.len() - k,
    {
        proof {
            assert(nv.take(k as int + 1).drop_last() =~= nv.take(k as int));
            assert(nv.take(k as int + 1).last() == nv[k as int]);
        }
        let i = match t.find_col(&names[k]) {
            Some(i) => i,
            None => {
                proof {
                    assert(nv[k as int] == names@[k as int]@);
                    lemma_select_err_hit(t@.schema(), nv, k as int);
                }
                return Err(Error::Plan { col: names[k].clone() });
            },
        };
        let mut j: usize = 0;
        while j < k
            invariant
                t.wf(),
                nv == names.deep_view(),
                0 <= j <= k < names@.len(),
                select_err(t@.schema(), nv.take(k as int)) is None,
                forall|jj: int| 0 <= jj < j ==> nv[jj] != nv[k as int],
            decreases k - j,
        {
            if names[j] == names[k] {
                proof {
                    assert(nv[k as int] == names@[k as int]@);
                    assert(nv.take(k as int).contains(nv[k as int])) by {
                        assert(nv.take(k as int)[j as int] == nv[k as int]);
                    }
                    lemma_select_err_hit(t@.schema(), nv, k as int);
                }
                return Err(Error::Plan { col: names[k].clone() });
            }
            j += 1;
        }
        proof {
            assert(!nv.take(k as int).contains(nv[k as int])) by {
                if nv.take(k as int).contains(nv[k as int]) {
                    let jj = choose|jj: int|
                        0 <= jj < k && nv.take(k as int)[jj] == nv[k as int];
                    assert(nv[jj] == nv[k as int]);
                }
            }
            assert(nv[k as int] == names@[k as int]@);
            lemma_select_err_extend(t@.schema(), nv, k as int);
        }
        idxs.push(i);
        k += 1;
    }
    proof {
        assert(nv.take(names@.len() as int) =~= nv);
    }
    // build the projected schema
    let mut schema: Vec<Field> = Vec::new();
    let mut k: usize = 0;
    while k < names.len()
        invariant
            t.wf(),
            nv == names.deep_view(),
            0 <= k <= names.len(),
            idxs@.len() == names@.len(),
            forall|j: int| 0 <= j < names@.len() ==> idxs@[j] as int == idx_of(t@.schema(), nv[j]),
            forall|j: int| 0 <= j < names@.len() ==> idx_of(t@.schema(), #[trigger] nv[j]) >= 0,
            schema@.len() == k,
            forall|j: int|
                0 <= j < k ==> schema@[j]@ == #[trigger] select_schema(t@.schema(), nv)[j],
        decreases names.len() - k,
    {
        proof {
            lemma_idx_of(t@.schema(), nv[k as int]);
            assert(t@.schema()[idxs@[k as int] as int] == (t@.cols[idxs@[k as int] as int].name,
                t@.cols[idxs@[k as int] as int].ty));
        }
        let i = idxs[k];
        schema.push(Field { name: names[k].clone(), ty: t.cols[i].ty });
        k += 1;
    }
    // build the projected rows
    let mut rows_out: Vec<Vec<Value>> = Vec::new();
    let mut r: usize = 0;
    while r < t.nrows
        invariant
            t.wf(),
            nv == names.deep_view(),
            0 <= r <= t@.nrows,
            idxs@.len() == names@.len(),
            forall|j: int| 0 <= j < names@.len() ==> idxs@[j] as int == idx_of(t@.schema(), nv[j]),
            forall|j: int| 0 <= j < names@.len() ==> idx_of(t@.schema(), #[trigger] nv[j]) >= 0,
            rows_out.deep_view() == select_rows(t@, nv).take(r as int),
        decreases t@.nrows - r,
    {
        let mut row: Vec<Value> = Vec::new();
        let mut k: usize = 0;
        while k < idxs.len()
            invariant
                t.wf(),
                nv == names.deep_view(),
                0 <= r < t@.nrows,
                0 <= k <= idxs@.len(),
                idxs@.len() == names@.len(),
                forall|j: int|
                    0 <= j < names@.len() ==> idxs@[j] as int == idx_of(t@.schema(), nv[j]),
                forall|j: int| 0 <= j < names@.len() ==> idx_of(t@.schema(), #[trigger] nv[j]) >= 0,
                row@.len() == k,
                forall|j: int|
                    0 <= j < k ==> row@[j]@ == t@.row(r as int)[idx_of(t@.schema(), nv[j])],
            decreases idxs@.len() - k,
        {
            proof {
                lemma_idx_of(t@.schema(), nv[k as int]);
                assert(t@.cols[idxs@[k as int] as int].cells.len() == t@.nrows);
                assert(t@.row(r as int)[idxs@[k as int] as int] == t@.cols[idxs@[k as int] as int]
                    .cells[r as int]);
            }
            let i = idxs[k];
            row.push(t.cols[i].cells[r].duplicate());
            k += 1;
        }
        proof {
            assert forall|j: int| 0 <= j < row.deep_view().len() implies row.deep_view()[j]
                == select_rows(t@, nv)[r as int][j] by {
                assert(row@[j]@ == t@.row(r as int)[idx_of(t@.schema(), nv[j])]);
                assert(select_rows(t@, nv)[r as int] == Seq::new(
                    nv.len(),
                    |k2: int| t@.rows()[r as int][idx_of(t@.schema(), nv[k2])],
                ));
                assert(t@.rows()[r as int] == t@.row(r as int));
            };
            assert(row.deep_view() =~= select_rows(t@, nv)[r as int]);
        }
        push_row(&mut rows_out, row);
        proof {
            assert(rows_out.deep_view() =~= select_rows(t@, nv).take(r as int + 1));
        }
        r += 1;
    }
    proof {
        assert(select_rows(t@, nv).take(t@.nrows) =~= select_rows(t@, nv));
        lemma_select_err_none(t@.schema(), nv);
        lemma_wf_schema(t@);
        // the projected schema has distinct names and the rows fit it
        assert forall|j: int| 0 <= j < schema.deep_view().len() implies schema.deep_view()[j]
            == select_schema(t@.schema(), nv)[j] by {
            assert(schema@[j]@ == select_schema(t@.schema(), nv)[j]);
        }
        assert(schema.deep_view() =~= select_schema(t@.schema(), nv));
        assert forall|a: int, b: int|
            0 <= a < b < select_schema(t@.schema(), nv).len() implies select_schema(
            t@.schema(),
            nv,
        )[a].0 != select_schema(t@.schema(), nv)[b].0 by {
            assert(nv[a] != nv[b]);
        }
        assert forall|rr: int, cc: int|
            0 <= rr < select_rows(t@, nv).len() && 0 <= cc < select_schema(
                t@.schema(),
                nv,
            ).len() implies cell_ok(
            select_schema(t@.schema(), nv)[cc].1,
            #[trigger] select_rows(t@, nv)[rr][cc],
        ) by {
            lemma_idx_of(t@.schema(), nv[cc]);
            let i = idx_of(t@.schema(), nv[cc]);
            assert(t@.rows()[rr][i] == t@.cols[i].cells[rr]);
            assert(cell_ok(t@.cols[i].ty, t@.cols[i].cells[rr]));
            assert(t@.schema()[i] == (t@.cols[i].name, t@.cols[i].ty));
        }
    }
    let out = from_rows(schema, &rows_out);
    proof {
        assert(out@ =~~= table_of(select_schema(t@.schema(), nv), select_rows(t@, nv)));
    }
    Ok(out)
}

} // verus!
