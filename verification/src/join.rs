//! Left-outer and inner joins on one key column per side.

use vstd::prelude::*;
use crate::table::{
    Table, TableV, Field, idx_of, lemma_idx_of, table_of, lemma_table_of, distinct_names, rows_ok,
    from_rows,
};
use crate::value::{Value, ValueV, ColType, cell_ok, val_eq};
use crate::errors::{Error, ErrorV};
use crate::ops::push_row;
use crate::seqs::{mask_seq, lemma_mask_take_step, lemma_mask_len, lemma_mask_membership,
    count_true};

verus! {

/// Which rows a join keeps.
#[derive(Clone, Copy, Debug, PartialEq, Eq, Structural)]
pub enum JoinKind {
    /// Keep every left row; pad unmatched left rows with nulls.
    Left,
    /// Keep only matched pairs.
    Inner,
}

/// A left key matches a right cell when both are the same non-null value.
pub open spec fn key_match(k: ValueV, cell: ValueV) -> bool {
    k != ValueV::Null && cell == k
}

/// Mask over the right rows: which of them match the left key.
pub open spec fn match_mask(lkey: ValueV, rrows: Seq<Seq<ValueV>>, ri: int) -> Seq<bool> {
    Seq::new(rrows.len(), |j: int| key_match(lkey, rrows[j][ri]))
}

/// `n` null cells.
pub open spec fn pad_nulls(n: int) -> Seq<ValueV> {
    Seq::new(n as nat, |k: int| ValueV::Null)
}

/// The output rows one left row contributes: one per matching right row (the
/// left row followed by the right row without its key column, in right-row
/// order), or — for a left join with no match — the left row padded with
/// nulls.
pub open spec fn emitted(
    lrow: Seq<ValueV>,
    rrows: Seq<Seq<ValueV>>,
    li: int,
    ri: int,
    rw: int,
    kind: JoinKind,
) -> Seq<Seq<ValueV>> {
    let ms = mask_seq(rrows, match_mask(lrow[li], rrows, ri)).map_values(
        |rr: Seq<ValueV>| lrow + rr.remove(ri),
    );
    if ms.len() == 0 {
        if kind == JoinKind::Left {
            seq![lrow + pad_nulls(rw - 1)]
        } else {
            Seq::empty()
        }
    } else {
        ms
    }
}

/// All output rows of the join, in left-row order.
pub open spec fn join_rows(
    lrows: Seq<Seq<ValueV>>,
    rrows: Seq<Seq<ValueV>>,
    li: int,
    ri: int,
    rw: int,
    kind: JoinKind,
) -> Seq<Seq<ValueV>>
    decreases lrows.len(),
{
    if lrows.len() == 0 {
        Seq::empty()
    } else {
        join_rows(lrows.drop_last(), rrows, li, ri, rw, kind) + emitted(
            lrows.last(),
            rrows,
            li,
            ri,
            rw,
            kind,
        )
    }
}

/// First name that repeats in the list, scanning left to right.
pub open spec fn dup_err(names: Seq<Seq<char>>) -> Option<Seq<char>>
    decreases names.len(),
{
    if names.len() == 0 {
        None
    } else {
        match dup_err(names.drop_last()) {
            Some(n) => Some(n),
            None => {
                if names.drop_last().contains(names.last()) {
                    Some(names.last())
                } else {
                    None
                }
            },
        }
    }
}

pub proof fn lemma_dup_err_persist(names: Seq<Seq<char>>, k: int)
    requires
        0 <= k <= names.len(),
        dup_err(names.take(k)) is Some,
    ensures
        dup_err(names) == dup_err(names.take(k)),
    decreases names.len() - k,
{
    if k < names.len() {
        assert(names.take(k + 1).drop_last() =~= names.take(k));
        lemma_dup_err_persist(names, k + 1);
    } else {
        assert(names.take(k) =~= names);
    }
}

pub proof fn lemma_dup_err_hit(names: Seq<Seq<char>>, k: int)
    requires
        0 <= k < names.len(),
        dup_err(names.take(k)) is None,
        names.take(k).contains(names[k]),
    ensures
        dup_err(names) == Some(names[k]),
{
    assert(names.take(k + 1).drop_last() =~= names.take(k));
    assert(names.take(k + 1).last() == names[k]);
    assert(dup_err(names.take(k + 1).drop_last()) is None);
    assert(dup_err(names.take(k + 1)) == Some(names[k]));
    lemma_dup_err_persist(names, k + 1);
}

pub proof fn lemma_dup_err_extend(names: Seq<Seq<char>>, k: int)
    requires
        0 <= k < names.len(),
        dup_err(names.take(k)) is None,
        !names.take(k).contains(names[k]),
    ensures
        dup_err(names.take(k + 1)) is None,
{
    assert(names.take(k + 1).drop_last() =~= names.take(k));
    assert(names.take(k + 1).last() == names[k]);
    assert(dup_err(names.take(k + 1).drop_last()) is None);
}

pub proof fn lemma_dup_err_none(names: Seq<Seq<char>>)
    requires
        dup_err(names) is None,
    ensures
        forall|a: int, b: int| 0 <= a < b < names.len() ==> names[a] != names[b],
    decreases names.len(),
{
    if names.len() > 0 {
        lemma_dup_err_none(names.drop_last());
        assert forall|a: int, b: int| 0 <= a < b < names.len() implies names[a] != names[b] by {
            if b < names.len() - 1 {
                assert(names.drop_last()[a] != names.drop_last()[b]);
            } else {
                assert(!names.drop_last().contains(names.last()));
                assert(names.drop_last()[a] == names[a]);
            }
        }
    }
}

/// The names of a schema's fields, in order.
pub open spec fn schema_names(schema: Seq<(Seq<char>, ColType)>) -> Seq<Seq<char>> {
    schema.map_values(|f: (Seq<char>, ColType)| f.0)
}

/// The schema the join produces: the left schema followed by the right
/// schema without the right key column.
pub open spec fn join_schema(l: Seq<(Seq<char>, ColType)>, r: Seq<(Seq<char>, ColType)>, ri: int)
    -> Seq<(Seq<char>, ColType)> {
    l + r.remove(ri)
}

/// A join succeeds exactly when both key columns exist, their types are
/// equal, and the combined column names are pairwise distinct; its rows are
/// [`join_rows`].
pub open spec fn spec_join(l: TableV, r: TableV, lk: Seq<char>, rk: Seq<char>, kind: JoinKind)
    -> Result<TableV, ErrorV> {
    let li = idx_of(l.schema(), lk);
    let ri = idx_of(r.schema(), rk);
    if li < 0 {
        Err(ErrorV::JoinKey(lk))
    } else if ri < 0 {
        Err(ErrorV::JoinKey(rk))
    } else if l.schema()[li].1 != r.schema()[ri].1 {
        Err(ErrorV::TypeErr(lk))
    } else {
        let os = join_schema(l.schema(), r.schema(), ri);
        match dup_err(schema_names(os)) {
            Some(n) => Err(ErrorV::Plan(n)),
            None => Ok(
                table_of(os, join_rows(l.rows(), r.rows(), li, ri, r.cols.len() as int, kind)),
            ),
        }
    }
}

/// The left row followed by the right row without its key column.
fn combine_rows(lrow: &Vec<Value>, r: &Table, j: usize, ri: usize) -> (out: Vec<Value>)
    requires
        r.wf(),
        (j as int) < r@.nrows,
        (ri as int) < r@.cols.len(),
    ensures
        out.deep_view() == lrow.deep_view() + r@.row(j as int).remove(ri as int),
{
    let mut out = crate::table::clone_cells(lrow);
    let mut c: usize = 0;
    while c < r.cols.len()
        invariant
            r.wf(),
            (j as int) < r@.nrows,
            (ri as int) < r@.cols.len(),
            0 <= c <= r@.cols.len(),
            out@.len() == lrow@.len() + (if c <= ri {
                c as int
            } else {
                c - 1
            }),
            forall|i: int| 0 <= i < lrow@.len() ==> out@[i]@ == lrow.deep_view()[i],
            forall|i: int|
                lrow@.len() <= i < out@.len() ==> out@[i]@ == r@.row(j as int).remove(ri as int)[i
                    - lrow@.len()],
        decreases r.cols.len() - c,
    {
        proof {
            assert(r@.cols[c as int].cells.len() == r@.nrows);
            assert(r@.row(j as int)[c as int] == r@.cols[c as int].cells[j as int]);
        }
        if c != ri {
            out.push(r.cols[c].cells[j].duplicate());
            proof {
                let rem = r@.row(j as int).remove(ri as int);
                if c < ri {
                    assert(rem[c as int] == r@.row(j as int)[c as int]);
                } else {
                    assert(rem[c - 1] == r@.row(j as int)[c as int]);
                }
            }
        }
        c += 1;
    }
    proof {
        assert forall|i: int| 0 <= i < out.deep_view().len() implies out.deep_view()[i] == (
        lrow.deep_view() + r@.row(j as int).remove(ri as int))[i] by {
            assert(out@[i]@ == out.deep_view()[i]);
        }
        assert(out.deep_view() =~= lrow.deep_view() + r@.row(j as int).remove(ri as int));
    }
    out
}

/// Materialize a join of `l` and `r`.
#[verifier::rlimit(100)]
pub fn join_tables(l: &Table, r: &Table, lk: &String, rk: &String, kind: JoinKind) -> (res: Result<
    Table,
    Error,
>)
    requires
        l.wf(),
        r.wf(),
    ensures
        match res {
            Ok(out) => {
                &&& spec_join(l@, r@, lk@, rk@, kind) is Ok
                &&& out@ == spec_join(l@, r@, lk@, rk@, kind)->Ok_0
                &&& out.wf()
            },
            Err(e) => spec_join(l@, r@, lk@, rk@, kind) == Err::<TableV, ErrorV>(e@),
        },
{
    let li = match l.find_col(lk) {
        Some(i) => i,
        None => {
            return Err(Error::JoinKey { col: lk.clone() });
        },
    };
    let ri = match r.find_col(rk) {
        Some(i) => i,
        None => {
            return Err(Error::JoinKey { col: rk.clone() });
        },
    };
    proof {
        lemma_idx_of(l@.schema(), lk@);
        lemma_idx_of(r@.schema(), rk@);
        assert(l@.schema()[li as int] == (l@.cols[li as int].name, l@.cols[li as int].ty));
        assert(r@.schema()[ri as int] == (r@.cols[ri as int].name, r@.cols[ri as int].ty));
    }
    if l.cols[li].ty != r.cols[ri].ty {
        return Err(Error::TypeErr { col: lk.clone() });
    }
    // the combined schema, with the duplicate-name check
    let ghost os = join_schema(l@.schema(), r@.schema(), ri as int);
    let ghost osn = schema_names(os);
    let mut schema: Vec<Field> = l.schema_fields();
    let mut c: usize = 0;
    while c < r.cols.len()
        invariant
            l.wf(),
            r.wf(),
            (ri as int) < r@.cols.len(),
            os == join_schema(l@.schema(), r@.schema(), ri as int),
            0 <= c <= r@.cols.len(),
            schema@.len() == l@.cols.len() + (if c <= ri {
                c as int
            } else {
                c - 1
            }),
            forall|i: int|
                0 <= i < schema@.len() ==> schema@[i]@ == #[trigger] os[i],
        decreases r.cols.len() - c,
    {
        proof {
            assert(r@.schema()[c as int] == (r@.cols[c as int].name, r@.cols[c as int].ty));
            let rem = r@.schema().remove(ri as int);
            if c < ri {
                assert(rem[c as int] == r@.schema()[c as int]);
            } else if c > ri {
                assert(rem[c - 1] == r@.schema()[c as int]);
            }
        }
        if c != ri {
            schema.push(Field { name: r.cols[c].name.clone(), ty: r.cols[c].ty });
        }
        c += 1;
    }
    proof {
        assert forall|i: int| 0 <= i < schema.deep_view().len() implies schema.deep_view()[i]
            == os[i] by {
            assert(schema@[i]@ == os[i]);
        }
        assert(schema.deep_view() =~= os);
        assert forall|i: int| 0 <= i < osn.len() implies osn[i] == schema.deep_view()[i].0 by {}
    }
    // duplicate-name scan over the combined schema
    let mut k: usize = 0;
    while k < schema.len()
        invariant
            os == join_schema(l@.schema(), r@.schema(), ri as int),
            osn == schema_names(os),
            schema.deep_view() == os,
            0 <= k <= schema@.len(),
            idx_of(l@.schema(), lk@) == li as int,
            idx_of(r@.schema(), rk@) == ri as int,
            0 <= li < l@.cols.len(),
            0 <= ri < r@.cols.len(),
            l@.schema()[li as int].1 == r@.schema()[ri as int].1,
            dup_err(osn.take(k as int)) is None,
        decreases schema.len() - k,
    {
        let mut j: usize = 0;
        while j < k
            invariant
                os == join_schema(l@.schema(), r@.schema(), ri as int),
                osn == schema_names(os),
                schema.deep_view() == os,
                0 <= j <= k < schema@.len(),
                idx_of(l@.schema(), lk@) == li as int,
                idx_of(r@.schema(), rk@) == ri as int,
                0 <= li < l@.cols.len(),
                0 <= ri < r@.cols.len(),
                l@.schema()[li as int].1 == r@.schema()[ri as int].1,
                dup_err(osn.take(k as int)) is None,
                forall|jj: int| 0 <= jj < j ==> osn[jj] != osn[k as int],
            decreases k - j,
        {
            if schema[j].name == schema[k].name {
                proof {
                    assert(osn[j as int] == schema@[j as int]@.0);
                    assert(osn[k as int] == schema@[k as int]@.0);
                    assert(osn.take(k as int).contains(osn[k as int])) by {
                        assert(osn.take(k as int)[j as int] == osn[k as int]);
                    }
                    lemma_dup_err_hit(osn, k as int);
                }
                return Err(Error::Plan { col: schema[k].name.clone() });
            }
            proof {
                assert(osn[j as int] == schema@[j as int]@.0);
                assert(osn[k as int] == schema@[k as int]@.0);
            }
            j += 1;
        }
        proof {
            assert(!osn.take(k as int).contains(osn[k as int])) by {
                if osn.take(k as int).contains(osn[k as int]) {
                    let jj = choose|jj: int|
                        0 <= jj < k && osn.take(k as int)[jj] == osn[k as int];
                    assert(osn[jj] == osn[k as int]);
                }
            }
            lemma_dup_err_extend(osn, k as int);
        }
        k += 1;
    }
    proof {
        assert(osn.take(osn.len() as int) =~= osn);
        assert(dup_err(osn) is None);
    }
    // build the joined rows
    let ghost lrows = l@.rows();
    let ghost rrows = r@.rows();
    let ghost rw: int = r@.cols.len() as int;
    let ghost target = join_rows(lrows, rrows, li as int, ri as int, rw, kind);
    let mut rows_out: Vec<Vec<Value>> = Vec::new();
    let mut i: usize = 0;
    while i < l.nrows
        invariant
            l.wf(),
            r.wf(),
            0 <= i <= l@.nrows,
            0 <= li < l@.cols.len(),
            0 <= ri < r@.cols.len(),
            lrows == l@.rows(),
            rrows == r@.rows(),
            rw == r@.cols.len(),
            target == join_rows(lrows, rrows, li as int, ri as int, rw, kind),
            rows_out.deep_view() == join_rows(
                lrows.take(i as int),
                rrows,
                li as int,
                ri as int,
                rw,
                kind,
            ),
        decreases l@.nrows - i,
    {
        let lrow = l.get_row(i);
        proof {
            assert(lrows[i as int] == l@.row(i as int));
            assert(lrow.deep_view() == lrows[i as int]);
            assert(l@.cols[li as int].cells.len() == l@.nrows);
            assert(lrows[i as int][li as int] == l@.cols[li as int].cells[i as int]);
        }
        let ghost lkey = lrows[i as int][li as int];
        let ghost mm = match_mask(lkey, rrows, ri as int);
        let ghost ms = mask_seq(rrows, mm).map_values(
            |rr: Seq<ValueV>| lrows[i as int] + rr.remove(ri as int),
        );
        let mut found = false;
        let mut j: usize = 0;
        while j < r.nrows
            invariant
                l.wf(),
                r.wf(),
                0 <= i < l@.nrows,
                0 <= j <= r@.nrows,
                0 <= li < l@.cols.len(),
                0 <= ri < r@.cols.len(),
                lrows == l@.rows(),
                rrows == r@.rows(),
                rw == r@.cols.len(),
                lrow.deep_view() == lrows[i as int],
                lkey == lrows[i as int][li as int],
                mm == match_mask(lkey, rrows, ri as int),
                ms == mask_seq(rrows, mm).map_values(
                    |rr: Seq<ValueV>| lrows[i as int] + rr.remove(ri as int),
                ),
                rows_out.deep_view() == join_rows(
                    lrows.take(i as int),
                    rrows,
                    li as int,
                    ri as int,
                    rw,
                    kind,
                ) + mask_seq(rrows.take(j as int), mm.take(j as int)).map_values(
                    |rr: Seq<ValueV>| lrows[i as int] + rr.remove(ri as int),
                ),
                found == (mask_seq(rrows.take(j as int), mm.take(j as int)).len() != 0),
            decreases r@.nrows - j,
        {
            proof {
                assert(r@.cols[ri as int].cells.len() == r@.nrows);
                assert(rrows[j as int] == r@.row(j as int));
                assert(rrows[j as int][ri as int] == r@.cols[ri as int].cells[j as int]);
                assert(l@.cols[li as int].cells.len() == l@.nrows);
                assert(lrows[i as int] == l@.row(i as int));
                assert(lkey == l@.cols[li as int].cells[i as int]);
            }
            let is_match = match &l.cols[li].cells[i] {
                Value::Null => false,
                lkc => val_eq(lkc, &r.cols[ri].cells[j]),
            };
            proof {
                assert(is_match == key_match(lkey, rrows[j as int][ri as int]));
                assert(mm[j as int] == is_match);
                lemma_mask_take_step(rrows, mm, j as int);
            }
            if is_match {
                let orow = combine_rows(&lrow, r, j, ri);
                proof {
                    assert(orow.deep_view() == lrows[i as int] + rrows[j as int].remove(
                        ri as int,
                    ));
                }
                push_row(&mut rows_out, orow);
                proof {
                    let before = mask_seq(rrows.take(j as int), mm.take(j as int));
                    let after = mask_seq(rrows.take(j as int + 1), mm.take(j as int + 1));
                    assert(after == before + seq![rrows[j as int]]);
                    assert(after.map_values(
                        |rr: Seq<ValueV>| lrows[i as int] + rr.remove(ri as int),
                    ) =~= before.map_values(
                        |rr: Seq<ValueV>| lrows[i as int] + rr.remove(ri as int),
                    ) + seq![lrows[i as int] + rrows[j as int].remove(ri as int)]);
                }
                found = true;
            } else {
                proof {
                    assert(mask_seq(rrows.take(j as int + 1), mm.take(j as int + 1)) =~= mask_seq(
                        rrows.take(j as int),
                        mm.take(j as int),
                    ));
                }
            }
            j += 1;
        }
        proof {
            assert(rrows.take(r@.nrows) =~= rrows);
            assert(mm.take(r@.nrows) =~= mm);
        }
        if !found {
            if kind == JoinKind::Left {
                // pad the unmatched left row with nulls
                let mut orow = crate::table::clone_cells(&lrow);
                let mut c: usize = 0;
                let width = r.cols.len() - 1;
                while c < width
                    invariant
                        0 <= c <= width,
                        orow@.len() == lrow@.len() + c,
                        forall|ii: int| 0 <= ii < lrow@.len() ==> orow@[ii]@ == lrow.deep_view()[ii],
                        forall|ii: int|
                            lrow@.len() <= ii < orow@.len() ==> orow@[ii]@ == ValueV::Null,
                    decreases width - c,
                {
                    orow.push(Value::Null);
                    c += 1;
                }
                proof {
                    assert forall|ii: int| 0 <= ii < orow.deep_view().len() implies orow.deep_view()[ii]
                        == (lrows[i as int] + pad_nulls(rw - 1))[ii] by {
                        assert(orow@[ii]@ == orow.deep_view()[ii]);
                    }
                    assert(orow.deep_view() =~= lrows[i as int] + pad_nulls(rw - 1));
                }
                push_row(&mut rows_out, orow);
            }
        }
        proof {
            assert(lrows.take(i as int + 1).drop_last() =~= lrows.take(i as int));
            assert(lrows.take(i as int + 1).last() == lrows[i as int]);
            if ms.len() == 0 {
                if kind == JoinKind::Left {
                    assert(rows_out.deep_view() =~= join_rows(
                        lrows.take(i as int),
                        rrows,
                        li as int,
                        ri as int,
                        rw,
                        kind,
                    ) + emitted(lrows[i as int], rrows, li as int, ri as int, rw, kind));
                } else {
                    assert(rows_out.deep_view() =~= join_rows(
                        lrows.take(i as int),
                        rrows,
                        li as int,
                        ri as int,
                        rw,
                        kind,
                    ) + emitted(lrows[i as int], rrows, li as int, ri as int, rw, kind));
                }
            } else {
                assert(rows_out.deep_view() =~= join_rows(
                    lrows.take(i as int),
                    rrows,
                    li as int,
                    ri as int,
                    rw,
                    kind,
                ) + emitted(lrows[i as int], rrows, li as int, ri as int, rw, kind));
            }
            assert(rows_out.deep_view() == join_rows(
                lrows.take(i as int + 1),
                rrows,
                li as int,
                ri as int,
                rw,
                kind,
            ));
        }
        i += 1;
    }
    proof {
        assert(lrows.take(l@.nrows) =~= lrows);
        lemma_dup_err_none(osn);
        assert forall|a: int, b: int| 0 <= a < b < os.len() implies os[a].0 != os[b].0 by {
            assert(osn[a] == os[a].0);
            assert(osn[b] == os[b].0);
        }
        crate::ops::lemma_wf_schema(l@);
        crate::ops::lemma_wf_schema(r@);
        lemma_join_rows_ok(lrows, rrows, li as int, ri as int, rw, kind, l@, r@);
    }
    let out = from_rows(schema, &rows_out);
    proof {
        assert(out@ =~~= table_of(os, target));
    }
    Ok(out)
}

/// Joined rows are well formed under the joined schema.
pub proof fn lemma_join_rows_ok(
    lrows: Seq<Seq<ValueV>>,
    rrows: Seq<Seq<ValueV>>,
    li: int,
    ri: int,
    rw: int,
    kind: JoinKind,
    l: TableV,
    r: TableV,
)
    requires
        l.wf(),
        r.wf(),
        0 <= ri < r.cols.len(),
        rw == r.cols.len(),
        rrows == r.rows(),
        forall|i: int| 0 <= i < lrows.len() ==> lrows.contains(#[trigger] lrows[i]) && l.rows().contains(lrows[i]),
    ensures
        rows_ok(
            join_schema(l.schema(), r.schema(), ri),
            join_rows(lrows, rrows, li, ri, rw, kind),
        ),
    decreases lrows.len(),
{
    crate::ops::lemma_wf_schema(l);
    crate::ops::lemma_wf_schema(r);
    let os = join_schema(l.schema(), r.schema(), ri);
    if lrows.len() > 0 {
        assert forall|i: int| 0 <= i < lrows.drop_last().len() implies lrows.drop_last().contains(
            #[trigger] lrows.drop_last()[i],
        ) && l.rows().contains(lrows.drop_last()[i]) by {
            assert(lrows.drop_last()[i] == lrows[i]);
            assert(lrows.contains(lrows[i]));
        }
        lemma_join_rows_ok(lrows.drop_last(), rrows, li, ri, rw, kind, l, r);
        let pre = join_rows(lrows.drop_last(), rrows, li, ri, rw, kind);
        let cb = emitted(lrows.last(), rrows, li, ri, rw, kind);
        let all = join_rows(lrows, rrows, li, ri, rw, kind);
        let lrow = lrows.last();
        assert(l.rows().contains(lrow));
        let lx = choose|lx: int| 0 <= lx < l.rows().len() && l.rows()[lx] == lrow;
        assert(lrow.len() == l.cols.len());
        assert forall|c: int| 0 <= c < l.cols.len() implies cell_ok(
            l.schema()[c].1,
            #[trigger] lrow[c],
        ) by {
            assert(l.rows()[lx][c] == l.cols[c].cells[lx]);
        }
        let mm = match_mask(lrow[li], rrows, ri);
        lemma_mask_membership(rrows, mm);
        assert forall|k: int| 0 <= k < cb.len() implies (#[trigger] cb[k]).len() == os.len()
            && (forall|c: int| 0 <= c < os.len() ==> cell_ok(os[c].1, #[trigger] cb[k][c])) by {
            let ms = mask_seq(rrows, mm).map_values(|rr: Seq<ValueV>| lrow + rr.remove(ri));
            if ms.len() == 0 {
                assert(cb[k] == lrow + pad_nulls(rw - 1));
                assert(cb[k].len() == os.len());
                assert forall|c: int| 0 <= c < os.len() implies cell_ok(
                    os[c].1,
                    #[trigger] cb[k][c],
                ) by {
                    if c < l.cols.len() {
                        assert(cb[k][c] == lrow[c]);
                        assert(os[c] == l.schema()[c]);
                    } else {
                        assert(cb[k][c] == ValueV::Null);
                    }
                }
            } else {
                let rr = mask_seq(rrows, mm)[k];
                assert(cb[k] == lrow + rr.remove(ri));
                let jx = choose|jx: int| 0 <= jx < rrows.len() && mm[jx] && rrows[jx] == rr;
                assert(rr.len() == r.cols.len());
                assert(cb[k].len() == os.len());
                assert forall|c: int| 0 <= c < os.len() implies cell_ok(
                    os[c].1,
                    #[trigger] cb[k][c],
                ) by {
                    if c < l.cols.len() {
                        assert(cb[k][c] == lrow[c]);
                        assert(os[c] == l.schema()[c]);
                    } else {
                        let rc = c - l.cols.len();
                        assert(cb[k][c] == rr.remove(ri)[rc]);
                        assert(os[c] == r.schema().remove(ri)[rc]);
                        if rc < ri {
                            assert(rr.remove(ri)[rc] == rr[rc]);
                            assert(r.schema().remove(ri)[rc] == r.schema()[rc]);
                            assert(r.rows()[jx][rc] == r.cols[rc].cells[jx]);
                        } else {
                            assert(rr.remove(ri)[rc] == rr[rc + 1]);
                            assert(r.schema().remove(ri)[rc] == r.schema()[rc + 1]);
                            assert(r.rows()[jx][rc + 1] == r.cols[rc + 1].cells[jx]);
                        }
                    }
                }
            }
        }
        assert forall|k: int| 0 <= k < all.len() implies (#[trigger] all[k]).len() == os.len() by {
            if k < pre.len() {
                assert(all[k] == pre[k]);
            } else {
                assert(all[k] == cb[k - pre.len()]);
            }
        }
        assert forall|k: int, c: int|
            0 <= k < all.len() && 0 <= c < os.len() implies cell_ok(
            os[c].1,
            #[trigger] all[k][c],
        ) by {
            if k < pre.len() {
                assert(all[k] == pre[k]);
            } else {
                assert(all[k] == cb[k - pre.len()]);
            }
        }
    }
}

/// A left join emits at least one row per left row, so its row count is at
/// least the left row count; the counts are equal exactly when no left key
/// matches more than one right row.
pub proof fn lemma_left_join_row_count(
    lrows: Seq<Seq<ValueV>>,
    rrows: Seq<Seq<ValueV>>,
    li: int,
    ri: int,
    rw: int,
)
    ensures
        join_rows(lrows, rrows, li, ri, rw, JoinKind::Left).len() >= lrows.len(),
        (join_rows(lrows, rrows, li, ri, rw, JoinKind::Left).len() == lrows.len()) <==> (forall|
            i: int,
            j1: int,
            j2: int,
        |
            0 <= i < lrows.len() && 0 <= j1 < j2 < rrows.len() ==> !(key_match(
                #[trigger] lrows[i][li],
                #[trigger] rrows[j1][ri],
            ) && key_match(lrows[i][li], #[trigger] rrows[j2][ri]))),
    decreases lrows.len(),
{
    if lrows.len() > 0 {
        lemma_left_join_row_count(lrows.drop_last(), rrows, li, ri, rw);
        let lrow = lrows.last();
        let mm = match_mask(lrow[li], rrows, ri);
        let masked = mask_seq(rrows, mm);
        lemma_mask_len(rrows, mm);
        crate::seqs::lemma_count_true_le_one(rrows, mm);
        let cb = emitted(lrow, rrows, li, ri, rw, JoinKind::Left);
        assert(cb.len() == if masked.len() == 0 {
            1int
        } else {
            masked.len() as int
        });
        assert((cb.len() == 1) <==> count_true(mm) <= 1);
        assert forall|i: int| 0 <= i < lrows.drop_last().len() implies lrows.drop_last()[i]
            == lrows[i] by {}
        assert((join_rows(lrows, rrows, li, ri, rw, JoinKind::Left).len() == lrows.len()) <==> (
        join_rows(lrows.drop_last(), rrows, li, ri, rw, JoinKind::Left).len()
            == lrows.drop_last().len() && cb.len() == 1));
        if count_true(mm) <= 1 {
            assert forall|j1: int, j2: int|
                0 <= j1 < j2 < rrows.len() implies !(key_match(lrows[lrows.len() - 1][li], #[trigger] rrows[j1][ri])
                && key_match(lrows[lrows.len() - 1][li], #[trigger] rrows[j2][ri])) by {
                assert(mm[j1] == key_match(lrow[li], rrows[j1][ri]));
                assert(mm[j2] == key_match(lrow[li], rrows[j2][ri]));
            }
        }
        if count_true(mm) > 1 {
            let (j1, j2) = choose|j1: int, j2: int| 0 <= j1 < j2 < mm.len() && mm[j1] && mm[j2];
            assert(key_match(lrows[lrows.len() - 1][li], rrows[j1][ri]));
            assert(key_match(lrows[lrows.len() - 1][li], rrows[j2][ri]));
        }
    }
}

} // verus!
