//! Column transforms: scaling a numeric column, and the ratio of two
//! integer columns as a new fixed-point column.

use vstd::prelude::*;
use crate::table::{
    Table, TableV, Field, idx_of, lemma_idx_of, table_of, lemma_table_of, distinct_names, rows_ok,
    from_rows,
};
use crate::value::{Value, ValueV, ColType, cell_ok, NUM_SCALE};
use crate::errors::{Error, ErrorV};
use crate::ops::push_row;

verus! {

/// A pure cell-level transform applied to a whole table.
#[derive(Debug)]
pub enum MapOp {
    /// Multiply every cell of the named numeric column by the integer factor.
    Scale { col: String, factor: i64 },
    /// Append a fixed-point column named `out` holding `num / den` for the
    /// two named integer columns; `Null` where a cell is `Null`, negative,
    /// or the denominator is zero.
    Ratio { num: String, den: String, out: String },
}

/// Mathematical model of a transform.
pub ghost enum MapOpV {
    Scale(Seq<char>, int),
    Ratio(Seq<char>, Seq<char>, Seq<char>),
}

impl View for MapOp {
    type V = MapOpV;

    open spec fn view(&self) -> MapOpV {
        match self {
            MapOp::Scale { col, factor } => MapOpV::Scale(col@, *factor as int),
            MapOp::Ratio { num, den, out } => MapOpV::Ratio(num@, den@, out@),
        }
    }
}

/// One scaled cell; `None` when the product leaves the 64-bit range.
pub open spec fn scale_cell(v: ValueV, f: int) -> Option<ValueV> {
    match v {
        ValueV::Int(x) => if i64::MIN <= x * f <= i64::MAX {
            Some(ValueV::Int(x * f))
        } else {
            None
        },
        ValueV::Num(x) => if i64::MIN <= x * f <= i64::MAX {
            Some(ValueV::Num(x * f))
        } else {
            None
        },
        _ => Some(v),
    }
}

/// One ratio cell; `None` when `num * NUM_SCALE` leaves the 64-bit range.
pub open spec fn ratio_cell(a: ValueV, b: ValueV) -> Option<ValueV> {
    match a {
        ValueV::Int(x) => match b {
            ValueV::Int(y) => if x >= 0 && y > 0 {
                if x * (NUM_SCALE as int) <= i64::MAX {
                    Some(ValueV::Num(x * (NUM_SCALE as int) / y))
                } else {
                    None
                }
            } else {
                Some(ValueV::Null)
            },
            _ => Some(ValueV::Null),
        },
        _ => Some(ValueV::Null),
    }
}

/// Scaling a numeric column: the named column must exist and be numeric,
/// every product must fit, and only that column's cells change.
pub open spec fn spec_scale(t: TableV, col: Seq<char>, f: int) -> Result<TableV, ErrorV> {
    let i = idx_of(t.schema(), col);
    if i < 0 {
        Err(ErrorV::Plan(col))
    } else if !(t.schema()[i].1 == ColType::Int || t.schema()[i].1 == ColType::Num) {
        Err(ErrorV::TypeErr(col))
    } else if exists|r: int| 0 <= r < t.nrows && scale_cell(#[trigger] t.rows()[r][i], f) is None {
        Err(ErrorV::Overflow)
    } else {
        Ok(
            table_of(
                t.schema(),
                t.rows().map_values(
                    |row: Seq<ValueV>| row.update(i, scale_cell(row[i], f)->0),
                ),
            ),
        )
    }
}

/// Appending the ratio column: both named columns must exist and hold
/// integers, the output name must be fresh, and every ratio must fit.
pub open spec fn spec_ratio(t: TableV, num: Seq<char>, den: Seq<char>, out: Seq<char>) -> Result<
    TableV,
    ErrorV,
> {
    let ni = idx_of(t.schema(), num);
    let di = idx_of(t.schema(), den);
    if ni < 0 {
        Err(ErrorV::Plan(num))
    } else if di < 0 {
        Err(ErrorV::Plan(den))
    } else if t.schema()[ni].1 != ColType::Int {
        Err(ErrorV::TypeErr(num))
    } else if t.schema()[di].1 != ColType::Int {
        Err(ErrorV::TypeErr(den))
    } else if idx_of(t.schema(), out) >= 0 {
        Err(ErrorV::Plan(out))
    } else if exists|r: int|
        0 <= r < t.nrows && ratio_cell(
            #[trigger] t.rows()[r][ni],
            t.rows()[r][di],
        ) is None {
        Err(ErrorV::Overflow)
    } else {
        Ok(
            table_of(
                t.schema().push((out, ColType::Num)),
                t.rows().map_values(
                    |row: Seq<ValueV>| row.push(ratio_cell(row[ni], row[di])->0),
                ),
            ),
        )
    }
}

/// The transform denoted by a [`MapOp`].
pub open spec fn spec_map(t: TableV, op: MapOpV) -> Result<TableV, ErrorV> {
    match op {
        MapOpV::Scale(col, factor) => spec_scale(t, col, factor),
        MapOpV::Ratio(num, den, out) => spec_ratio(t, num, den, out),
    }
}

/// Materialize a transform of `t`.
pub fn map_table(t: &Table, op: &MapOp) -> (res: Result<Table, Error>)
    requires
        t.wf(),
    ensures
        match res {
            Ok(out) => {
                &&& spec_map(t@, op@) is Ok
                &&& out@ == spec_map(t@, op@)->Ok_0
                &&& out.wf()
            },
            Err(e) => spec_map(t@, op@) == Err::<TableV, ErrorV>(e@),
        },
{
    match op {
        MapOp::Scale { col, factor } => scale_table(t, col, *factor),
        MapOp::Ratio { num, den, out } => ratio_table(t, num, den, out),
    }
}

fn scale_table(t: &Table, col: &String, factor: i64) -> (res: Result<Table, Error>)
    requires
        t.wf(),
    ensures
        match res {
            Ok(out) => {
                &&& spec_scale(t@, col@, factor as int) is Ok
                &&& out@ == spec_scale(t@, col@, factor as int)->Ok_0
                &&& out.wf()
            },
            Err(e) => spec_scale(t@, col@, factor as int) == Err::<TableV, ErrorV>(e@),
        },
{
    let i = match t.find_col(col) {
        Some(i) => i,
        None => {
            return Err(Error::Plan { col: col.clone() });
        },
    };
    proof {
        lemma_idx_of(t@.schema(), col@);
        assert(t@.schema()[i as int] == (t@.cols[i as int].name, t@.cols[i as int].ty));
    }
    let numeric = match t.cols[i].ty {
        ColType::Int => true,
        ColType::Num => true,
        _ => false,
    };
    if !numeric {
        return Err(Error::TypeErr { col: col.clone() });
    }
    let ghost target = t@.rows().map_values(
        |row: Seq<ValueV>| row.update(i as int, scale_cell(row[i as int], factor as int)->0),
    );
    let mut rows_out: Vec<Vec<Value>> = Vec::new();
    let mut r: usize = 0;
    while r < t.nrows
        invariant
            t.wf(),
            0 <= r <= t@.nrows,
            0 <= i < t@.cols.len(),
            idx_of(t@.schema(), col@) == i as int,
            t@.schema()[i as int].1 == ColType::Int || t@.schema()[i as int].1 == ColType::Num,
            target == t@.rows().map_values(
                |row: Seq<ValueV>| row.update(
                    i as int,
                    scale_cell(row[i as int], factor as int)->0,
                ),
            ),
            forall|rr: int|
                0 <= rr < r ==> scale_cell(#[trigger] t@.rows()[rr][i as int], factor as int)
                    is Some,
            rows_out.deep_view() == target.take(r as int),
        decreases t@.nrows - r,
    {
        proof {
            assert(t@.cols[i as int].cells.len() == t@.nrows);
            assert(t@.rows()[r as int] == t@.row(r as int));
        }
        let mut row: Vec<Value> = Vec::new();
        let mut c: usize = 0;
        while c < t.cols.len()
            invariant
                t.wf(),
                0 <= r < t@.nrows,
                0 <= i < t@.cols.len(),
                0 <= c <= t@.cols.len(),
                idx_of(t@.schema(), col@) == i as int,
                t@.schema()[i as int].1 == ColType::Int || t@.schema()[i as int].1
                    == ColType::Num,
                row@.len() == c,
                forall|cc: int|
                    0 <= cc < c && cc != i ==> row@[cc]@ == t@.row(r as int)[cc],
                i < c ==> scale_cell(t@.row(r as int)[i as int], factor as int) is Some,
                i < c ==> row@[i as int]@ == scale_cell(
                    t@.row(r as int)[i as int],
                    factor as int,
                )->0,
            decreases t@.cols.len() - c,
        {
            proof {
                assert(t@.cols[c as int].cells.len() == t@.nrows);
                assert(t@.row(r as int)[c as int] == t@.cols[c as int].cells[r as int]);
            }
            if c == i {
                let cell = &t.cols[c].cells[r];
                match cell {
                    Value::Int(x) => {
                        match x.checked_mul(factor) {
                            Some(p) => {
                                row.push(Value::Int(p));
                            },
                            None => {
                                proof {
                                    assert(t@.rows()[r as int] == t@.row(r as int));
                                    assert(scale_cell(
                                        t@.rows()[r as int][i as int],
                                        factor as int,
                                    ) is None);
                                }
                                return Err(Error::Overflow);
                            },
                        }
                    },
                    Value::Num(x) => {
                        match x.checked_mul(factor) {
                            Some(p) => {
                                row.push(Value::Num(p));
                            },
                            None => {
                                proof {
                                    assert(t@.rows()[r as int] == t@.row(r as int));
                                    assert(scale_cell(
                                        t@.rows()[r as int][i as int],
                                        factor as int,
                                    ) is None);
                                }
                                return Err(Error::Overflow);
                            },
                        }
                    },
                    _ => {
                        row.push(cell.duplicate());
                    },
                }
            } else {
                row.push(t.cols[c].cells[r].duplicate());
            }
            c += 1;
        }
        proof {
            assert forall|cc: int| 0 <= cc < row.deep_view().len() implies row.deep_view()[cc]
                == target[r as int][cc] by {
                assert(target[r as int] == t@.rows()[r as int].update(
                    i as int,
                    scale_cell(t@.rows()[r as int][i as int], factor as int)->0,
                ));
                assert(t@.rows()[r as int] == t@.row(r as int));
                assert(row@[cc]@ == row.deep_view()[cc]);
            }
            assert(row.deep_view() =~= target[r as int]);
        }
        push_row(&mut rows_out, row);
        proof {
            assert(rows_out.deep_view() =~= target.take(r as int + 1));
        }
        r += 1;
    }
    proof {
        assert(target.take(t@.nrows) =~= target);
        crate::ops::lemma_wf_schema(t@);
        assert forall|rr: int, cc: int|
            0 <= rr < target.len() && 0 <= cc < t@.schema().len() implies cell_ok(
            t@.schema()[cc].1,
            #[trigger] target[rr][cc],
        ) by {
            assert(t@.rows()[rr][cc] == t@.cols[cc].cells[rr]);
            assert(cell_ok(t@.cols[cc].ty, t@.cols[cc].cells[rr]));
            if cc == i {
                assert(scale_cell(t@.rows()[rr][i as int], factor as int) is Some);
            }
        }
        assert forall|rr: int| 0 <= rr < target.len() implies (#[trigger] target[rr]).len()
            == t@.schema().len() by {
            assert(t@.rows()[rr].len() == t@.cols.len());
        }
    }
    let schema = t.schema_fields();
    let out = from_rows(schema, &rows_out);
    proof {
        assert(out@ =~~= table_of(t@.schema(), target));
    }
    Ok(out)
}

fn ratio_table(t: &Table, num: &String, den: &String, out_name: &String) -> (res: Result<
    Table,
    Error,
>)
    requires
        t.wf(),
    ensures
        match res {
            Ok(out) => {
                &&& spec_ratio(t@, num@, den@, out_name@) is Ok
                &&& out@ == spec_ratio(t@, num@, den@, out_name@)->Ok_0
                &&& out.wf()
            },
            Err(e) => spec_ratio(t@, num@, den@, out_name@) == Err::<TableV, ErrorV>(e@),
        },
{
    let ni = match t.find_col(num) {
        Some(i) => i,
        None => {
            return Err(Error::Plan { col: num.clone() });
        },
    };
    let di = match t.find_col(den) {
        Some(i) => i,
        None => {
            return Err(Error::Plan { col: den.clone() });
        },
    };
    proof {
        lemma_idx_of(t@.schema(), num@);
        lemma_idx_of(t@.schema(), den@);
        assert(t@.schema()[ni as int] == (t@.cols[ni as int].name, t@.cols[ni as int].ty));
        assert(t@.schema()[di as int] == (t@.cols[di as int].name, t@.cols[di as int].ty));
    }
    match t.cols[ni].ty {
        ColType::Int => {},
        _ => {
            return Err(Error::TypeErr { col: num.clone() });
        },
    }
    match t.cols[di].ty {
        ColType::Int => {},
        _ => {
            return Err(Error::TypeErr { col: den.clone() });
        },
    }
    match t.find_col(out_name) {
        Some(_) => {
            return Err(Error::Plan { col: out_name.clone() });
        },
        None => {},
    }
    proof {
        lemma_idx_of(t@.schema(), out_name@);
    }
    let ghost target = t@.rows().map_values(
        |row: Seq<ValueV>| row.push(ratio_cell(row[ni as int], row[di as int])->0),
    );
    let mut rows_out: Vec<Vec<Value>> = Vec::new();
    let mut r: usize = 0;
    while r < t.nrows
        invariant
            t.wf(),
            0 <= r <= t@.nrows,
            0 <= ni < t@.cols.len(),
            0 <= di < t@.cols.len(),
            idx_of(t@.schema(), num@) == ni as int,
            idx_of(t@.schema(), den@) == di as int,
            t@.schema()[ni as int].1 == ColType::Int,
            t@.schema()[di as int].1 == ColType::Int,
            idx_of(t@.schema(), out_name@) < 0,
            target == t@.rows().map_values(
                |row: Seq<ValueV>| row.push(ratio_cell(row[ni as int], row[di as int])->0),
            ),
            forall|rr: int|
                0 <= rr < r ==> ratio_cell(
                    #[trigger] t@.rows()[rr][ni as int],
                    t@.rows()[rr][di as int],
                ) is Some,
            rows_out.deep_view() == target.take(r as int),
        decreases t@.nrows - r,
    {
        proof {
            assert(t@.cols[ni as int].cells.len() == t@.nrows);
            assert(t@.cols[di as int].cells.len() == t@.nrows);
            assert(t@.rows()[r as int] == t@.row(r as int));
            assert(t@.row(r as int)[ni as int] == t@.cols[ni as int].cells[r as int]);
            assert(t@.row(r as int)[di as int] == t@.cols[di as int].cells[r as int]);
        }
        let mut row = t.get_row(r);
        let ratio: Value = {
            let a = &t.cols[ni].cells[r];
            let b = &t.cols[di].cells[r];
            match a {
                Value::Int(x) => match b {
                    Value::Int(y) => {
                        if *x >= 0 && *y > 0 {
                            match x.checked_mul(NUM_SCALE) {
                                Some(p) => {
                                    let q = ((p as u64) / (*y as u64)) as i64;
                                    proof {
                                        assert(p as int == (*x as int) * (NUM_SCALE as int));
                                        assert((p as u64) / (*y as u64) == (p as int) / (
                                        *y as int));
                                        assert((p as int) / (*y as int) <= p as int) by {
                                            vstd::arithmetic::div_mod::lemma_div_is_ordered_by_denominator(
                                                p as int,
                                                1,
                                                *y as int,
                                            );
                                        }
                                        assert(0 <= (p as int) / (*y as int));
                                    }
                                    Value::Num(q)
                                },
                                None => {
                                    proof {
                                        assert(ratio_cell(
                                            t@.rows()[r as int][ni as int],
                                            t@.rows()[r as int][di as int],
                                        ) is None);
                                    }
                                    return Err(Error::Overflow);
                                },
                            }
                        } else {
                            Value::Null
                        }
                    },
                    _ => Value::Null,
                },
                _ => Value::Null,
            }
        };
        proof {
            assert(ratio_cell(t@.row(r as int)[ni as int], t@.row(r as int)[di as int]) is Some);
            assert(ratio@ == ratio_cell(
                t@.row(r as int)[ni as int],
                t@.row(r as int)[di as int],
            )->0);
        }
        row.push(ratio);
        proof {
            assert forall|cc: int| 0 <= cc < row.deep_view().len() implies row.deep_view()[cc]
                == target[r as int][cc] by {
                assert(target[r as int] == t@.rows()[r as int].push(
                    ratio_cell(
                        t@.rows()[r as int][ni as int],
                        t@.rows()[r as int][di as int],
                    )->0,
                ));
                assert(row@[cc]@ == row.deep_view()[cc]);
                if cc < t@.cols.len() {
                    assert(row@[cc]@ == t@.row(r as int)[cc]);
                }
            }
            assert(row.deep_view() =~= target[r as int]);
        }
        push_row(&mut rows_out, row);
        proof {
            assert(rows_out.deep_view() =~= target.take(r as int + 1));
        }
        r += 1;
    }
    let ghost oschema = t@.schema().push((out_name@, ColType::Num));
    proof {
        assert(target.take(t@.nrows) =~= target);
        crate::ops::lemma_wf_schema(t@);
        assert forall|a: int, b: int| 0 <= a < b < oschema.len() implies oschema[a].0
            != oschema[b].0 by {
            if b < oschema.len() - 1 {
                assert(t@.schema()[a].0 != t@.schema()[b].0);
            } else {
                assert(t@.schema()[a].0 != out_name@);
            }
        }
        assert forall|rr: int, cc: int|
            0 <= rr < target.len() && 0 <= cc < oschema.len() implies cell_ok(
            oschema[cc].1,
            #[trigger] target[rr][cc],
        ) by {
            assert(t@.rows()[rr].len() == t@.cols.len());
            if cc < oschema.len() - 1 {
                assert(target[rr][cc] == t@.rows()[rr][cc]);
                assert(t@.rows()[rr][cc] == t@.cols[cc].cells[rr]);
                assert(cell_ok(t@.cols[cc].ty, t@.cols[cc].cells[rr]));
            } else {
                assert(ratio_cell(t@.rows()[rr][ni as int], t@.rows()[rr][di as int]) is Some);
            }
        }
        assert forall|rr: int| 0 <= rr < target.len() implies (#[trigger] target[rr]).len()
            == oschema.len() by {
            assert(t@.rows()[rr].len() == t@.cols.len());
        }
    }
    let mut schema = t.schema_fields();
    schema.push(Field { name: out_name.clone(), ty: ColType::Num });
    proof {
        assert forall|j: int| 0 <= j < schema.deep_view().len() implies schema.deep_view()[j]
            == oschema[j] by {
            if j < t@.schema().len() {
                assert(schema@[j]@ == t@.schema()[j]);
            } else {
                assert(schema@[j]@ == (out_name@, ColType::Num));
            }
        }
        assert(schema.deep_view() =~= oschema);
    }
    let out = from_rows(schema, &rows_out);
    proof {
        assert(out@ =~~= table_of(oschema, target));
    }
    Ok(out)
}

} // verus!
