//! Grouped aggregation: partition rows by a tuple of key columns and apply
//! count and sum expressions per group.

use vstd::prelude::*;
use crate::table::{
    Table, TableV, Field, idx_of, lemma_idx_of, table_of, lemma_table_of, distinct_names, rows_ok,
    from_rows,
};
use crate::value::{Value, ValueV, ColType, cell_ok, val_eq};
use crate::errors::{Error, ErrorV};
use crate::ops::{
    push_row, select_err, select_schema, lemma_select_err_hit, lemma_select_err_extend,
    lemma_select_err_persist, lemma_select_err_none, lemma_wf_schema,
};
use crate::join::{
    dup_err, lemma_dup_err_hit, lemma_dup_err_extend, lemma_dup_err_persist, lemma_dup_err_none,
};
use crate::seqs::{mask_seq, lemma_mask_take_step, lemma_mask_len, count_true, sum_ints};

verus! {

/// One aggregate expression, with the name of its output column.
#[derive(Debug)]
pub enum AggExpr {
    /// The number of rows in the group.
    Count { out: String },
    /// The sum of the named numeric column over the group, skipping nulls.
    Sum { col: String, out: String },
}

/// Mathematical model of an aggregate expression.
pub ghost enum AggV {
    Count(Seq<char>),
    Sum(Seq<char>, Seq<char>),
}

impl View for AggExpr {
    type V = AggV;

    open spec fn view(&self) -> AggV {
        match self {
            AggExpr::Count { out } => AggV::Count(out@),
            AggExpr::Sum { col, out } => AggV::Sum(col@, out@),
        }
    }
}

impl DeepView for AggExpr {
    type V = AggV;

    open spec fn deep_view(&self) -> AggV {
        self@
    }
}

/// The output column name of an aggregate expression.
pub open spec fn agg_out(a: AggV) -> Seq<char> {
    match a {
        AggV::Count(out) => out,
        AggV::Sum(col, out) => out,
    }
}

/// Positions of the group-key columns in the schema.
pub open spec fn kidxs_of(schema: Seq<(Seq<char>, ColType)>, keys: Seq<Seq<char>>) -> Seq<int> {
    keys.map_values(|n: Seq<char>| idx_of(schema, n))
}

/// The group-key tuple of one row.
pub open spec fn key_of(row: Seq<ValueV>, kidxs: Seq<int>) -> Seq<ValueV> {
    kidxs.map_values(|i: int| row[i])
}

/// The group-key tuple of every row, in row order.
pub open spec fn krows_of(rows: Seq<Seq<ValueV>>, kidxs: Seq<int>) -> Seq<Seq<ValueV>> {
    rows.map_values(|row: Seq<ValueV>| key_of(row, kidxs))
}

/// The distinct key tuples in first-encounter order.
pub open spec fn distinct_keys(ks: Seq<Seq<ValueV>>) -> Seq<Seq<ValueV>>
    decreases ks.len(),
{
    if ks.len() == 0 {
        Seq::empty()
    } else {
        let d = distinct_keys(ks.drop_last());
        if d.contains(ks.last()) {
            d
        } else {
            d.push(ks.last())
        }
    }
}

/// How many rows carry the given key tuple.
pub open spec fn count_eq(ks: Seq<Seq<ValueV>>, key: Seq<ValueV>) -> int
    decreases ks.len(),
{
    if ks.len() == 0 {
        0
    } else {
        count_eq(ks.drop_last(), key) + if ks.last() == key {
            1int
        } else {
            0int
        }
    }
}

/// Which rows belong to the group of `key`.
pub open spec fn group_mask(ks: Seq<Seq<ValueV>>, key: Seq<ValueV>) -> Seq<bool> {
    Seq::new(ks.len(), |r: int| ks[r] == key)
}

/// The rows of one group, in row order.
pub open spec fn group_of(rows: Seq<Seq<ValueV>>, ks: Seq<Seq<ValueV>>, key: Seq<ValueV>) -> Seq<
    Seq<ValueV>,
> {
    mask_seq(rows, group_mask(ks, key))
}

/// Sum of column `ci` over the group's rows, skipping nulls; `None` as soon
/// as a partial sum leaves the 64-bit range.
pub open spec fn sum_cells(group: Seq<Seq<ValueV>>, ci: int) -> Option<int>
    decreases group.len(),
{
    if group.len() == 0 {
        Some(0)
    } else {
        match sum_cells(group.drop_last(), ci) {
            None => None,
            Some(s) => match group.last()[ci] {
                ValueV::Int(x) => if i64::MIN <= s + x <= i64::MAX {
                    Some(s + x)
                } else {
                    None
                },
                ValueV::Num(x) => if i64::MIN <= s + x <= i64::MAX {
                    Some(s + x)
                } else {
                    None
                },
                _ => Some(s),
            },
        }
    }
}

/// The output type of an aggregate expression.
pub open spec fn agg_ty(schema: Seq<(Seq<char>, ColType)>, a: AggV) -> ColType {
    match a {
        AggV::Count(out) => ColType::Int,
        AggV::Sum(col, out) => schema[idx_of(schema, col)].1,
    }
}

/// The value of one aggregate over one group; `None` when it cannot be
/// represented as a 64-bit value.
pub open spec fn agg_val(
    schema: Seq<(Seq<char>, ColType)>,
    rows: Seq<Seq<ValueV>>,
    ks: Seq<Seq<ValueV>>,
    key: Seq<ValueV>,
    a: AggV,
) -> Option<ValueV> {
    match a {
        AggV::Count(out) => {
            if group_of(rows, ks, key).len() <= i64::MAX {
                Some(ValueV::Int(group_of(rows, ks, key).len() as int))
            } else {
                None
            }
        },
        AggV::Sum(col, out) => {
            let ci = idx_of(schema, col);
            match sum_cells(group_of(rows, ks, key), ci) {
                None => None,
                Some(s) => if schema[ci].1 == ColType::Num {
                    Some(ValueV::Num(s))
                } else {
                    Some(ValueV::Int(s))
                },
            }
        },
    }
}

/// First invalid aggregate expression, scanning left to right: a sum over an
/// unknown column, or over a column that is not numeric.
pub open spec fn aggs_err(schema: Seq<(Seq<char>, ColType)>, aggs: Seq<AggV>) -> Option<ErrorV>
    decreases aggs.len(),
{
    if aggs.len() == 0 {
        None
    } else {
        match aggs_err(schema, aggs.drop_last()) {
            Some(e) => Some(e),
            None => match aggs.last() {
                AggV::Count(out) => None,
                AggV::Sum(col, out) => {
                    let ci = idx_of(schema, col);
                    if ci < 0 {
                        Some(ErrorV::Plan(col))
                    } else if !(schema[ci].1 == ColType::Int || schema[ci].1 == ColType::Num) {
                        Some(ErrorV::TypeErr(col))
                    } else {
                        None
                    }
                },
            },
        }
    }
}

pub proof fn lemma_aggs_err_persist(schema: Seq<(Seq<char>, ColType)>, aggs: Seq<AggV>, k: int)
    requires
        0 <= k <= aggs.len(),
        aggs_err(schema, aggs.take(k)) is Some,
    ensures
        aggs_err(schema, aggs) == aggs_err(schema, aggs.take(k)),
    decreases aggs.len() - k,
{
    if k < aggs.len() {
        assert(aggs.take(k + 1).drop_last() =~= aggs.take(k));
        lemma_aggs_err_persist(schema, aggs, k + 1);
    } else {
        assert(aggs.take(k) =~= aggs);
    }
}

pub proof fn lemma_aggs_err_step(schema: Seq<(Seq<char>, ColType)>, aggs: Seq<AggV>, k: int)
    requires
        0 <= k < aggs.len(),
        aggs_err(schema, aggs.take(k)) is None,
    ensures
        aggs_err(schema, aggs.take(k + 1)) == (match aggs[k] {
            AggV::Count(out) => None::<ErrorV>,
            AggV::Sum(col, out) => {
                let ci = idx_of(schema, col);
                if ci < 0 {
                    Some(ErrorV::Plan(col))
                } else if !(schema[ci].1 == ColType::Int || schema[ci].1 == ColType::Num) {
                    Some(ErrorV::TypeErr(col))
                } else {
                    None
                }
            },
        }),
{
    assert(aggs.take(k + 1).drop_last() =~= aggs.take(k));
    assert(aggs.take(k + 1).last() == aggs[k]);
    assert(aggs_err(schema, aggs.take(k + 1).drop_last()) is None);
}

/// The names of the output columns: the key names, then each aggregate's
/// output name.
pub open spec fn out_names(keys: Seq<Seq<char>>, aggs: Seq<AggV>) -> Seq<Seq<char>> {
    keys + aggs.map_values(|a: AggV| agg_out(a))
}

/// The output schema: the key columns with their upstream types, then one
/// column per aggregate.
pub open spec fn agg_schema(
    schema: Seq<(Seq<char>, ColType)>,
    keys: Seq<Seq<char>>,
    aggs: Seq<AggV>,
) -> Seq<(Seq<char>, ColType)> {
    select_schema(schema, keys) + aggs.map_values(|a: AggV| (agg_out(a), agg_ty(schema, a)))
}

/// One output row: the group's key tuple followed by its aggregate values.
pub open spec fn agg_row(
    schema: Seq<(Seq<char>, ColType)>,
    rows: Seq<Seq<ValueV>>,
    ks: Seq<Seq<ValueV>>,
    key: Seq<ValueV>,
    aggs: Seq<AggV>,
) -> Seq<ValueV> {
    key + aggs.map_values(|a: AggV| agg_val(schema, rows, ks, key, a)->0)
}

/// All output rows, one per distinct key tuple, in first-encounter order.
pub open spec fn agg_rows(
    schema: Seq<(Seq<char>, ColType)>,
    rows: Seq<Seq<ValueV>>,
    ks: Seq<Seq<ValueV>>,
    aggs: Seq<AggV>,
) -> Seq<Seq<ValueV>> {
    distinct_keys(ks).map_values(|key: Seq<ValueV>| agg_row(schema, rows, ks, key, aggs))
}

/// Grouped aggregation. It fails exactly when a group key is unknown or
/// repeated, an aggregate is invalid, an output name repeats, or a value
/// cannot be represented in 64 bits. The order of the output groups is the
/// order in which each key tuple is first encountered.
pub open spec fn spec_aggregate(t: TableV, keys: Seq<Seq<char>>, aggs: Seq<AggV>) -> Result<
    TableV,
    ErrorV,
> {
    let schema = t.schema();
    let ks = krows_of(t.rows(), kidxs_of(schema, keys));
    match select_err(schema, keys) {
        Some(n) => Err(ErrorV::Plan(n)),
        None => match aggs_err(schema, aggs) {
            Some(e) => Err(e),
            None => match dup_err(out_names(keys, aggs)) {
                Some(n) => Err(ErrorV::Plan(n)),
                None => {
                    if exists|gi: int, ai: int|
                        0 <= gi < distinct_keys(ks).len() && 0 <= ai < aggs.len() && agg_val(
                            schema,
                            t.rows(),
                            ks,
                            distinct_keys(ks)[gi],
                            aggs[ai],
                        ) is None {
                        Err(ErrorV::Overflow)
                    } else {
                        Ok(
                            table_of(
                                agg_schema(schema, keys, aggs),
                                agg_rows(schema, t.rows(), ks, aggs),
                            ),
                        )
                    }
                },
            },
        },
    }
}

/// Equality of two key tuples.
pub fn keys_eq(a: &Vec<Value>, b: &Vec<Value>) -> (r: bool)
    ensures
        r == (a.deep_view() == b.deep_view()),
{
    if a.len() != b.len() {
        proof {
            assert(a.deep_view().len() != b.deep_view().len());
        }
        return false;
    }
    let mut i: usize = 0;
    while i < a.len()
        invariant
            a@.len() == b@.len(),
            0 <= i <= a@.len(),
            forall|j: int| 0 <= j < i ==> a.deep_view()[j] == b.deep_view()[j],
        decreases a@.len() - i,
    {
        if !val_eq(&a[i], &b[i]) {
            proof {
                assert(a.deep_view()[i as int] != b.deep_view()[i as int]);
            }
            return false;
        }
        proof {
            assert(a.deep_view()[i as int] == b.deep_view()[i as int]);
        }
        i += 1;
    }
    proof {
        assert(a.deep_view() =~= b.deep_view());
    }
    true
}

/// One group's row count is the number of rows that carry its key.
pub proof fn lemma_group_size(
    rows: Seq<Seq<ValueV>>,
    ks: Seq<Seq<ValueV>>,
    key: Seq<ValueV>,
)
    requires
        rows.len() == ks.len(),
    ensures
        group_of(rows, ks, key).len() == count_eq(ks, key),
    decreases rows.len(),
{
    if rows.len() > 0 {
        assert(group_mask(ks, key).drop_last() =~= group_mask(ks.drop_last(), key));
        lemma_group_size(rows.drop_last(), ks.drop_last(), key);
        lemma_mask_len(rows, group_mask(ks, key));
        lemma_mask_len(rows.drop_last(), group_mask(ks.drop_last(), key));
        assert(count_true(group_mask(ks, key)) == count_true(group_mask(ks.drop_last(), key))
            + if ks.last() == key {
            1int
        } else {
            0int
        });
    } else {
        lemma_mask_len(rows, group_mask(ks, key));
    }
}

/// Every key the distinct list holds occurs among the keys, and conversely;
/// the distinct list is duplicate-free; and the group sizes sum to the row
/// count: the groups partition the rows.
pub proof fn lemma_group_partition(ks: Seq<Seq<ValueV>>)
    ensures
        forall|i: int| 0 <= i < ks.len() ==> distinct_keys(ks).contains(#[trigger] ks[i]),
        forall|g: int|
            0 <= g < distinct_keys(ks).len() ==> ks.contains(#[trigger] distinct_keys(ks)[g]),
        forall|a: int, b: int|
            0 <= a < b < distinct_keys(ks).len() ==> distinct_keys(ks)[a] != distinct_keys(ks)[b],
        sum_ints(group_sizes(ks)) == ks.len(),
    decreases ks.len(),
{
    if ks.len() > 0 {
        let kp = ks.drop_last();
        lemma_group_partition(kp);
        let d = distinct_keys(ks);
        let dp = distinct_keys(kp);
        assert forall|i: int| 0 <= i < ks.len() implies d.contains(#[trigger] ks[i]) by {
            if i < ks.len() - 1 {
                assert(dp.contains(kp[i]));
                let g = choose|g: int| 0 <= g < dp.len() && dp[g] == kp[i];
                assert(d[g] == dp[g]);
            } else {
                if dp.contains(ks.last()) {
                    let g = choose|g: int| 0 <= g < dp.len() && dp[g] == ks.last();
                    assert(d[g] == ks.last());
                } else {
                    assert(d[d.len() - 1] == ks.last());
                }
            }
        }
        assert forall|g: int| 0 <= g < d.len() implies ks.contains(#[trigger] d[g]) by {
            if g < dp.len() {
                assert(kp.contains(dp[g]));
                let i = choose|i: int| 0 <= i < kp.len() && kp[i] == dp[g];
                assert(ks[i] == d[g]);
            } else {
                assert(d[g] == ks.last());
                assert(ks[ks.len() - 1] == d[g]);
            }
        }
        assert forall|a: int, b: int| 0 <= a < b < d.len() implies d[a] != d[b] by {
            if b < dp.len() {
                assert(dp[a] != dp[b]);
            } else if d.len() > dp.len() {
                assert(d[b] == ks.last());
                assert(!dp.contains(ks.last()));
                assert(dp[a] == d[a]);
            }
        }
        // the sums
        let u = group_sizes(kp);
        let key = ks.last();
        if dp.contains(key) {
            let g0 = choose|g0: int| 0 <= g0 < dp.len() && dp[g0] == key;
            assert forall|g: int| 0 <= g < d.len() && g != g0 implies #[trigger] group_sizes(
                ks,
            )[g] == u[g] by {
                assert(d[g] == dp[g]);
                lemma_count_eq_step(ks, dp[g]);
                assert(dp[g] != key) by {
                    if dp[g] == key {
                        assert(dp[g] == dp[g0]);
                    }
                }
            }
            assert(group_sizes(ks)[g0] == u[g0] + 1) by {
                lemma_count_eq_step(ks, key);
            }
            lemma_sum_increment(u, group_sizes(ks), g0);
        } else {
            lemma_count_eq_zero(kp, key);
            assert(d == dp.push(key));
            assert forall|g: int| 0 <= g < dp.len() implies #[trigger] group_sizes(ks)[g]
                == u[g] by {
                assert(d[g] == dp[g]);
                lemma_count_eq_step(ks, dp[g]);
                assert(dp[g] != key) by {
                    if dp[g] == key {
                        assert(kp.contains(dp[g]));
                        let i = choose|i: int| 0 <= i < kp.len() && kp[i] == dp[g];
                        lemma_contains_count(kp, key, i);
                    }
                }
            }
            assert(group_sizes(ks).last() == 1) by {
                lemma_count_eq_step(ks, key);
            }
            assert(group_sizes(ks).drop_last() =~= group_sizes(ks).take(dp.len() as int));
            assert forall|g: int| 0 <= g < dp.len() implies group_sizes(ks).drop_last()[g]
                == u[g] by {}
            assert(group_sizes(ks).drop_last() =~= u);
            assert(sum_ints(group_sizes(ks)) == sum_ints(u) + 1);
        }
    } else {
        assert(group_sizes(ks) =~= Seq::<int>::empty());
    }
}

/// The size of each group, in the distinct list's order.
pub open spec fn group_sizes(ks: Seq<Seq<ValueV>>) -> Seq<int> {
    distinct_keys(ks).map_values(|key: Seq<ValueV>| count_eq(ks, key))
}

pub proof fn lemma_count_eq_step(ks: Seq<Seq<ValueV>>, key: Seq<ValueV>)
    requires
        ks.len() > 0,
    ensures
        count_eq(ks, key) == count_eq(ks.drop_last(), key) + if ks.last() == key {
            1int
        } else {
            0int
        },
{
}

pub proof fn lemma_count_eq_zero(ks: Seq<Seq<ValueV>>, key: Seq<ValueV>)
    requires
        !ks.contains(key),
    ensures
        count_eq(ks, key) == 0,
    decreases ks.len(),
{
    if ks.len() > 0 {
        assert(!ks.drop_last().contains(key)) by {
            if ks.drop_last().contains(key) {
                let i = choose|i: int| 0 <= i < ks.len() - 1 && ks.drop_last()[i] == key;
                assert(ks[i] == key);
            }
        }
        lemma_count_eq_zero(ks.drop_last(), key);
        assert(ks[ks.len() - 1] != key);
    }
}

pub proof fn lemma_contains_count(ks: Seq<Seq<ValueV>>, key: Seq<ValueV>, i: int)
    requires
        0 <= i < ks.len(),
        ks[i] == key,
    ensures
        ks.contains(key),
{
}

/// Changing one entry of a sequence by one changes the sum by one.
pub proof fn lemma_sum_increment(u: Seq<int>, v: Seq<int>, g0: int)
    requires
        u.len() == v.len(),
        0 <= g0 < u.len(),
        v[g0] == u[g0] + 1,
        forall|g: int| 0 <= g < u.len() && g != g0 ==> v[g] == u[g],
    ensures
        sum_ints(v) == sum_ints(u) + 1,
    decreases u.len(),
{
    if g0 == u.len() - 1 {
        assert(u.drop_last() =~= v.drop_last());
    } else {
        lemma_sum_increment(u.drop_last(), v.drop_last(), g0);
        assert(u.last() == v.last());
    }
}

/// A mask splits at any position.
pub proof fn lemma_mask_split<A>(s: Seq<A>, keep: Seq<bool>, j: int)
    requires
        s.len() == keep.len(),
        0 <= j <= s.len(),
    ensures
        mask_seq(s, keep) == mask_seq(s.take(j), keep.take(j)) + mask_seq(
            s.skip(j),
            keep.skip(j),
        ),
    decreases s.len() - j,
{
    if j == s.len() {
        assert(s.take(j) =~= s);
        assert(keep.take(j) =~= keep);
        assert(s.skip(j) =~= Seq::<A>::empty());
        assert(keep.skip(j) =~= Seq::<bool>::empty());
        assert(mask_seq(s.skip(j), keep.skip(j)) =~= Seq::<A>::empty());
        assert(mask_seq(s, keep) =~= mask_seq(s.take(j), keep.take(j)) + mask_seq(
            s.skip(j),
            keep.skip(j),
        ));
    } else {
        lemma_mask_take_step(s, keep, j);
        lemma_mask_split(s, keep, j + 1);
        assert(s.skip(j).drop_first() =~= s.skip(j + 1));
        assert(keep.skip(j).drop_first() =~= keep.skip(j + 1));
        lemma_mask_first(s.skip(j), keep.skip(j));
        assert(mask_seq(s.skip(j), keep.skip(j)) == (if keep[j] {
            seq![s[j]]
        } else {
            Seq::<A>::empty()
        }) + mask_seq(s.skip(j + 1), keep.skip(j + 1)));
        assert(mask_seq(s.take(j + 1), keep.take(j + 1)) == mask_seq(s.take(j), keep.take(j)) + (
        if keep[j] {
            seq![s[j]]
        } else {
            Seq::<A>::empty()
        }));
        assert(mask_seq(s, keep) =~= mask_seq(s.take(j), keep.take(j)) + mask_seq(
            s.skip(j),
            keep.skip(j),
        ));
    }
}

/// A mask peels off its first element.
pub proof fn lemma_mask_first<A>(s: Seq<A>, keep: Seq<bool>)
    requires
        s.len() == keep.len(),
        s.len() > 0,
    ensures
        mask_seq(s, keep) == (if keep[0] {
            seq![s[0]]
        } else {
            Seq::<A>::empty()
        }) + mask_seq(s.drop_first(), keep.drop_first()),
    decreases s.len(),
{
    if s.len() == 1 {
        assert(s.drop_first() =~= Seq::<A>::empty());
        assert(keep.drop_first() =~= Seq::<bool>::empty());
        assert(s.drop_last() =~= Seq::<A>::empty());
        assert(keep.drop_last() =~= Seq::<bool>::empty());
        assert(mask_seq(s, keep) =~= (if keep[0] {
            seq![s[0]]
        } else {
            Seq::<A>::empty()
        }) + mask_seq(s.drop_first(), keep.drop_first()));
    } else {
        lemma_mask_first(s.drop_last(), keep.drop_last());
        assert(s.drop_last().drop_first() =~= s.drop_first().drop_last());
        assert(keep.drop_last().drop_first() =~= keep.drop_first().drop_last());
        assert(s.drop_last()[0] == s[0]);
        assert(keep.drop_last()[0] == keep[0]);
        assert(s.drop_first().last() == s.last());
        assert(keep.drop_first().last() == keep.last());
        assert(mask_seq(s, keep) =~= (if keep[0] {
            seq![s[0]]
        } else {
            Seq::<A>::empty()
        }) + mask_seq(s.drop_first(), keep.drop_first()));
    }
}

/// A failed partial sum never recovers.
pub proof fn lemma_sum_cells_none(a: Seq<Seq<ValueV>>, b: Seq<Seq<ValueV>>, ci: int)
    requires
        sum_cells(a, ci) is None,
    ensures
        sum_cells(a + b, ci) is None,
    decreases b.len(),
{
    if b.len() == 0 {
        assert(a + b =~= a);
    } else {
        lemma_sum_cells_none(a, b.drop_last(), ci);
        assert((a + b).drop_last() =~= a + b.drop_last());
        assert((a + b).len() > 0);
    }
}


/// Valid aggregate lists name existing numeric columns in every sum.
pub proof fn lemma_aggs_err_none(schema: Seq<(Seq<char>, ColType)>, aggs: Seq<AggV>)
    requires
        aggs_err(schema, aggs) is None,
    ensures
        forall|a: int|
            0 <= a < aggs.len() ==> ((#[trigger] aggs[a]) matches AggV::Sum(col, out)
                ==> idx_of(schema, col) >= 0 && (schema[idx_of(schema, col)].1 == ColType::Int
                || schema[idx_of(schema, col)].1 == ColType::Num)),
    decreases aggs.len(),
{
    if aggs.len() > 0 {
        lemma_aggs_err_none(schema, aggs.drop_last());
        assert forall|a: int|
            0 <= a < aggs.len() implies ((#[trigger] aggs[a]) matches AggV::Sum(col, out)
                ==> idx_of(schema, col) >= 0 && (schema[idx_of(schema, col)].1 == ColType::Int
                || schema[idx_of(schema, col)].1 == ColType::Num)) by {
            if a < aggs.len() - 1 {
                assert(aggs.drop_last()[a] == aggs[a]);
            }
        }
    }
}

/// Materialize a grouped aggregation of `t`.
#[verifier::rlimit(100)]
pub fn aggregate_table(t: &Table, keys: &Vec<String>, aggs: &Vec<AggExpr>) -> (res: Result<
    Table,
    Error,
>)
    requires
        t.wf(),
    ensures
        match res {
            Ok(out) => {
                &&& spec_aggregate(t@, keys.deep_view(), aggs.deep_view()) is Ok
                &&& out@ == spec_aggregate(t@, keys.deep_view(), aggs.deep_view())->Ok_0
                &&& out.wf()
            },
            Err(e) => spec_aggregate(t@, keys.deep_view(), aggs.deep_view()) == Err::<TableV, ErrorV>(e@),
        },
{
    let ghost sv = t@.schema();
    let ghost kv = keys.deep_view();
    let ghost av = aggs.deep_view();
    // group-key columns: existing and not repeated
    let mut idxs: Vec<usize> = Vec::new();
    let mut k: usize = 0;
    while k < keys.len()
        invariant
            t.wf(),
            sv == t@.schema(),
            kv == keys.deep_view(),
            0 <= k <= keys.len(),
            select_err(sv, kv.take(k as int)) is None,
            idxs@.len() == k,
            forall|j: int| 0 <= j < k ==> idxs@[j] as int == idx_of(sv, kv[j]),
            forall|j: int| 0 <= j < k ==> idx_of(sv, #[trigger] kv[j]) >= 0,
        decreases keys.len() - k,
    {
        let i = match t.find_col(&keys[k]) {
            Some(i) => i,
            None => {
                proof {
                    assert(kv[k as int] == keys@[k as int]@);
                    lemma_select_err_hit(sv, kv, k as int);
                }
                return Err(Error::Plan { col: keys[k].clone() });
            },
        };
        let mut j: usize = 0;
        while j < k
            invariant
                t.wf(),
                sv == t@.schema(),
                kv == keys.deep_view(),
                0 <= j <= k < keys@.len(),
                select_err(sv, kv.take(k as int)) is None,
                forall|jj: int| 0 <= jj < j ==> kv[jj] != kv[k as int],
            decreases k - j,
        {
            if keys[j] == keys[k] {
                proof {
                    assert(kv[k as int] == keys@[k as int]@);
                    assert(kv.take(k as int).contains(kv[k as int])) by {
                        assert(kv.take(k as int)[j as int] == kv[k as int]);
                    }
                    lemma_select_err_hit(sv, kv, k as int);
                }
                return Err(Error::Plan { col: keys[k].clone() });
            }
            j += 1;
        }
        proof {
            assert(!kv.take(k as int).contains(kv[k as int])) by {
                if kv.take(k as int).contains(kv[k as int]) {
                    let jj = choose|jj: int| 0 <= jj < k && kv.take(k as int)[jj] == kv[k as int];
                    assert(kv[jj] == kv[k as int]);
                }
            }
            assert(kv[k as int] == keys@[k as int]@);
            lemma_select_err_extend(sv, kv, k as int);
        }
        idxs.push(i);
        k += 1;
    }
    proof {
        assert(kv.take(keys@.len() as int) =~= kv);
    }
    // aggregate expressions: sums over existing numeric columns
    let mut a: usize = 0;
    while a < aggs.len()
        invariant
            t.wf(),
            sv == t@.schema(),
            kv == keys.deep_view(),
            av == aggs.deep_view(),
            select_err(sv, kv) is None,
            0 <= a <= aggs.len(),
            aggs_err(sv, av.take(a as int)) is None,
        decreases aggs.len() - a,
    {
        proof {
            lemma_aggs_err_step(sv, av, a as int);
            assert(av[a as int] == aggs@[a as int]@);
        }
        match &aggs[a] {
            AggExpr::Count { out } => {},
            AggExpr::Sum { col, out } => {
                match t.find_col(col) {
                    Some(ci) => {
                        proof {
                            lemma_idx_of(sv, col@);
                            assert(sv[ci as int] == (t@.cols[ci as int].name,
                                t@.cols[ci as int].ty));
                        }
                        let numeric = match t.cols[ci].ty {
                            ColType::Int => true,
                            ColType::Num => true,
                            _ => false,
                        };
                        if !numeric {
                            proof {
                                lemma_aggs_err_persist(sv, av, a as int + 1);
                            }
                            return Err(Error::TypeErr { col: col.clone() });
                        }
                    },
                    None => {
                        proof {
                            lemma_aggs_err_persist(sv, av, a as int + 1);
                        }
                        return Err(Error::Plan { col: col.clone() });
                    },
                }
            },
        }
        a += 1;
    }
    proof {
        assert(av.take(aggs@.len() as int) =~= av);
    }
    // output names: pairwise distinct
    let ghost onv = out_names(kv, av);
    let mut outn: Vec<String> = Vec::new();
    let mut k: usize = 0;
    while k < keys.len()
        invariant
            kv == keys.deep_view(),
            0 <= k <= keys.len(),
            outn@.len() == k,
            forall|j: int| 0 <= j < k ==> outn@[j]@ == kv[j],
        decreases keys.len() - k,
    {
        outn.push(keys[k].clone());
        k += 1;
    }
    let mut a: usize = 0;
    while a < aggs.len()
        invariant
            kv == keys.deep_view(),
            av == aggs.deep_view(),
            0 <= a <= aggs.len(),
            outn@.len() == keys@.len() + a,
            forall|j: int| 0 <= j < keys@.len() ==> outn@[j]@ == kv[j],
            forall|j: int| 0 <= j < a ==> outn@[keys@.len() + j]@ == agg_out(av[j]),
        decreases aggs.len() - a,
    {
        proof {
            assert(av[a as int] == aggs@[a as int]@);
        }
        match &aggs[a] {
            AggExpr::Count { out } => {
                outn.push(out.clone());
            },
            AggExpr::Sum { col, out } => {
                outn.push(out.clone());
            },
        }
        a += 1;
    }
    proof {
        assert forall|j: int| 0 <= j < onv.len() implies outn@[j]@ == onv[j] by {
            if j < kv.len() {
                assert(onv[j] == kv[j]);
            } else {
                assert(onv[j] == agg_out(av[j - kv.len()]));
            }
        }
    }
    let mut k: usize = 0;
    while k < outn.len()
        invariant
            t.wf(),
            sv == t@.schema(),
            kv == keys.deep_view(),
            av == aggs.deep_view(),
            onv == out_names(kv, av),
            select_err(sv, kv) is None,
            aggs_err(sv, av) is None,
            0 <= k <= outn@.len(),
            outn@.len() == onv.len(),
            forall|j: int| 0 <= j < onv.len() ==> outn@[j]@ == #[trigger] onv[j],
            dup_err(onv.take(k as int)) is None,
        decreases outn.len() - k,
    {
        let mut j: usize = 0;
        while j < k
            invariant
                t.wf(),
                sv == t@.schema(),
                kv == keys.deep_view(),
                av == aggs.deep_view(),
                onv == out_names(kv, av),
                select_err(sv, kv) is None,
                aggs_err(sv, av) is None,
                0 <= j <= k < outn@.len(),
                outn@.len() == onv.len(),
                forall|jj: int| 0 <= jj < onv.len() ==> outn@[jj]@ == #[trigger] onv[jj],
                dup_err(onv.take(k as int)) is None,
                forall|jj: int| 0 <= jj < j ==> onv[jj] != onv[k as int],
            decreases k - j,
        {
            if outn[j] == outn[k] {
                proof {
                    assert(onv.take(k as int).contains(onv[k as int])) by {
                        assert(onv.take(k as int)[j as int] == onv[k as int]);
                    }
                    lemma_dup_err_hit(onv, k as int);
                }
                return Err(Error::Plan { col: outn[k].clone() });
            }
            j += 1;
        }
        proof {
            assert(!onv.take(k as int).contains(onv[k as int])) by {
                if onv.take(k as int).contains(onv[k as int]) {
                    let jj = choose|jj: int| 0 <= jj < k && onv.take(k as int)[jj] == onv[k as int];
                    assert(onv[jj] == onv[k as int]);
                }
            }
            lemma_dup_err_extend(onv, k as int);
        }
        k += 1;
    }
    proof {
        assert(onv.take(onv.len() as int) =~= onv);
    }
    // first pass: the key tuple of every row, and the distinct tuples in
    // first-encounter order
    let ghost kidxs = kidxs_of(sv, kv);
    proof {
        assert forall|j: int| 0 <= j < kv.len() implies kidxs[j] == idxs@[j] as int by {}
    }
    let ghost rows = t@.rows();
    let ghost ks = krows_of(rows, kidxs);
    let mut kr_vec: Vec<Vec<Value>> = Vec::new();
    let mut keysv: Vec<Vec<Value>> = Vec::new();
    let mut r: usize = 0;
    while r < t.nrows
        invariant
            t.wf(),
            sv == t@.schema(),
            kv == keys.deep_view(),
            rows == t@.rows(),
            ks == krows_of(rows, kidxs),
            kidxs == kidxs_of(sv, kv),
            0 <= r <= t@.nrows,
            idxs@.len() == kv.len(),
            forall|j: int| 0 <= j < kv.len() ==> idxs@[j] as int == idx_of(sv, kv[j]),
            forall|j: int| 0 <= j < kv.len() ==> idx_of(sv, #[trigger] kv[j]) >= 0,
            kr_vec.deep_view() == ks.take(r as int),
            keysv.deep_view() == distinct_keys(ks.take(r as int)),
        decreases t@.nrows - r,
    {
        let mut keyrow: Vec<Value> = Vec::new();
        let mut j: usize = 0;
        while j < idxs.len()
            invariant
                t.wf(),
                sv == t@.schema(),
                kv == keys.deep_view(),
                rows == t@.rows(),
                kidxs == kidxs_of(sv, kv),
                0 <= r < t@.nrows,
                idxs@.len() == kv.len(),
                forall|jj: int| 0 <= jj < kv.len() ==> idxs@[jj] as int == idx_of(sv, kv[jj]),
                forall|jj: int| 0 <= jj < kv.len() ==> idx_of(sv, #[trigger] kv[jj]) >= 0,
                0 <= j <= idxs@.len(),
                keyrow@.len() == j,
                forall|jj: int| 0 <= jj < j ==> keyrow@[jj]@ == t@.row(r as int)[kidxs[jj]],
            decreases idxs@.len() - j,
        {
            proof {
                lemma_idx_of(sv, kv[j as int]);
                assert(kidxs[j as int] == idxs@[j as int] as int);
                assert(t@.cols[idxs@[j as int] as int].cells.len() == t@.nrows);
                assert(t@.row(r as int)[idxs@[j as int] as int] == t@.cols[idxs@[j as int] as int]
                    .cells[r as int]);
            }
            let i = idxs[j];
            keyrow.push(t.cols[i].cells[r].duplicate());
            j += 1;
        }
        proof {
            assert forall|jj: int| 0 <= jj < keyrow.deep_view().len() implies keyrow.deep_view()[jj]
                == key_of(rows[r as int], kidxs)[jj] by {
                assert(keyrow@[jj]@ == t@.row(r as int)[kidxs[jj]]);
                assert(rows[r as int] == t@.row(r as int));
            }
            assert(keyrow.deep_view() =~= key_of(rows[r as int], kidxs));
            assert(ks[r as int] == key_of(rows[r as int], kidxs));
            assert(ks.take(r as int + 1).drop_last() =~= ks.take(r as int));
            assert(ks.take(r as int + 1).last() == ks[r as int]);
        }
        // look the key up among the distinct tuples seen so far
        let mut found = false;
        let mut g: usize = 0;
        while g < keysv.len() && !found
            invariant
                ks == krows_of(rows, kidxs),
                0 <= r < ks.len(),
                keysv.deep_view() == distinct_keys(ks.take(r as int)),
                keyrow.deep_view() == ks[r as int],
                0 <= g <= keysv@.len(),
                found ==> keysv.deep_view().contains(ks[r as int]),
                !found ==> forall|gg: int|
                    0 <= gg < g ==> keysv.deep_view()[gg] != ks[r as int],
            decreases keysv@.len() - g,
        {
            if keys_eq(&keysv[g], &keyrow) {
                proof {
                    assert(keysv.deep_view()[g as int] == ks[r as int]);
                }
                found = true;
            }
            g += 1;
        }
        if !found {
            proof {
                assert(!keysv.deep_view().contains(ks[r as int])) by {
                    if keysv.deep_view().contains(ks[r as int]) {
                        let gg = choose|gg: int|
                            0 <= gg < keysv.deep_view().len() && keysv.deep_view()[gg]
                                == ks[r as int];
                        assert(keysv.deep_view()[gg] != ks[r as int]);
                    }
                }
            }
            let copy = crate::table::clone_cells(&keyrow);
            push_row(&mut keysv, copy);
            proof {
                assert(keysv.deep_view() =~= distinct_keys(ks.take(r as int + 1)));
            }
        } else {
            proof {
                assert(keysv.deep_view() =~= distinct_keys(ks.take(r as int + 1)));
            }
        }
        push_row(&mut kr_vec, keyrow);
        proof {
            assert(kr_vec.deep_view() =~= ks.take(r as int + 1));
        }
        r += 1;
    }
    proof {
        assert(ks.take(t@.nrows) =~= ks);
    }
    // second pass: one output row per distinct key tuple
    let ghost dk = distinct_keys(ks);
    let mut rows_out: Vec<Vec<Value>> = Vec::new();
    let mut g: usize = 0;
    while g < keysv.len()
        invariant
            t.wf(),
            sv == t@.schema(),
            kv == keys.deep_view(),
            av == aggs.deep_view(),
            rows == t@.rows(),
            ks == krows_of(rows, kidxs),
            kidxs == kidxs_of(sv, kv),
            dk == distinct_keys(ks),
            select_err(sv, kv) is None,
            aggs_err(sv, av) is None,
            dup_err(out_names(kv, av)) is None,
            kr_vec.deep_view() == ks,
            keysv.deep_view() == dk,
            0 <= g <= keysv@.len(),
            forall|gi: int, ai: int|
                0 <= gi < g && 0 <= ai < av.len() ==> (#[trigger] agg_val(
                    sv,
                    rows,
                    ks,
                    dk[gi],
                    av[ai],
                )) is Some,
            rows_out.deep_view() == agg_rows(sv, rows, ks, av).take(g as int),
        decreases keysv@.len() - g,
    {
        let ghost key = dk[g as int];
        let ghost gm = group_mask(ks, key);
        let ghost grp = group_of(rows, ks, key);
        let mut orow = crate::table::clone_cells(&keysv[g]);
        proof {
            assert(orow.deep_view() == keysv.deep_view()[g as int]);
        }
        let mut a: usize = 0;
        while a < aggs.len()
            invariant
                t.wf(),
                sv == t@.schema(),
                kv == keys.deep_view(),
                av == aggs.deep_view(),
                rows == t@.rows(),
                ks == krows_of(rows, kidxs),
                kidxs == kidxs_of(sv, kv),
                dk == distinct_keys(ks),
                select_err(sv, kv) is None,
                aggs_err(sv, av) is None,
                dup_err(out_names(kv, av)) is None,
                kr_vec.deep_view() == ks,
                keysv.deep_view() == dk,
                0 <= g < keysv@.len(),
                key == dk[g as int],
                gm == group_mask(ks, key),
                grp == group_of(rows, ks, key),
                keysv.deep_view()[g as int] == key,
                0 <= a <= av.len(),
                orow@.len() == key.len() + a,
                forall|jj: int| 0 <= jj < key.len() ==> orow@[jj]@ == key[jj],
                forall|ai: int|
                    0 <= ai < a ==> agg_val(sv, rows, ks, key, #[trigger] av[ai]) is Some,
                forall|ai: int|
                    0 <= ai < a ==> orow@[key.len() + ai]@ == agg_val(
                        sv,
                        rows,
                        ks,
                        key,
                        #[trigger] av[ai],
                    )->0,
                forall|gi: int, ai: int|
                    0 <= gi < g && 0 <= ai < av.len() ==> (#[trigger] agg_val(
                        sv,
                        rows,
                        ks,
                        dk[gi],
                        av[ai],
                    )) is Some,
            decreases av.len() - a,
        {
            proof {
                assert(av[a as int] == aggs@[a as int]@);
            }
            match &aggs[a] {
                AggExpr::Count { out } => {
                    let mut count: usize = 0;
                    let mut j: usize = 0;
                    while j < t.nrows
                        invariant
                            t.wf(),
                            rows == t@.rows(),
                            ks == krows_of(rows, kidxs),
                            gm == group_mask(ks, key),
                            kr_vec.deep_view() == ks,
                            0 <= g < keysv@.len(),
                            keysv.deep_view()[g as int] == key,
                            0 <= j <= t@.nrows,
                            count as int == mask_seq(
                                rows.take(j as int),
                                gm.take(j as int),
                            ).len(),
                            count <= j,
                        decreases t@.nrows - j,
                    {
                        proof {
                            lemma_mask_take_step(rows, gm, j as int);
                            assert(kr_vec.deep_view()[j as int] == ks[j as int]);
                        }
                        if keys_eq(&kr_vec[j], &keysv[g]) {
                            count += 1;
                        }
                        j += 1;
                    }
                    proof {
                        assert(rows.take(t@.nrows) =~= rows);
                        assert(gm.take(t@.nrows) =~= gm);
                        assert(count as int == grp.len());
                    }
                    if count as u64 > (i64::MAX as u64) {
                        proof {
                            assert(agg_val(sv, rows, ks, key, av[a as int]) is None);
                        }
                        return Err(Error::Overflow);
                    }
                    orow.push(Value::Int(count as i64));
                    proof {
                        assert(agg_val(sv, rows, ks, key, av[a as int]) == Some(
                            ValueV::Int(grp.len() as int),
                        ));
                    }
                },
                AggExpr::Sum { col, out } => {
                    proof {
                        lemma_aggs_err_none(sv, av);
                        assert(av[a as int] == aggs@[a as int]@);
                        assert(av[a as int] matches AggV::Sum(c2, o2) && c2 == col@);
                    }
                    let ci = match t.find_col(col) {
                        Some(ci) => ci,
                        None => {
                            proof {
                                assert(false);
                            }
                            return Err(Error::Overflow);
                        },
                    };
                    proof {
                        lemma_idx_of(sv, col@);
                    }
                    let mut acc: i64 = 0;
                    let mut j: usize = 0;
                    while j < t.nrows
                        invariant
                            t.wf(),
                            sv == t@.schema(),
                            kv == keys.deep_view(),
                            av == aggs.deep_view(),
                            select_err(sv, kv) is None,
                            aggs_err(sv, av) is None,
                            dup_err(out_names(kv, av)) is None,
                            rows == t@.rows(),
                            ks == krows_of(rows, kidxs),
                            kidxs == kidxs_of(sv, kv),
                            dk == distinct_keys(ks),
                            keysv.deep_view() == dk,
                            gm == group_mask(ks, key),
                            grp == group_of(rows, ks, key),
                            kr_vec.deep_view() == ks,
                            0 <= g < keysv@.len(),
                            key == dk[g as int],
                            keysv.deep_view()[g as int] == key,
                            0 <= a < av.len(),
                            (av[a as int] matches AggV::Sum(c2, o2) && idx_of(
                                sv,
                                c2,
                            ) == ci as int),
                            0 <= ci < t@.cols.len(),
                            0 <= j <= t@.nrows,
                            Some(acc as int) == sum_cells(
                                mask_seq(rows.take(j as int), gm.take(j as int)),
                                ci as int,
                            ),
                        decreases t@.nrows - j,
                    {
                        proof {
                            lemma_mask_take_step(rows, gm, j as int);
                            assert(kr_vec.deep_view()[j as int] == ks[j as int]);
                            assert(t@.cols[ci as int].cells.len() == t@.nrows);
                            assert(rows[j as int] == t@.row(j as int));
                            assert(rows[j as int][ci as int] == t@.cols[ci as int]
                                .cells[j as int]);
                        }
                        if keys_eq(&kr_vec[j], &keysv[g]) {
                            let ghost partial = mask_seq(rows.take(j as int), gm.take(j as int));
                            let ghost partial2 = mask_seq(
                                rows.take(j as int + 1),
                                gm.take(j as int + 1),
                            );
                            proof {
                                assert(partial2 == partial + seq![rows[j as int]]);
                                assert(partial2.len() > 0);
                                assert(partial2.drop_last() =~= partial);
                                assert(partial2.last() == rows[j as int]);
                            }
                            let step = match &t.cols[ci].cells[j] {
                                Value::Int(x) => acc.checked_add(*x),
                                Value::Num(x) => acc.checked_add(*x),
                                _ => Some(acc),
                            };
                            match step {
                                Some(n) => {
                                    acc = n;
                                },
                                None => {
                                    proof {
                                        assert(sum_cells(partial2, ci as int) is None);
                                        lemma_mask_split(rows, gm, j as int + 1);
                                        lemma_sum_cells_none(
                                            partial2,
                                            mask_seq(
                                                rows.skip(j as int + 1),
                                                gm.skip(j as int + 1),
                                            ),
                                            ci as int,
                                        );
                                        assert(sum_cells(grp, ci as int) is None);
                                        assert(agg_val(sv, rows, ks, key, av[a as int]) is None);
                                    }
                                    return Err(Error::Overflow);
                                },
                            }
                        } else {
                            proof {
                                assert(mask_seq(
                                    rows.take(j as int + 1),
                                    gm.take(j as int + 1),
                                ) =~= mask_seq(rows.take(j as int), gm.take(j as int)));
                            }
                        }
                        j += 1;
                    }
                    proof {
                        assert(rows.take(t@.nrows) =~= rows);
                        assert(gm.take(t@.nrows) =~= gm);
                        assert(sum_cells(grp, ci as int) == Some(acc as int));
                        assert(sv[ci as int] == (t@.cols[ci as int].name, t@.cols[ci as int].ty));
                    }
                    match t.cols[ci].ty {
                        ColType::Num => {
                            orow.push(Value::Num(acc));
                        },
                        _ => {
                            orow.push(Value::Int(acc));
                        },
                    }
                    proof {
                        assert(agg_val(sv, rows, ks, key, av[a as int]) is Some);
                    }
                },
            }
            a += 1;
        }
        proof {
            assert forall|jj: int| 0 <= jj < orow.deep_view().len() implies orow.deep_view()[jj]
                == agg_row(sv, rows, ks, key, av)[jj] by {
                assert(orow@[jj]@ == orow.deep_view()[jj]);
                if jj < key.len() {
                    assert(orow@[jj]@ == key[jj]);
                } else {
                    assert(orow@[jj]@ == agg_val(sv, rows, ks, key, av[jj - key.len()])->0);
                }
            }
            assert(orow.deep_view() =~= agg_row(sv, rows, ks, key, av));
            assert(agg_rows(sv, rows, ks, av)[g as int] == agg_row(sv, rows, ks, key, av));
        }
        push_row(&mut rows_out, orow);
        proof {
            assert(rows_out.deep_view() =~= agg_rows(sv, rows, ks, av).take(g as int + 1));
        }
        g += 1;
    }
    proof {
        assert(agg_rows(sv, rows, ks, av).take(dk.len() as int) =~= agg_rows(sv, rows, ks, av));
    }
    // the output schema
    let ghost osch = agg_schema(sv, kv, av);
    let mut schema: Vec<Field> = Vec::new();
    let mut j: usize = 0;
    while j < keys.len()
        invariant
            t.wf(),
            sv == t@.schema(),
            kv == keys.deep_view(),
            0 <= j <= keys@.len(),
            idxs@.len() == kv.len(),
            forall|jj: int| 0 <= jj < kv.len() ==> idxs@[jj] as int == idx_of(sv, kv[jj]),
            forall|jj: int| 0 <= jj < kv.len() ==> idx_of(sv, #[trigger] kv[jj]) >= 0,
            schema@.len() == j,
            forall|jj: int|
                0 <= jj < j ==> schema@[jj]@ == #[trigger] select_schema(sv, kv)[jj],
        decreases keys.len() - j,
    {
        proof {
            lemma_idx_of(sv, kv[j as int]);
            assert(sv[idxs@[j as int] as int] == (t@.cols[idxs@[j as int] as int].name,
                t@.cols[idxs@[j as int] as int].ty));
        }
        let i = idxs[j];
        schema.push(Field { name: keys[j].clone(), ty: t.cols[i].ty });
        j += 1;
    }
    let mut a: usize = 0;
    while a < aggs.len()
        invariant
            t.wf(),
            sv == t@.schema(),
            kv == keys.deep_view(),
            av == aggs.deep_view(),
            aggs_err(sv, av) is None,
            0 <= a <= av.len(),
            schema@.len() == kv.len() + a,
            forall|jj: int|
                0 <= jj < kv.len() ==> schema@[jj]@ == #[trigger] select_schema(sv, kv)[jj],
            forall|ai: int|
                0 <= ai < a ==> schema@[kv.len() + ai]@ == (agg_out(#[trigger] av[ai]), agg_ty(
                    sv,
                    av[ai],
                )),
        decreases aggs.len() - a,
    {
        proof {
            assert(av[a as int] == aggs@[a as int]@);
        }
        match &aggs[a] {
            AggExpr::Count { out } => {
                schema.push(Field { name: out.clone(), ty: ColType::Int });
            },
            AggExpr::Sum { col, out } => {
                proof {
                    lemma_aggs_err_none(sv, av);
                }
                let ci = match t.find_col(col) {
                    Some(ci) => ci,
                    None => {
                        proof {
                            assert(av[a as int] == aggs@[a as int]@);
                            assert(false);
                        }
                        return Err(Error::Overflow);
                    },
                };
                proof {
                    lemma_idx_of(sv, col@);
                    assert(sv[ci as int] == (t@.cols[ci as int].name, t@.cols[ci as int].ty));
                    assert(av[a as int] == aggs@[a as int]@);
                    assert(av[a as int] matches AggV::Sum(c2, o2) && c2 == col@ && o2 == out@);
                }
                schema.push(Field { name: out.clone(), ty: t.cols[ci].ty });
            },
        }
        a += 1;
    }
    proof {
        assert forall|jj: int| 0 <= jj < schema.deep_view().len() implies schema.deep_view()[jj]
            == osch[jj] by {
            assert(schema@[jj]@ == schema.deep_view()[jj]);
            if jj < kv.len() {
                assert(osch[jj] == select_schema(sv, kv)[jj]);
            } else {
                assert(osch[jj] == (agg_out(av[jj - kv.len()]), agg_ty(sv, av[jj - kv.len()])));
            }
        }
        assert(schema.deep_view() =~= osch);
        // the output schema is distinct and the rows fit it
        lemma_dup_err_none(onv);
        assert forall|x: int, y: int| 0 <= x < y < osch.len() implies osch[x].0 != osch[y].0 by {
            assert(osch[x].0 == onv[x] && osch[y].0 == onv[y]) by {
                if x < kv.len() {
                    assert(osch[x] == select_schema(sv, kv)[x]);
                } else {
                    assert(osch[x] == (agg_out(av[x - kv.len()]), agg_ty(sv, av[x - kv.len()])));
                }
                if y < kv.len() {
                    assert(osch[y] == select_schema(sv, kv)[y]);
                } else {
                    assert(osch[y] == (agg_out(av[y - kv.len()]), agg_ty(sv, av[y - kv.len()])));
                }
            }
        }
        lemma_wf_schema(t@);
        lemma_group_partition(ks);
        lemma_select_err_none(sv, kv);
        let orows = agg_rows(sv, rows, ks, av);
        assert forall|rr: int| 0 <= rr < orows.len() implies (#[trigger] orows[rr]).len()
            == osch.len() by {
            assert(orows[rr] == agg_row(sv, rows, ks, dk[rr], av));
            assert(ks.contains(dk[rr]));
            let x = choose|x: int| 0 <= x < ks.len() && ks[x] == dk[rr];
            assert(ks[x] == key_of(rows[x], kidxs));
            assert(dk[rr].len() == kv.len());
        }
        assert forall|rr: int, cc: int|
            0 <= rr < orows.len() && 0 <= cc < osch.len() implies cell_ok(
            osch[cc].1,
            #[trigger] orows[rr][cc],
        ) by {
            assert(orows[rr] == agg_row(sv, rows, ks, dk[rr], av));
            assert(ks.contains(dk[rr]));
            let x = choose|x: int| 0 <= x < ks.len() && ks[x] == dk[rr];
            assert(ks[x] == key_of(rows[x], kidxs));
            assert(dk[rr].len() == kv.len());
            if cc < kv.len() {
                lemma_idx_of(sv, kv[cc]);
                let i = idx_of(sv, kv[cc]);
                assert(orows[rr][cc] == dk[rr][cc]);
                assert(dk[rr][cc] == rows[x][i]);
                assert(rows[x] == t@.row(x));
                assert(rows[x][i] == t@.cols[i].cells[x]);
                assert(cell_ok(t@.cols[i].ty, t@.cols[i].cells[x]));
                assert(osch[cc] == select_schema(sv, kv)[cc]);
                assert(sv[i] == (t@.cols[i].name, t@.cols[i].ty));
            } else {
                let ai = cc - kv.len();
                assert(orows[rr][cc] == agg_val(sv, rows, ks, dk[rr], av[ai])->0);
                assert(agg_val(sv, rows, ks, dk[rr], av[ai]) is Some);
                assert(osch[cc] == (agg_out(av[ai]), agg_ty(sv, av[ai])));
                lemma_aggs_err_none(sv, av);
                match av[ai] {
                    AggV::Count(out) => {},
                    AggV::Sum(col, out) => {
                        lemma_idx_of(sv, col);
                    },
                }
            }
        }
    }
    let out = from_rows(schema, &rows_out);
    proof {
        assert(out@ =~~= table_of(osch, agg_rows(sv, rows, ks, av)));
    }
    Ok(out)
}

} // verus!
