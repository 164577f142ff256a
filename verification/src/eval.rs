//! The execution engine: evaluate a deferred plan bottom-up, exactly once,
//! into one materialized table, and measure the elapsed time of evaluation
//! alone.

use vstd::prelude::*;
use crate::table::{Table, TableV};

use crate::errors::{Error, ErrorV};
use crate::plan::Plan;
use crate::ops::{spec_filter, spec_select, filter_table, select_table};
use crate::maps::{spec_map, map_table};
use crate::join::{spec_join, join_tables};
use crate::agg::{spec_aggregate, aggregate_table};
use crate::seqs::sum_ints;
use crate::table::lemma_sum_concat;

verus! {

/// How a source table's rows are chunked into row groups of at most
/// `batch` rows; a batch size of zero (or less) leaves the table as one
/// group.
pub open spec fn frag_plan(nrows: int, batch: int) -> Seq<int>
    decreases nrows,
{
    if batch <= 0 || nrows <= batch {
        seq![nrows]
    } else {
        seq![batch] + frag_plan(nrows - batch, batch)
    }
}

pub proof fn lemma_frag_plan(nrows: int, batch: int)
    requires
        nrows >= 0,
    ensures
        sum_ints(frag_plan(nrows, batch)) == nrows,
        forall|k: int| 0 <= k < frag_plan(nrows, batch).len() ==> 0 <= #[trigger] frag_plan(
            nrows,
            batch,
        )[k],
    decreases nrows,
{
    if batch <= 0 || nrows <= batch {
        assert(frag_plan(nrows, batch).drop_last() =~= Seq::<int>::empty());
        assert(sum_ints(Seq::<int>::empty()) == 0);
    } else {
        lemma_frag_plan(nrows - batch, batch);
        lemma_sum_concat(seq![batch], frag_plan(nrows - batch, batch));
        assert(seq![batch].drop_last() =~= Seq::<int>::empty());
        assert(sum_ints(Seq::<int>::empty()) == 0);
        assert(sum_ints(seq![batch]) == batch);
        assert forall|k: int|
            0 <= k < frag_plan(nrows, batch).len() implies 0 <= #[trigger] frag_plan(
            nrows,
            batch,
        )[k] by {
            if k > 0 {
                assert(frag_plan(nrows, batch)[k] == frag_plan(nrows - batch, batch)[k - 1]);
            }
        }
    }
}

/// Every source table of the plan is well formed.
pub open spec fn plan_wf(p: Plan) -> bool
    decreases p,
{
    match p {
        Plan::Source(t) => t@.wf(),
        Plan::Select { input, names } => plan_wf(*input),
        Plan::Filter { input, pred } => plan_wf(*input),
        Plan::Join { left, right, left_key, right_key, kind } => plan_wf(*left) && plan_wf(
            *right,
        ),
        Plan::Aggregate { input, keys, aggs } => plan_wf(*input),
        Plan::Transform { input, op } => plan_wf(*input),
    }
}

/// The table a plan denotes, or the first error of its bottom-up
/// evaluation; `batch` is the row-group size used when a source table is
/// materialized.
pub open spec fn spec_eval(p: Plan, batch: int) -> Result<TableV, ErrorV>
    decreases p,
{
    match p {
        Plan::Source(t) => Ok(
            TableV { cols: t@.cols, nrows: t@.nrows, frags: frag_plan(t@.nrows, batch) },
        ),
        Plan::Select { input, names } => match spec_eval(*input, batch) {
            Ok(tv) => spec_select(tv, names.deep_view()),
            Err(e) => Err(e),
        },
        Plan::Filter { input, pred } => match spec_eval(*input, batch) {
            Ok(tv) => spec_filter(tv, pred@),
            Err(e) => Err(e),
        },
        Plan::Join { left, right, left_key, right_key, kind } => match spec_eval(*left, batch) {
            Ok(lv) => match spec_eval(*right, batch) {
                Ok(rv) => spec_join(lv, rv, left_key@, right_key@, kind),
                Err(e) => Err(e),
            },
            Err(e) => Err(e),
        },
        Plan::Aggregate { input, keys, aggs } => match spec_eval(*input, batch) {
            Ok(tv) => spec_aggregate(tv, keys.deep_view(), aggs.deep_view()),
            Err(e) => Err(e),
        },
        Plan::Transform { input, op } => match spec_eval(*input, batch) {
            Ok(tv) => spec_map(tv, op@),
            Err(e) => Err(e),
        },
    }
}

/// A copy of the table whose rows are chunked into groups of at most
/// `batch` rows; content is unchanged.
fn refragment(t: &Table, batch: usize) -> (r: Table)
    requires
        t.wf(),
    ensures
        r.wf(),
        r@.cols == t@.cols,
        r@.nrows == t@.nrows,
        r@.frags == frag_plan(t@.nrows, batch as int),
{
    let dup = t.duplicate();
    let mut frags: Vec<usize> = Vec::new();
    if batch == 0 {
        frags.push(t.nrows);
        proof {
            assert(frags@.map_values(|x: usize| x as int) =~= seq![t@.nrows]);
        }
    } else {
        let mut remaining = t.nrows;
        while remaining > batch
            invariant
                0 < batch,
                remaining <= t@.nrows,
                frag_plan(t@.nrows, batch as int) =~= frags@.map_values(|x: usize| x as int)
                    + frag_plan(remaining as int, batch as int),
            decreases remaining,
        {
            frags.push(batch);
            remaining = remaining - batch;
            proof {
                assert(frags@.map_values(|x: usize| x as int) =~= frags@.map_values(
                    |x: usize| x as int,
                ).drop_last().push(batch as int));
                assert(frag_plan(t@.nrows, batch as int) =~= frags@.map_values(
                    |x: usize| x as int,
                ) + frag_plan(remaining as int, batch as int));
            }
        }
        frags.push(remaining);
        proof {
            assert(frag_plan(remaining as int, batch as int) =~= seq![remaining as int]);
            assert(frags@.map_values(|x: usize| x as int) =~= frags@.map_values(
                |x: usize| x as int,
            ).drop_last().push(remaining as int));
            assert(frags@.map_values(|x: usize| x as int) =~= frag_plan(
                t@.nrows,
                batch as int,
            ));
        }
    }
    let r = Table { cols: dup.cols, nrows: dup.nrows, frags };
    proof {
        lemma_frag_plan(t@.nrows, batch as int);
        assert(r@.cols == t@.cols);
        assert(r@.frags == frag_plan(t@.nrows, batch as int));
    }
    r
}

/// Evaluate the plan bottom-up, materializing each node from its inputs
/// exactly once.
pub fn eval(p: &Plan, batch: usize) -> (res: Result<Table, Error>)
    requires
        plan_wf(*p),
    ensures
        match res {
            Ok(out) => {
                &&& spec_eval(*p, batch as int) is Ok
                &&& out@ == spec_eval(*p, batch as int)->Ok_0
                &&& out.wf()
            },
            Err(e) => spec_eval(*p, batch as int) == Err::<TableV, ErrorV>(e@),
        },
    decreases *p,
{
    match p {
        Plan::Source(t) => Ok(refragment(t, batch)),
        Plan::Select { input, names } => match eval(input, batch) {
            Ok(tin) => select_table(&tin, names),
            Err(e) => Err(e),
        },
        Plan::Filter { input, pred } => match eval(input, batch) {
            Ok(tin) => filter_table(&tin, pred),
            Err(e) => Err(e),
        },
        Plan::Join { left, right, left_key, right_key, kind } => match eval(left, batch) {
            Ok(lt) => match eval(right, batch) {
                Ok(rt) => join_tables(&lt, &rt, left_key, right_key, *kind),
                Err(e) => Err(e),
            },
            Err(e) => Err(e),
        },
        Plan::Aggregate { input, keys, aggs } => match eval(input, batch) {
            Ok(tin) => aggregate_table(&tin, keys, aggs),
            Err(e) => Err(e),
        },
        Plan::Transform { input, op } => match eval(input, batch) {
            Ok(tin) => map_table(&tin, op),
            Err(e) => Err(e),
        },
    }
}

/// Evaluate the plan and measure the wall-clock time of evaluation alone:
/// the clock starts immediately before evaluation is triggered and stops
/// once the result table is fully materialized; plan construction and any
/// other setup lie outside the measurement. `batch_size` chunks source rows
/// into row groups (zero disables chunking); the engine works through the
/// groups of one plan sequentially, so at most one — and so never more than
/// `max_parallelism` — is in flight at any instant.
pub fn execute(p: &Plan, batch_size: usize, max_parallelism: usize) -> (res: Result<
    (Table, u128),
    Error,
>)
    requires
        plan_wf(*p),
        max_parallelism >= 1,
    ensures
        match res {
            Ok(r) => {
                &&& spec_eval(*p, batch_size as int) is Ok
                &&& r.0@ == spec_eval(*p, batch_size as int)->Ok_0
                &&& r.0.wf()
            },
            Err(e) => spec_eval(*p, batch_size as int) == Err::<TableV, ErrorV>(e@),
        },
{
    let start = std::time::Instant::now();
    let out = eval(p, batch_size);
    let elapsed = start.elapsed().as_millis();
    match out {
        Ok(t) => Ok((t, elapsed)),
        Err(e) => Err(e),
    }
}

} // verus!
