//! The benchmark scenarios: build one fresh plan per scenario against the
//! already-loaded tables, evaluate it, and record the elapsed time. Each
//! scenario's outcome is a function of the input tables' content alone, so
//! running the scenarios in any order produces identical per-scenario
//! results.

use vstd::prelude::*;
use crate::table::{Table, TableV};
use crate::value::{Value, ValueV, NUM_SCALE};
use crate::errors::{Error, ErrorV};
use crate::plan::Plan;
use crate::pred::{Pred, PredV};
use crate::maps::{MapOp, MapOpV, spec_scale};
use crate::agg::{AggExpr, AggV, spec_aggregate};
use crate::join::{JoinKind, spec_join};
use crate::ops::spec_filter;
use crate::eval::{execute, spec_eval, plan_wf, frag_plan};

verus! {

/// Two tables of equal content (columns and row count) have equal schemas
/// and rows; the operators read nothing else, so storage fragmentation
/// never changes a result.
pub proof fn lemma_content_eq(t1: TableV, t2: TableV)
    requires
        t1.cols == t2.cols,
        t1.nrows == t2.nrows,
    ensures
        t1.schema() == t2.schema(),
        t1.rows() == t2.rows(),
        forall|r: int| t1.row(r) == #[trigger] t2.row(r),
{
    assert(t1.schema() =~= t2.schema());
    assert forall|r: int| t1.row(r) == #[trigger] t2.row(r) by {
        assert(t1.row(r) =~= t2.row(r));
    }
    assert(t1.rows() =~= t2.rows());
}

/// Left join of the computer names with the findings on `eid`, timed.
/// The result is exactly the left-outer join of the two tables' contents.
pub fn join(compnames: &Table, cves: &Table) -> (res: Result<(Table, u128), Error>)
    requires
        compnames.wf(),
        cves.wf(),
    ensures
        match res {
            Ok(r) => {
                &&& spec_join(compnames@, cves@, "eid"@, "eid"@, JoinKind::Left) is Ok
                &&& r.0@ == spec_join(compnames@, cves@, "eid"@, "eid"@, JoinKind::Left)->Ok_0
                &&& r.0.wf()
            },
            Err(e) => spec_join(compnames@, cves@, "eid"@, "eid"@, JoinKind::Left) == Err::<
                TableV,
                ErrorV,
            >(e@),
        },
{
    let lsrc = Plan::Source(compnames.duplicate());
    let rsrc = Plan::Source(cves.duplicate());
    let plan = lsrc.join(rsrc, "eid".to_owned(), "eid".to_owned(), JoinKind::Left);
    proof {
        match &plan {
            Plan::Join { left, right, left_key, right_key, kind } => {
                match &**left {
                    Plan::Source(lt) => {
                        match &**right {
                            Plan::Source(rt) => {
                                let lv = TableV {
                                    cols: lt@.cols,
                                    nrows: lt@.nrows,
                                    frags: frag_plan(lt@.nrows, 0),
                                };
                                let rv = TableV {
                                    cols: rt@.cols,
                                    nrows: rt@.nrows,
                                    frags: frag_plan(rt@.nrows, 0),
                                };
                                lemma_content_eq(lv, compnames@);
                                lemma_content_eq(rv, cves@);
                                assert(plan_wf(**left));
                                assert(plan_wf(**right));
                                assert(plan_wf(plan));
                                assert(spec_eval(**left, 0) == Ok::<TableV, ErrorV>(lv));
                                assert(spec_eval(**right, 0) == Ok::<TableV, ErrorV>(rv));
                                assert(spec_eval(plan, 0) == spec_join(
                                    lv,
                                    rv,
                                    "eid"@,
                                    "eid"@,
                                    JoinKind::Left,
                                ));
                                assert(spec_join(lv, rv, "eid"@, "eid"@, JoinKind::Left)
                                    == spec_join(
                                    compnames@,
                                    cves@,
                                    "eid"@,
                                    "eid"@,
                                    JoinKind::Left,
                                ));
                            },
                            _ => {},
                        }
                    },
                    _ => {},
                }
            },
            _ => {},
        }
    }
    match execute(&plan, 0, 1) {
        Ok(r) => Ok(r),
        Err(e) => Err(e),
    }
}

/// Multiply the `cvss` column by ten, timed. The result is exactly the
/// input with that one column scaled.
pub fn transform(cves: &Table) -> (res: Result<(Table, u128), Error>)
    requires
        cves.wf(),
    ensures
        match res {
            Ok(r) => {
                &&& spec_scale(cves@, "cvss"@, 10) is Ok
                &&& r.0@ == spec_scale(cves@, "cvss"@, 10)->Ok_0
                &&& r.0.wf()
            },
            Err(e) => spec_scale(cves@, "cvss"@, 10) == Err::<TableV, ErrorV>(e@),
        },
{
    let plan = Plan::Source(cves.duplicate()).map(
        MapOp::Scale { col: "cvss".to_owned(), factor: 10 },
    );
    proof {
        match &plan {
            Plan::Transform { input, op } => {
                match &**input {
                    Plan::Source(st) => {
                        let tv = TableV {
                            cols: st@.cols,
                            nrows: st@.nrows,
                            frags: frag_plan(st@.nrows, 0),
                        };
                        lemma_content_eq(tv, cves@);
                        assert(op@ == MapOpV::Scale("cvss"@, 10));
                        assert(plan_wf(**input));
                        assert(plan_wf(plan));
                        assert(spec_eval(**input, 0) == Ok::<TableV, ErrorV>(tv));
                        assert(spec_eval(plan, 0) == spec_scale(tv, "cvss"@, 10));
                        assert(spec_scale(tv, "cvss"@, 10) == spec_scale(cves@, "cvss"@, 10));
                    },
                    _ => {},
                }
            },
            _ => {},
        }
    }
    match execute(&plan, 0, 1) {
        Ok(r) => Ok(r),
        Err(e) => Err(e),
    }
}

/// Group the findings by `eid` and sum the `cvss` scores, timed. The
/// result holds one row per distinct `eid`, in first-encounter order.
pub fn groupby_agg(cves: &Table) -> (res: Result<(Table, u128), Error>)
    requires
        cves.wf(),
    ensures
        match res {
            Ok(r) => {
                &&& spec_aggregate(cves@, seq!["eid"@], seq![AggV::Sum("cvss"@, "cvss_sum"@)])
                    is Ok
                &&& r.0@ == spec_aggregate(
                    cves@,
                    seq!["eid"@],
                    seq![AggV::Sum("cvss"@, "cvss_sum"@)],
                )->Ok_0
                &&& r.0.wf()
            },
            Err(e) => spec_aggregate(cves@, seq!["eid"@], seq![AggV::Sum("cvss"@, "cvss_sum"@)])
                == Err::<TableV, ErrorV>(e@),
        },
{
    let mut keys: Vec<String> = Vec::new();
    keys.push("eid".to_owned());
    let mut aggs: Vec<AggExpr> = Vec::new();
    aggs.push(AggExpr::Sum { col: "cvss".to_owned(), out: "cvss_sum".to_owned() });
    proof {
        assert(keys.deep_view() =~= seq!["eid"@]);
        assert(aggs.deep_view() =~= seq![AggV::Sum("cvss"@, "cvss_sum"@)]);
    }
    let plan = Plan::Source(cves.duplicate()).aggregate(keys, aggs);
    proof {
        match &plan {
            Plan::Aggregate { input, keys: k2, aggs: a2 } => {
                match &**input {
                    Plan::Source(st) => {
                        let tv = TableV {
                            cols: st@.cols,
                            nrows: st@.nrows,
                            frags: frag_plan(st@.nrows, 0),
                        };
                        lemma_content_eq(tv, cves@);
                        assert(plan_wf(**input));
                        assert(plan_wf(plan));
                        assert(spec_eval(**input, 0) == Ok::<TableV, ErrorV>(tv));
                        assert(spec_eval(plan, 0) == spec_aggregate(
                            tv,
                            k2.deep_view(),
                            a2.deep_view(),
                        ));
                        assert(spec_aggregate(tv, k2.deep_view(), a2.deep_view())
                            == spec_aggregate(
                            cves@,
                            seq!["eid"@],
                            seq![AggV::Sum("cvss"@, "cvss_sum"@)],
                        ));
                    },
                    _ => {},
                }
            },
            _ => {},
        }
    }
    match execute(&plan, 0, 1) {
        Ok(r) => Ok(r),
        Err(e) => Err(e),
    }
}

/// Keep the findings whose `cvss` score is below one half, timed. The
/// result keeps exactly those rows, in their original relative order.
pub fn filter(cves: &Table) -> (res: Result<(Table, u128), Error>)
    requires
        cves.wf(),
    ensures
        match res {
            Ok(r) => {
                &&& spec_filter(cves@, PredV::Lt("cvss"@, ValueV::Num(NUM_SCALE as int / 2)))
                    is Ok
                &&& r.0@ == spec_filter(
                    cves@,
                    PredV::Lt("cvss"@, ValueV::Num(NUM_SCALE as int / 2)),
                )->Ok_0
                &&& r.0.wf()
            },
            Err(e) => spec_filter(cves@, PredV::Lt("cvss"@, ValueV::Num(NUM_SCALE as int / 2)))
                == Err::<TableV, ErrorV>(e@),
        },
{
    let plan = Plan::Source(cves.duplicate()).filter(
        Pred::Lt("cvss".to_owned(), Value::Num(NUM_SCALE / 2)),
    );
    proof {
        match &plan {
            Plan::Filter { input, pred } => {
                match &**input {
                    Plan::Source(st) => {
                        let tv = TableV {
                            cols: st@.cols,
                            nrows: st@.nrows,
                            frags: frag_plan(st@.nrows, 0),
                        };
                        lemma_content_eq(tv, cves@);
                        assert(pred@ == PredV::Lt("cvss"@, ValueV::Num(NUM_SCALE as int / 2)));
                        assert(plan_wf(**input));
                        assert(plan_wf(plan));
                        assert(spec_eval(**input, 0) == Ok::<TableV, ErrorV>(tv));
                        assert(spec_eval(plan, 0) == spec_filter(tv, pred@));
                        assert(crate::ops::filter_mask(tv, pred@) =~= crate::ops::filter_mask(
                            cves@,
                            pred@,
                        ));
                        assert(spec_filter(tv, pred@) == spec_filter(cves@, pred@));
                    },
                    _ => {},
                }
            },
            _ => {},
        }
    }
    match execute(&plan, 0, 1) {
        Ok(r) => Ok(r),
        Err(e) => Err(e),
    }
}

/// The deferred findings-per-machine plan: group the findings by `eid` and
/// count them. Building it performs no work.
pub fn cve_findings(data: &Table) -> (r: Plan)
    ensures
        (r matches Plan::Aggregate { input, keys, aggs } && (*input matches Plan::Source(src)
            && src@ == data@) && keys.deep_view() == seq!["eid"@] && aggs.deep_view()
            == seq![AggV::Count("cvss_count"@)]),
{
    let mut keys: Vec<String> = Vec::new();
    keys.push("eid".to_owned());
    let mut aggs: Vec<AggExpr> = Vec::new();
    aggs.push(AggExpr::Count { out: "cvss_count".to_owned() });
    proof {
        assert(keys.deep_view() =~= seq!["eid"@]);
        assert(aggs.deep_view() =~= seq![AggV::Count("cvss_count"@)]);
    }
    Plan::Source(data.duplicate()).aggregate(keys, aggs)
}

/// The deferred compliance-failure plan: per machine, the total finding
/// count, the count of findings whose `state` is not `pass`, and the
/// failing fraction as a fixed-point column. Building it performs no work.
pub fn compliance_findings(data: &Table) -> (r: Plan)
    ensures
        (r matches Plan::Transform { input: j, op } && op@ == MapOpV::Ratio(
            "eid_fail_count"@,
            "eid_count"@,
            "pct_failed"@,
        ) && (*j matches Plan::Join { left: tot, right: fl, left_key, right_key, kind }
            && left_key@ == "eid"@ && right_key@ == "eid"@ && kind == JoinKind::Inner && (
        *tot matches Plan::Aggregate { input: ts, keys: tk, aggs: ta } && (
        *ts matches Plan::Source(t1) && t1@ == data@) && tk.deep_view() == seq!["eid"@]
            && ta.deep_view() == seq![AggV::Count("eid_count"@)]) && (
        *fl matches Plan::Aggregate { input: fs, keys: fk, aggs: fa } && (
        *fs matches Plan::Filter { input: fsi, pred } && (*fsi matches Plan::Source(t2) && t2@
            == data@) && pred@ == PredV::Not(Box::new(PredV::Eq("state"@, ValueV::Str("pass"@)))))
            && fk.deep_view() == seq!["eid"@] && fa.deep_view() == seq![AggV::Count(
            "eid_fail_count"@,
        )]))),
{
    let mut tkeys: Vec<String> = Vec::new();
    tkeys.push("eid".to_owned());
    let mut taggs: Vec<AggExpr> = Vec::new();
    taggs.push(AggExpr::Count { out: "eid_count".to_owned() });
    proof {
        assert(tkeys.deep_view() =~= seq!["eid"@]);
        assert(taggs.deep_view() =~= seq![AggV::Count("eid_count"@)]);
    }
    let total = Plan::Source(data.duplicate()).aggregate(tkeys, taggs);

    let mut fkeys: Vec<String> = Vec::new();
    fkeys.push("eid".to_owned());
    let mut faggs: Vec<AggExpr> = Vec::new();
    faggs.push(AggExpr::Count { out: "eid_fail_count".to_owned() });
    proof {
        assert(fkeys.deep_view() =~= seq!["eid"@]);
        assert(faggs.deep_view() =~= seq![AggV::Count("eid_fail_count"@)]);
    }
    let inner = Pred::Eq("state".to_owned(), Value::Str("pass".to_owned()));
    proof {
        assert(inner@ == PredV::Eq("state"@, ValueV::Str("pass"@)));
    }
    let not_pass = Pred::Not(Box::new(inner));
    proof {
        assert(not_pass@ == PredV::Not(Box::new(PredV::Eq("state"@, ValueV::Str("pass"@)))));
    }
    let failing = Plan::Source(data.duplicate()).filter(not_pass).aggregate(fkeys, faggs);

    total.join(failing, "eid".to_owned(), "eid".to_owned(), JoinKind::Inner).map(
        MapOp::Ratio {
            num: "eid_fail_count".to_owned(),
            den: "eid_count".to_owned(),
            out: "pct_failed".to_owned(),
        },
    )
}

/// One scenario's recorded outcome: its name, and either the elapsed
/// milliseconds or the error that stopped it.
#[derive(Debug)]
pub struct ScenarioResult {
    pub name: String,
    pub outcome: Result<u128, Error>,
}

/// Run the fixed scenario suite in order — transform, join, grouped
/// aggregation, filter — continuing past a failed scenario. Each recorded
/// outcome succeeds exactly when its scenario's operation succeeds on the
/// input tables' content, so the results do not depend on the order the
/// scenarios run in and one scenario leaks no state into the next.
pub fn run_benchmarks(compnames: &Table, cves: &Table) -> (res: Vec<ScenarioResult>)
    requires
        compnames.wf(),
        cves.wf(),
    ensures
        res@.len() == 4,
        res@[0].name@ == "transform"@,
        (match spec_scale(cves@, "cvss"@, 10) {
            Ok(_) => res@[0].outcome is Ok,
            Err(ev) => res@[0].outcome matches Err(e) && e@ == ev,
        }),
        res@[1].name@ == "join"@,
        (match spec_join(compnames@, cves@, "eid"@, "eid"@, JoinKind::Left) {
            Ok(_) => res@[1].outcome is Ok,
            Err(ev) => res@[1].outcome matches Err(e) && e@ == ev,
        }),
        res@[2].name@ == "groupby_agg"@,
        (match spec_aggregate(cves@, seq!["eid"@], seq![AggV::Sum("cvss"@, "cvss_sum"@)]) {
            Ok(_) => res@[2].outcome is Ok,
            Err(ev) => res@[2].outcome matches Err(e) && e@ == ev,
        }),
        res@[3].name@ == "filter"@,
        (match spec_filter(cves@, PredV::Lt("cvss"@, ValueV::Num(NUM_SCALE as int / 2))) {
            Ok(_) => res@[3].outcome is Ok,
            Err(ev) => res@[3].outcome matches Err(e) && e@ == ev,
        }),
{
    let mut res: Vec<ScenarioResult> = Vec::new();
    let t = match transform(cves) {
        Ok(r) => Ok(r.1),
        Err(e) => Err(e),
    };
    res.push(ScenarioResult { name: "transform".to_owned(), outcome: t });
    let j = match join(compnames, cves) {
        Ok(r) => Ok(r.1),
        Err(e) => Err(e),
    };
    res.push(ScenarioResult { name: "join".to_owned(), outcome: j });
    let g = match groupby_agg(cves) {
        Ok(r) => Ok(r.1),
        Err(e) => Err(e),
    };
    res.push(ScenarioResult { name: "groupby_agg".to_owned(), outcome: g });
    let f = match filter(cves) {
        Ok(r) => Ok(r.1),
        Err(e) => Err(e),
    };
    res.push(ScenarioResult { name: "filter".to_owned(), outcome: f });
    proof {
        assert(res@.len() == 4);
        assert(res@[0].name@ == "transform"@);
        assert(res@[1].name@ == "join"@);
        assert(res@[2].name@ == "groupby_agg"@);
        assert(res@[3].name@ == "filter"@);
        assert(res@[0].outcome == t);
        assert(res@[1].outcome == j);
        assert(res@[2].outcome == g);
        assert(res@[3].outcome == f);
    }
    res
}

} // verus!
