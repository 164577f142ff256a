use relbench::table::{Table, Column, Field, from_rows};
use relbench::value::{Value, ColType, NUM_SCALE};
use relbench::errors::Error;
use relbench::plan::Plan;
use relbench::pred::Pred;
use relbench::maps::MapOp;
use relbench::agg::AggExpr;
use relbench::join::JoinKind;
use relbench::eval::eval;
use relbench::dict::{dict_encode, dict_decode};
use relbench::reader::{match_partitions, load_partitions};
use relbench::scenarios::{join, transform, groupby_agg, filter, cve_findings,
    compliance_findings, run_benchmarks};

fn num(x: f64) -> Value {
    Value::Num((x * NUM_SCALE as f64).round() as i64)
}

fn int_col(name: &str, cells: Vec<i64>) -> Column {
    Column {
        name: name.to_owned(),
        ty: ColType::Int,
        cells: cells.into_iter().map(Value::Int).collect(),
    }
}

fn num_col(name: &str, cells: Vec<f64>) -> Column {
    Column {
        name: name.to_owned(),
        ty: ColType::Num,
        cells: cells.into_iter().map(num).collect(),
    }
}

fn str_col(name: &str, cells: Vec<&str>) -> Column {
    Column {
        name: name.to_owned(),
        ty: ColType::Str,
        cells: cells.into_iter().map(|s| Value::Str(s.to_owned())).collect(),
    }
}

fn table(cols: Vec<Column>) -> Table {
    let nrows = cols.first().map(|c| c.cells.len()).unwrap_or(0);
    Table { cols, nrows, frags: vec![nrows] }
}

fn names_table() -> Table {
    table(vec![int_col("eid", vec![1, 2]), str_col("compname", vec!["A", "B"])])
}

fn findings_table() -> Table {
    table(vec![int_col("eid", vec![1, 1]), num_col("cvss", vec![9.0, 2.0])])
}

fn cell(t: &Table, col: usize, row: usize) -> &Value {
    &t.cols[col].cells[row]
}

fn assert_int(t: &Table, col: usize, row: usize, want: i64) {
    match cell(t, col, row) {
        Value::Int(x) => assert_eq!(*x, want),
        other => panic!("expected Int, got {:?}", other),
    }
}

fn assert_num(t: &Table, col: usize, row: usize, want: f64) {
    match cell(t, col, row) {
        Value::Num(x) => assert_eq!(*x, (want * NUM_SCALE as f64).round() as i64),
        other => panic!("expected Num, got {:?}", other),
    }
}

fn assert_null(t: &Table, col: usize, row: usize) {
    match cell(t, col, row) {
        Value::Null => {}
        other => panic!("expected Null, got {:?}", other),
    }
}

#[test]
fn left_join_pads_and_multiplies() {
    // names x findings on eid: (1,A,9.0), (1,A,2.0), (2,B,null)
    let names = names_table();
    let findings = findings_table();
    let (out, _ms) = join(&names, &findings).unwrap();
    assert_eq!(out.cols.len(), 3);
    assert_eq!(out.cols[0].name, "eid");
    assert_eq!(out.cols[1].name, "compname");
    assert_eq!(out.cols[2].name, "cvss");
    assert_eq!(out.nrows, 3);
    assert_int(&out, 0, 0, 1);
    assert_int(&out, 0, 1, 1);
    assert_int(&out, 0, 2, 2);
    match cell(&out, 1, 0) {
        Value::Str(s) => assert_eq!(s, "A"),
        other => panic!("expected Str, got {:?}", other),
    }
    match cell(&out, 1, 2) {
        Value::Str(s) => assert_eq!(s, "B"),
        other => panic!("expected Str, got {:?}", other),
    }
    assert_num(&out, 2, 0, 9.0);
    assert_num(&out, 2, 1, 2.0);
    assert_null(&out, 2, 2);
}

#[test]
fn left_join_row_count_lower_bound() {
    // every left row appears at least once; duplicate right keys multiply
    let left = table(vec![int_col("eid", vec![1])]);
    let right = table(vec![int_col("eid", vec![1, 1]), num_col("cvss", vec![1.0, 2.0])]);
    let (out, _) = join(&left, &right).unwrap();
    assert_eq!(out.nrows, 2);
}

#[test]
fn aggregate_sums_per_group() {
    // {1: 10.0, 2: 5.0}, group order unspecified
    let findings = table(vec![
        int_col("eid", vec![1, 1, 2]),
        num_col("cvss", vec![9.0, 1.0, 5.0]),
    ]);
    let (out, _) = groupby_agg(&findings).unwrap();
    assert_eq!(out.cols.len(), 2);
    assert_eq!(out.cols[0].name, "eid");
    assert_eq!(out.cols[1].name, "cvss_sum");
    assert_eq!(out.nrows, 2);
    let mut seen = std::collections::BTreeMap::new();
    for r in 0..out.nrows {
        let eid = match cell(&out, 0, r) {
            Value::Int(x) => *x,
            other => panic!("expected Int, got {:?}", other),
        };
        let sum = match cell(&out, 1, r) {
            Value::Num(x) => *x,
            other => panic!("expected Num, got {:?}", other),
        };
        seen.insert(eid, sum);
    }
    assert_eq!(seen.get(&1), Some(&(10 * NUM_SCALE)));
    assert_eq!(seen.get(&2), Some(&(5 * NUM_SCALE)));
}

#[test]
fn aggregate_count_partitions_rows() {
    // the per-group counts sum to the input row count, each key once
    let findings = table(vec![
        int_col("eid", vec![4, 4, 7, 4, 9]),
        num_col("cvss", vec![1.0, 2.0, 3.0, 4.0, 5.0]),
    ]);
    let plan = cve_findings(&findings);
    let out = eval(&plan, 0).unwrap();
    assert_eq!(out.cols[1].name, "cvss_count");
    assert_eq!(out.nrows, 3);
    let mut total = 0;
    let mut keys = Vec::new();
    for r in 0..out.nrows {
        match cell(&out, 0, r) {
            Value::Int(x) => keys.push(*x),
            other => panic!("expected Int, got {:?}", other),
        }
        match cell(&out, 1, r) {
            Value::Int(x) => total += *x,
            other => panic!("expected Int, got {:?}", other),
        }
    }
    assert_eq!(total, 5);
    keys.sort();
    keys.dedup();
    assert_eq!(keys, vec![4, 7, 9]);
}

#[test]
fn filter_keeps_matching_rows_in_order() {
    // cvss < 0.5 over [0.3, 0.9, 0.4] keeps 0.3 then 0.4
    let findings = table(vec![num_col("cvss", vec![0.3, 0.9, 0.4])]);
    let (out, _) = filter(&findings).unwrap();
    assert_eq!(out.nrows, 2);
    assert_num(&out, 0, 0, 0.3);
    assert_num(&out, 0, 1, 0.4);
}

#[test]
fn filter_is_idempotent_on_concrete_data() {
    let findings = table(vec![num_col("cvss", vec![0.3, 0.9, 0.4, 0.1])]);
    let (once, _) = filter(&findings).unwrap();
    let (twice, _) = filter(&once).unwrap();
    assert_eq!(once.nrows, twice.nrows);
    for r in 0..once.nrows {
        match (cell(&once, 0, r), cell(&twice, 0, r)) {
            (Value::Num(a), Value::Num(b)) => assert_eq!(a, b),
            other => panic!("expected Num pair, got {:?}", other),
        }
    }
}

#[test]
fn transform_scales_by_ten() {
    let findings = table(vec![int_col("eid", vec![1, 2]), num_col("cvss", vec![9.0, 0.5])]);
    let (out, _) = transform(&findings).unwrap();
    assert_eq!(out.nrows, 2);
    assert_int(&out, 0, 0, 1);
    assert_num(&out, 1, 0, 90.0);
    assert_num(&out, 1, 1, 5.0);
}

#[test]
fn transform_overflow_is_reported() {
    let findings = table(vec![Column {
        name: "cvss".to_owned(),
        ty: ColType::Num,
        cells: vec![Value::Num(i64::MAX)],
    }]);
    match transform(&findings) {
        Err(Error::Overflow) => {}
        other => panic!("expected Overflow, got {:?}", other),
    }
}

#[test]
fn missing_column_is_a_plan_error() {
    let findings = table(vec![int_col("eid", vec![1])]);
    match transform(&findings) {
        Err(Error::Plan { col }) => assert_eq!(col, "cvss"),
        other => panic!("expected Plan error, got {:?}", other),
    }
}

#[test]
fn filter_on_string_column_is_a_type_error() {
    let findings = table(vec![str_col("cvss", vec!["low"])]);
    match filter(&findings) {
        Err(Error::TypeErr { col }) => assert_eq!(col, "cvss"),
        other => panic!("expected TypeErr, got {:?}", other),
    }
}

#[test]
fn missing_join_key_is_a_join_key_error() {
    let left = table(vec![int_col("machine", vec![1])]);
    let right = findings_table();
    match join(&left, &right) {
        Err(Error::JoinKey { col }) => assert_eq!(col, "eid"),
        other => panic!("expected JoinKey error, got {:?}", other),
    }
}

#[test]
fn select_projects_and_reorders() {
    let t = names_table();
    let plan = Plan::Source(t).select(vec!["compname".to_owned(), "eid".to_owned()]);
    let out = eval(&plan, 0).unwrap();
    assert_eq!(out.cols[0].name, "compname");
    assert_eq!(out.cols[1].name, "eid");
    assert_eq!(out.nrows, 2);
}

#[test]
fn select_unknown_column_is_a_plan_error() {
    let t = names_table();
    let plan = Plan::Source(t).select(vec!["missing".to_owned()]);
    match eval(&plan, 0) {
        Err(Error::Plan { col }) => assert_eq!(col, "missing"),
        other => panic!("expected Plan error, got {:?}", other),
    }
}

#[test]
fn rechunk_preserves_content() {
    let a = findings_table();
    let b = table(vec![int_col("eid", vec![3]), num_col("cvss", vec![4.0])]);
    let stacked = a.vstack(&b).unwrap();
    assert_eq!(stacked.frags, vec![2, 1]);
    let rechunked = stacked.rechunk();
    assert_eq!(rechunked.frags, vec![3]);
    assert_eq!(rechunked.nrows, stacked.nrows);
    assert_eq!(rechunked.cols.len(), stacked.cols.len());
    for c in 0..stacked.cols.len() {
        assert_eq!(rechunked.cols[c].name, stacked.cols[c].name);
        for r in 0..stacked.nrows {
            match (&rechunked.cols[c].cells[r], &stacked.cols[c].cells[r]) {
                (Value::Int(x), Value::Int(y)) => assert_eq!(x, y),
                (Value::Num(x), Value::Num(y)) => assert_eq!(x, y),
                other => panic!("unexpected cell pair {:?}", other),
            }
        }
    }
}

#[test]
fn vstack_rejects_schema_mismatch() {
    let a = findings_table();
    let b = table(vec![int_col("eid", vec![3]), int_col("cvss", vec![4])]);
    match a.vstack(&b) {
        Err(Error::SchemaMismatch) => {}
        other => panic!("expected SchemaMismatch, got {:?}", other),
    }
}

#[test]
fn match_partitions_keeps_matching_names_in_order() {
    let names = vec![
        "part-0".to_owned(),
        "readme.txt".to_owned(),
        "part-1".to_owned(),
    ];
    let kept = match_partitions(&names, "part*").unwrap();
    assert_eq!(kept, vec!["part-0".to_owned(), "part-1".to_owned()]);
}

#[test]
fn match_partitions_rejects_bad_pattern() {
    let names = vec!["part-0".to_owned()];
    match match_partitions(&names, "part[") {
        Err(Error::Format { .. }) => {}
        other => panic!("expected Format error, got {:?}", other),
    }
}

#[test]
fn load_partitions_concatenates_and_rechunks() {
    let parts = vec![
        findings_table(),
        table(vec![int_col("eid", vec![5]), num_col("cvss", vec![7.5])]),
    ];
    let out = load_partitions(&parts).unwrap();
    assert_eq!(out.nrows, 3);
    assert_eq!(out.frags, vec![3]);
    assert_int(&out, 0, 2, 5);
    assert_num(&out, 1, 2, 7.5);
}

#[test]
fn load_partitions_rejects_diverging_schema() {
    let parts = vec![findings_table(), table(vec![int_col("eid", vec![5])])];
    match load_partitions(&parts) {
        Err(Error::SchemaMismatch) => {}
        other => panic!("expected SchemaMismatch, got {:?}", other),
    }
}

#[test]
fn load_zero_partitions_gives_empty_table() {
    let parts: Vec<Table> = Vec::new();
    let out = load_partitions(&parts).unwrap();
    assert_eq!(out.nrows, 0);
    assert_eq!(out.cols.len(), 0);
}

#[test]
fn compliance_findings_computes_failure_fraction() {
    // eid 1: two findings, one failing -> 0.5; eid 2: one finding, failing -> 1.0
    let data = table(vec![
        int_col("eid", vec![1, 1, 2]),
        str_col("state", vec!["pass", "fail", "error"]),
    ]);
    let plan = compliance_findings(&data);
    let out = eval(&plan, 0).unwrap();
    assert_eq!(out.cols[0].name, "eid");
    assert_eq!(out.cols[1].name, "eid_count");
    assert_eq!(out.cols[2].name, "eid_fail_count");
    assert_eq!(out.cols[3].name, "pct_failed");
    let mut seen = std::collections::BTreeMap::new();
    for r in 0..out.nrows {
        let eid = match cell(&out, 0, r) {
            Value::Int(x) => *x,
            other => panic!("expected Int, got {:?}", other),
        };
        let pct = match cell(&out, 3, r) {
            Value::Num(x) => *x,
            other => panic!("expected Num, got {:?}", other),
        };
        seen.insert(eid, pct);
    }
    assert_eq!(seen.get(&1), Some(&(NUM_SCALE / 2)));
    assert_eq!(seen.get(&2), Some(&NUM_SCALE));
}

#[test]
fn scenarios_are_isolated_from_each_other() {
    // running the suite twice, and the scenarios singly in another order,
    // produces identical per-scenario tables
    let names = names_table();
    let findings = table(vec![
        int_col("eid", vec![1, 2, 2]),
        num_col("cvss", vec![0.3, 0.9, 0.4]),
    ]);
    let first = run_benchmarks(&names, &findings);
    let second = run_benchmarks(&names, &findings);
    assert_eq!(first.len(), 4);
    assert_eq!(second.len(), 4);
    for (a, b) in first.iter().zip(second.iter()) {
        assert_eq!(a.name, b.name);
        assert_eq!(a.outcome.is_ok(), b.outcome.is_ok());
    }
    // a different order: filter, then join, then transform
    let (f1, _) = filter(&findings).unwrap();
    let (j1, _) = join(&names, &findings).unwrap();
    let (t1, _) = transform(&findings).unwrap();
    let (t2, _) = transform(&findings).unwrap();
    let (j2, _) = join(&names, &findings).unwrap();
    let (f2, _) = filter(&findings).unwrap();
    assert_eq!(f1.nrows, f2.nrows);
    assert_eq!(j1.nrows, j2.nrows);
    assert_eq!(t1.nrows, t2.nrows);
    for r in 0..f1.nrows {
        match (&f1.cols[1].cells[r], &f2.cols[1].cells[r]) {
            (Value::Num(a), Value::Num(b)) => assert_eq!(a, b),
            other => panic!("unexpected cell pair {:?}", other),
        }
    }
}

#[test]
fn run_benchmarks_reports_each_scenario() {
    let names = names_table();
    let findings = findings_table();
    let results = run_benchmarks(&names, &findings);
    assert_eq!(results.len(), 4);
    assert_eq!(results[0].name, "transform");
    assert_eq!(results[1].name, "join");
    assert_eq!(results[2].name, "groupby_agg");
    assert_eq!(results[3].name, "filter");
    for r in &results {
        assert!(r.outcome.is_ok());
    }
}

#[test]
fn run_benchmarks_survives_a_failing_scenario() {
    // no cvss column: every cvss scenario fails, yet all four report
    let names = names_table();
    let findings = table(vec![int_col("eid", vec![1])]);
    let results = run_benchmarks(&names, &findings);
    assert_eq!(results.len(), 4);
    assert!(results[0].outcome.is_err());
    assert!(results[1].outcome.is_ok());
    assert!(results[2].outcome.is_err());
    assert!(results[3].outcome.is_err());
}

#[test]
fn from_rows_builds_the_stated_table() {
    let schema = vec![
        Field { name: "eid".to_owned(), ty: ColType::Int },
        Field { name: "cvss".to_owned(), ty: ColType::Num },
    ];
    let rows = vec![vec![Value::Int(1), num(0.3)], vec![Value::Int(2), num(0.9)]];
    let t = from_rows(schema, &rows);
    assert_eq!(t.nrows, 2);
    assert_int(&t, 0, 1, 2);
    assert_num(&t, 1, 0, 0.3);
}

#[test]
fn batched_evaluation_matches_unbatched() {
    let findings = table(vec![
        int_col("eid", vec![1, 2, 3, 4, 5]),
        num_col("cvss", vec![0.1, 0.9, 0.2, 0.8, 0.3]),
    ]);
    let plan1 = Plan::Source(findings.duplicate()).filter(Pred::Lt(
        "cvss".to_owned(),
        Value::Num(NUM_SCALE / 2),
    ));
    let plan2 = Plan::Source(findings.duplicate()).filter(Pred::Lt(
        "cvss".to_owned(),
        Value::Num(NUM_SCALE / 2),
    ));
    let unbatched = eval(&plan1, 0).unwrap();
    let batched = eval(&plan2, 2).unwrap();
    assert_eq!(unbatched.nrows, batched.nrows);
    assert_eq!(unbatched.nrows, 3);
    for r in 0..unbatched.nrows {
        match (&unbatched.cols[1].cells[r], &batched.cols[1].cells[r]) {
            (Value::Num(a), Value::Num(b)) => assert_eq!(a, b),
            other => panic!("unexpected cell pair {:?}", other),
        }
    }
}

#[test]
fn aggregate_ratio_handles_map_op() {
    let data = table(vec![
        int_col("eid", vec![1]),
        int_col("total", vec![4]),
        int_col("failed", vec![1]),
    ]);
    let plan = Plan::Source(data).map(MapOp::Ratio {
        num: "failed".to_owned(),
        den: "total".to_owned(),
        out: "pct".to_owned(),
    });
    let out = eval(&plan, 0).unwrap();
    assert_eq!(out.cols[3].name, "pct");
    assert_num(&out, 3, 0, 0.25);
}

#[test]
fn inner_join_drops_unmatched_rows() {
    let left = names_table();
    let right = findings_table();
    let plan = Plan::Source(left).join(
        Plan::Source(right),
        "eid".to_owned(),
        "eid".to_owned(),
        JoinKind::Inner,
    );
    let out = eval(&plan, 0).unwrap();
    assert_eq!(out.nrows, 2);
    assert_int(&out, 0, 0, 1);
    assert_int(&out, 0, 1, 1);
}

#[test]
fn aggregate_on_empty_table_has_no_groups() {
    let findings = table(vec![int_col("eid", vec![]), num_col("cvss", vec![])]);
    let plan = Plan::Source(findings).aggregate(
        vec!["eid".to_owned()],
        vec![AggExpr::Sum { col: "cvss".to_owned(), out: "s".to_owned() }],
    );
    let out = eval(&plan, 0).unwrap();
    assert_eq!(out.nrows, 0);
    assert_eq!(out.cols.len(), 2);
}

#[test]
fn dictionary_encoding_round_trips() {
    let cells = vec![
        Value::Str("a".to_owned()),
        Value::Str("b".to_owned()),
        Value::Str("a".to_owned()),
        Value::Null,
        Value::Str("b".to_owned()),
    ];
    let (codes, dict) = dict_encode(&cells);
    assert_eq!(dict, vec!["a".to_owned(), "b".to_owned()]);
    assert_eq!(codes, vec![0, 1, 0, -1, 1]);
    let decoded = dict_decode(&codes, &dict);
    assert_eq!(decoded.len(), cells.len());
    for (a, b) in decoded.iter().zip(cells.iter()) {
        match (a, b) {
            (Value::Str(x), Value::Str(y)) => assert_eq!(x, y),
            (Value::Null, Value::Null) => {}
            other => panic!("mismatch {:?}", other),
        }
    }
}
