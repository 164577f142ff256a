//! Deferred operation plans: building one performs no work; the engine in
//! [`crate::eval`] materializes it exactly once.

use vstd::prelude::*;
use crate::table::Table;
use crate::pred::Pred;
use crate::maps::MapOp;
use crate::agg::AggExpr;
use crate::join::JoinKind;

verus! {

/// One node of a deferred operation plan.
#[derive(Debug)]
pub enum Plan {
    /// An already-loaded table.
    Source(Table),
    /// Projection to the named columns.
    Select { input: Box<Plan>, names: Vec<String> },
    /// Predicate filtering.
    Filter { input: Box<Plan>, pred: Pred },
    /// A join of two plans on one key column per side.
    Join {
        left: Box<Plan>,
        right: Box<Plan>,
        left_key: String,
        right_key: String,
        kind: JoinKind,
    },
    /// Grouped aggregation.
    Aggregate { input: Box<Plan>, keys: Vec<String>, aggs: Vec<AggExpr> },
    /// A cell-level transform.
    Transform { input: Box<Plan>, op: MapOp },
}

impl Plan {
    /// Defer a projection. No data is read or computed.
    pub fn select(self, names: Vec<String>) -> (r: Plan)
        ensures
            (r matches Plan::Select { input, names: n2 } && *input == self && n2 == names),
    {
        Plan::Select { input: Box::new(self), names }
    }

    /// Defer a filter. No data is read or computed.
    pub fn filter(self, pred: Pred) -> (r: Plan)
        ensures
            (r matches Plan::Filter { input, pred: p2 } && *input == self && p2 == pred),
    {
        Plan::Filter { input: Box::new(self), pred }
    }

    /// Defer a join. No data is read or computed.
    pub fn join(self, right: Plan, left_key: String, right_key: String, kind: JoinKind) -> (r:
        Plan)
        ensures
            (r matches Plan::Join { left, right: r2, left_key: lk, right_key: rk, kind: k2 }
                && *left == self && *r2 == right && lk == left_key && rk == right_key && k2
                == kind),
    {
        Plan::Join {
            left: Box::new(self),
            right: Box::new(right),
            left_key,
            right_key,
            kind,
        }
    }

    /// Defer a grouped aggregation. No data is read or computed.
    pub fn aggregate(self, keys: Vec<String>, aggs: Vec<AggExpr>) -> (r: Plan)
        ensures
            (r matches Plan::Aggregate { input, keys: k2, aggs: a2 } && *input == self && k2
                == keys && a2 == aggs),
    {
        Plan::Aggregate { input: Box::new(self), keys, aggs }
    }

    /// Defer a cell-level transform. No data is read or computed.
    pub fn map(self, op: MapOp) -> (r: Plan)
        ensures
            (r matches Plan::Transform { input, op: o2 } && *input == self && o2 == op),
    {
        Plan::Transform { input: Box::new(self), op }
    }
}

} // verus!
