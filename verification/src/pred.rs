//! Boolean predicates over column references and literals.

use vstd::prelude::*;
use crate::table::{Table, idx_of, lemma_idx_of};
use crate::value::{Value, ValueV, ColType, cell_ok, cell_lt, cell_eq, val_eq, val_lt};
use crate::errors::ErrorV;

verus! {

/// A predicate over one row: comparisons of a named column against a literal,
/// combined with negation, conjunction and disjunction. A comparison against a
/// `Null` cell is false.
#[derive(Debug)]
pub enum Pred {
    /// The named column's cell is strictly less than the literal (numeric columns only).
    Lt(String, Value),
    /// The named column's cell equals the literal.
    Eq(String, Value),
    Not(Box<Pred>),
    And(Box<Pred>, Box<Pred>),
    Or(Box<Pred>, Box<Pred>),
}

/// Mathematical model of a predicate.
pub ghost enum PredV {
    Lt(Seq<char>, ValueV),
    Eq(Seq<char>, ValueV),
    Not(Box<PredV>),
    And(Box<PredV>, Box<PredV>),
    Or(Box<PredV>, Box<PredV>),
}

impl View for Pred {
    type V = PredV;

    open spec fn view(&self) -> PredV
        decreases self,
    {
        match self {
            Pred::Lt(c, lit) => PredV::Lt(c@, lit@),
            Pred::Eq(c, lit) => PredV::Eq(c@, lit@),
            Pred::Not(q) => PredV::Not(Box::new((**q)@)),
            Pred::And(a, b) => PredV::And(Box::new((**a)@), Box::new((**b)@)),
            Pred::Or(a, b) => PredV::Or(Box::new((**a)@), Box::new((**b)@)),
        }
    }
}

/// Static validity of a predicate against a schema: every referenced column
/// exists, and every literal is a non-null value of the column's type (for
/// `Lt`, of a numeric type). Returns the first error, scanning the predicate
/// left to right, or `None`.
pub open spec fn pred_check(schema: Seq<(Seq<char>, ColType)>, p: PredV) -> Option<ErrorV>
    decreases p,
{
    match p {
        PredV::Lt(c, lit) => {
            let i = idx_of(schema, c);
            if i < 0 {
                Some(ErrorV::Plan(c))
            } else if !((schema[i].1 == ColType::Int && lit is Int) || (schema[i].1
                == ColType::Num && lit is Num)) {
                Some(ErrorV::TypeErr(c))
            } else {
                None
            }
        },
        PredV::Eq(c, lit) => {
            let i = idx_of(schema, c);
            if i < 0 {
                Some(ErrorV::Plan(c))
            } else if lit is Null || !cell_ok(schema[i].1, lit) {
                Some(ErrorV::TypeErr(c))
            } else {
                None
            }
        },
        PredV::Not(q) => pred_check(schema, *q),
        PredV::And(a, b) => if pred_check(schema, *a) is Some {
            pred_check(schema, *a)
        } else {
            pred_check(schema, *b)
        },
        PredV::Or(a, b) => if pred_check(schema, *a) is Some {
            pred_check(schema, *a)
        } else {
            pred_check(schema, *b)
        },
    }
}

/// Truth value of a valid predicate on one row under the given schema.
pub open spec fn pred_holds(schema: Seq<(Seq<char>, ColType)>, p: PredV, row: Seq<ValueV>) -> bool
    decreases p,
{
    match p {
        PredV::Lt(c, lit) => cell_lt(row[idx_of(schema, c)], lit),
        PredV::Eq(c, lit) => cell_eq(row[idx_of(schema, c)], lit),
        PredV::Not(q) => !pred_holds(schema, *q, row),
        PredV::And(a, b) => pred_holds(schema, *a, row) && pred_holds(schema, *b, row),
        PredV::Or(a, b) => pred_holds(schema, *a, row) || pred_holds(schema, *b, row),
    }
}

/// Check a predicate against a table's schema, returning the first error.
pub fn check_pred(t: &Table, p: &Pred) -> (r: Option<crate::errors::Error>)
    ensures
        match r {
            Some(e) => pred_check(t@.schema(), p@) == Some(e@),
            None => pred_check(t@.schema(), p@) is None,
        },
    decreases *p,
{
    match p {
        Pred::Lt(c, lit) => {
            match t.find_col(c) {
                Some(i) => {
                    proof {
                        lemma_idx_of(t@.schema(), c@);
                    }
                    let ok = match (t.cols[i].ty, lit) {
                        (ColType::Int, Value::Int(_)) => true,
                        (ColType::Num, Value::Num(_)) => true,
                        _ => false,
                    };
                    proof {
                        assert(t@.schema()[i as int] == (t@.cols[i as int].name,
                            t@.cols[i as int].ty));
                    }
                    if ok {
                        None
                    } else {
                        Some(crate::errors::Error::TypeErr { col: c.clone() })
                    }
                },
                None => Some(crate::errors::Error::Plan { col: c.clone() }),
            }
        },
        Pred::Eq(c, lit) => {
            match t.find_col(c) {
                Some(i) => {
                    proof {
                        lemma_idx_of(t@.schema(), c@);
                        assert(t@.schema()[i as int] == (t@.cols[i as int].name,
                            t@.cols[i as int].ty));
                    }
                    let ok = match (t.cols[i].ty, lit) {
                        (ColType::Int, Value::Int(_)) => true,
                        (ColType::Num, Value::Num(_)) => true,
                        (ColType::Str, Value::Str(_)) => true,
                        (ColType::Bool, Value::Bool(_)) => true,
                        _ => false,
                    };
                    if ok {
                        None
                    } else {
                        Some(crate::errors::Error::TypeErr { col: c.clone() })
                    }
                },
                None => Some(crate::errors::Error::Plan { col: c.clone() }),
            }
        },
        Pred::Not(q) => check_pred(t, q),
        Pred::And(a, b) => {
            match check_pred(t, a) {
                Some(e) => Some(e),
                None => check_pred(t, b),
            }
        },
        Pred::Or(a, b) => {
            match check_pred(t, a) {
                Some(e) => Some(e),
                None => check_pred(t, b),
            }
        },
    }
}

/// Evaluate a valid predicate on row `r` of the table.
pub fn eval_pred(t: &Table, p: &Pred, r: usize) -> (res: bool)
    requires
        t.wf(),
        pred_check(t@.schema(), p@) is None,
        (r as int) < t@.nrows,
    ensures
        res == pred_holds(t@.schema(), p@, t@.row(r as int)),
    decreases *p,
{
    match p {
        Pred::Lt(c, lit) => {
            match t.find_col(c) {
                Some(i) => {
                    proof {
                        lemma_idx_of(t@.schema(), c@);
                        assert(t@.cols[i as int].cells.len() == t@.nrows);
                        assert(t@.row(r as int)[i as int] == t@.cols[i as int].cells[r as int]);
                    }
                    val_lt(&t.cols[i].cells[r], lit)
                },
                None => {
                    proof {
                        assert(false);
                    }
                    false
                },
            }
        },
        Pred::Eq(c, lit) => {
            match t.find_col(c) {
                Some(i) => {
                    proof {
                        lemma_idx_of(t@.schema(), c@);
                        assert(t@.cols[i as int].cells.len() == t@.nrows);
                        assert(t@.row(r as int)[i as int] == t@.cols[i as int].cells[r as int]);
                    }
                    val_eq(&t.cols[i].cells[r], lit)
                },
                None => {
                    proof {
                        assert(false);
                    }
                    false
                },
            }
        },
        Pred::Not(q) => !eval_pred(t, q, r),
        Pred::And(a, b) => {
            let va = eval_pred(t, a, r);
            if va {
                eval_pred(t, b, r)
            } else {
                false
            }
        },
        Pred::Or(a, b) => {
            let va = eval_pred(t, a, r);
            if va {
                true
            } else {
                eval_pred(t, b, r)
            }
        },
    }
}

} // verus!
