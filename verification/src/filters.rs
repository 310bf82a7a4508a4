//! The filter expression tree and its evaluator over a payload record.

use vstd::prelude::*;
use crate::errors::DBError;
use crate::payload::{
    spec_compare_field, spec_value_eq, Payload, PayloadValue, ScalarComparisonOp,
};

verus! {

broadcast use vstd::std_specs::vec::group_vec_axioms;

/// A recursive predicate over payload records.
pub enum Filter {
    Match { key: String, value: PayloadValue },
    Compare { key: String, op: ScalarComparisonOp, value: PayloadValue },
    And(Vec<Filter>),
    Or(Vec<Filter>),
    Not(Box<Filter>),
}

/// Semantics of filter evaluation; `None` is an evaluation error (a missing
/// or mistyped field under `Compare`).  `Match` on a missing key is false,
/// not an error.
pub open spec fn spec_eval_filter(f: Filter, p: Payload) -> Option<bool>
    decreases f,
{
    match f {
        Filter::Match { key, value } => match p.spec_get(key@) {
            Some(actual) => Some(spec_value_eq(actual, value)),
            None => Some(false),
        },
        Filter::Compare { key, op, value } => match spec_compare_field(p, key@, op, value) {
            Ok(b) => Some(b),
            Err(_) => None,
        },
        Filter::And(conds) => spec_eval_conj(conds@, p),
        Filter::Or(conds) => spec_eval_disj(conds@, p),
        Filter::Not(inner) => match spec_eval_filter(*inner, p) {
            Some(b) => Some(!b),
            None => None,
        },
    }
}

/// Short-circuit conjunction: true until a conjunct is false; an error stops
/// evaluation.
pub open spec fn spec_eval_conj(s: Seq<Filter>, p: Payload) -> Option<bool>
    decreases s, 0int,
{
    if s.len() == 0 {
        Some(true)
    } else {
        match spec_eval_filter(s[0], p) {
            None => None,
            Some(false) => Some(false),
            Some(true) => spec_eval_conj(s.subrange(1, s.len() as int), p),
        }
    }
}

/// Short-circuit disjunction: false until a disjunct is true; an error stops
/// evaluation.
pub open spec fn spec_eval_disj(s: Seq<Filter>, p: Payload) -> Option<bool>
    decreases s, 0int,
{
    if s.len() == 0 {
        Some(false)
    } else {
        match spec_eval_filter(s[0], p) {
            None => None,
            Some(true) => Some(true),
            Some(false) => spec_eval_disj(s.subrange(1, s.len() as int), p),
        }
    }
}

/// Evaluates whether a given payload satisfies the filter condition.
/// An evaluation error surfaces as `DBError::InvalidPayload`.
pub fn evaluate_filter(filter: &Filter, payload: &Payload) -> (r: Result<bool, DBError>)
    ensures
        match r {
            Ok(b) => spec_eval_filter(*filter, *payload) == Some(b),
            Err(DBError::InvalidPayload(_)) => spec_eval_filter(*filter, *payload) == None::<
                bool,
            >,
            Err(_) => false,
        },
    decreases *filter,
{
    match filter {
        Filter::Match { key, value } => match payload.get(key.as_str()) {
            Some(actual) => Ok(crate::payload::value_eq(actual, value)),
            None => Ok(false),
        },
        Filter::Compare { key, op, value } => payload.compare_field(key.as_str(), *op, value),
        Filter::And(conds) => {
            let n = conds.len();
            proof {
                assert(conds@.subrange(0, n as int) =~= conds@);
            }
            for i in 0..n
                invariant
                    n == conds@.len(),
                    spec_eval_conj(conds@, *payload) == spec_eval_conj(
                        conds@.subrange(i as int, n as int),
                        *payload,
                    ),
                    filter == Filter::And(*conds),
                decreases n - i,
            {
                proof {
                    assert(conds@.subrange(i as int, n as int)[0] == conds@[i as int]);
                }
                match evaluate_filter(&conds[i], payload) {
                    Ok(true) => {
                        proof {
                            assert(conds@.subrange(i as int, n as int).subrange(
                                1,
                                (n - i) as int,
                            ) =~= conds@.subrange(i + 1, n as int));
                        }
                    },
                    Ok(false) => {
                        return Ok(false);
                    },
                    Err(e) => {
                        return Err(e);
                    },
                }
            }
            Ok(true)
        },
        Filter::Or(conds) => {
            let n = conds.len();
            proof {
                assert(conds@.subrange(0, n as int) =~= conds@);
            }
            for i in 0..n
                invariant
                    n == conds@.len(),
                    spec_eval_disj(conds@, *payload) == spec_eval_disj(
                        conds@.subrange(i as int, n as int),
                        *payload,
                    ),
                    filter == Filter::Or(*conds),
                decreases n - i,
            {
                proof {
                    assert(conds@.subrange(i as int, n as int)[0] == conds@[i as int]);
                }
                match evaluate_filter(&conds[i], payload) {
                    Ok(false) => {
                        proof {
                            assert(conds@.subrange(i as int, n as int).subrange(
                                1,
                                (n - i) as int,
                            ) =~= conds@.subrange(i + 1, n as int));
                        }
                    },
                    Ok(true) => {
                        return Ok(true);
                    },
                    Err(e) => {
                        return Err(e);
                    },
                }
            }
            Ok(false)
        },
        Filter::Not(inner) => match evaluate_filter(inner, payload) {
            Ok(b) => Ok(!b),
            Err(e) => Err(e),
        },
    }
}

} // verus!

