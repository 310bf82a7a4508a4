//! Payload values and records: tagged scalar/list values, scalar
//! comparisons, list queries, and the named-field record that points carry.
//!
//! Floating-point payload values are carried as binary64 bit patterns
//! (`u64`) and compared under the natural numeric total order
//! (`spec_f64_order_key`): -0.0 equals +0.0, all NaNs are equal to each
//! other, and NaN is ordered last, above +infinity.

use vstd::prelude::*;
use vstd::string::StringExecFns;
use vstd::string::StrSliceExecFns;
use crate::binary32::{f64_order_key, spec_f64_order_key};
use crate::errors::DBError;

verus! {

#[derive(Debug, Clone, PartialEq)]
pub enum PayloadValue {
    Int(i64),
    Float(u64),
    Str(String),
    Bool(bool),
    ListInt(Vec<i64>),
    ListFloat(Vec<u64>),
    ListStr(Vec<String>),
    ListBool(Vec<bool>),
}

#[derive(Debug, Clone, Copy)]
pub enum ScalarComparisonOp {
    Eq,
    Neq,
    Lt,
    Lte,
    Gt,
    Gte,
}

#[derive(Debug, Clone)]
pub enum ListQueryOp<'a> {
    Contains(&'a PayloadValue),
    Equals(&'a PayloadValue),
    Length(ScalarComparisonOp, usize),
    ElementCompare(usize, ScalarComparisonOp, &'a PayloadValue),
}

// ---------------------------------------------------------------------------
// Lexicographic order on strings (by character code point).
// ---------------------------------------------------------------------------

pub open spec fn spec_str_lt(a: Seq<char>, b: Seq<char>) -> bool
    decreases a.len(),
{
    if b.len() == 0 {
        false
    } else if a.len() == 0 {
        true
    } else if a[0] != b[0] {
        (a[0] as u32) < (b[0] as u32)
    } else {
        spec_str_lt(a.skip(1), b.skip(1))
    }
}

/// Lexicographic "less than" on strings.
pub fn str_lt(a: &str, b: &str) -> (r: bool)
    ensures
        r == spec_str_lt(a@, b@),
{
    let alen = a.unicode_len();
    let blen = b.unicode_len();
    let mut i: usize = 0;
    proof {
        assert(a@.skip(0) =~= a@);
        assert(b@.skip(0) =~= b@);
    }
    loop
        invariant
            i <= alen,
            i <= blen,
            alen == a@.len(),
            blen == b@.len(),
            spec_str_lt(a@, b@) == spec_str_lt(a@.skip(i as int), b@.skip(i as int)),
        decreases alen - i,
    {
        if i >= blen {
            return false;
        }
        if i >= alen {
            return true;
        }
        let ca = a.get_char(i);
        let cb = b.get_char(i);
        if ca != cb {
            return (ca as u32) < (cb as u32);
        }
        proof {
            assert(a@.skip(i as int).skip(1) =~= a@.skip(i + 1));
            assert(b@.skip(i as int).skip(1) =~= b@.skip(i + 1));
        }
        i = i + 1;
    }
}

fn string_eq(a: &String, b: &str) -> (r: bool)
    ensures
        r == (a@ == b@),
{
    let bs = String::from_str(b);
    *a == bs
}

// ---------------------------------------------------------------------------
// Structural equality of payload values.
// ---------------------------------------------------------------------------

/// Structural equality: tags must match and contents must be equal
/// (numeric total-order equality for floats, so -0.0 equals +0.0 and all
/// NaNs are one value; character equality for strings).
pub open spec fn spec_value_eq(a: PayloadValue, b: PayloadValue) -> bool {
    match (a, b) {
        (PayloadValue::Int(x), PayloadValue::Int(y)) => x == y,
        (PayloadValue::Float(x), PayloadValue::Float(y)) => spec_f64_order_key(x)
            == spec_f64_order_key(y),
        (PayloadValue::Str(x), PayloadValue::Str(y)) => x@ == y@,
        (PayloadValue::Bool(x), PayloadValue::Bool(y)) => x == y,
        (PayloadValue::ListInt(x), PayloadValue::ListInt(y)) => x@ == y@,
        (PayloadValue::ListFloat(x), PayloadValue::ListFloat(y)) => x@.len() == y@.len() && (forall|
            i: int,
        |
            0 <= i < x@.len() ==> spec_f64_order_key(#[trigger] x@[i]) == spec_f64_order_key(
                y@[i],
            )),
        (PayloadValue::ListStr(x), PayloadValue::ListStr(y)) => x@.len() == y@.len() && (forall|
            i: int,
        |
            0 <= i < x@.len() ==> (#[trigger] x@[i])@ == y@[i]@),
        (PayloadValue::ListBool(x), PayloadValue::ListBool(y)) => x@ == y@,
        _ => false,
    }
}

/// The two values carry the same tag (same variant).
pub open spec fn spec_same_variant(a: PayloadValue, b: PayloadValue) -> bool {
    match (a, b) {
        (PayloadValue::Int(_), PayloadValue::Int(_)) => true,
        (PayloadValue::Float(_), PayloadValue::Float(_)) => true,
        (PayloadValue::Str(_), PayloadValue::Str(_)) => true,
        (PayloadValue::Bool(_), PayloadValue::Bool(_)) => true,
        (PayloadValue::ListInt(_), PayloadValue::ListInt(_)) => true,
        (PayloadValue::ListFloat(_), PayloadValue::ListFloat(_)) => true,
        (PayloadValue::ListStr(_), PayloadValue::ListStr(_)) => true,
        (PayloadValue::ListBool(_), PayloadValue::ListBool(_)) => true,
        _ => false,
    }
}

fn vec_eq_i64(a: &Vec<i64>, b: &Vec<i64>) -> (r: bool)
    ensures
        r == (a@ == b@),
{
    if a.len() != b.len() {
        proof {
            assert(a@.len() != b@.len());
        }
        return false;
    }
    let n = a.len();
    for i in 0..n
        invariant
            n == a@.len() == b@.len(),
            forall|j: int| 0 <= j < i ==> a@[j] == b@[j],
    {
        if a[i] != b[i] {
            return false;
        }
    }
    proof {
        assert(a@ =~= b@);
    }
    true
}

fn vec_eq_f64bits(a: &Vec<u64>, b: &Vec<u64>) -> (r: bool)
    ensures
        r == (a@.len() == b@.len() && (forall|i: int|
            0 <= i < a@.len() ==> spec_f64_order_key(#[trigger] a@[i]) == spec_f64_order_key(
                b@[i],
            ))),
{
    if a.len() != b.len() {
        return false;
    }
    let n = a.len();
    for i in 0..n
        invariant
            n == a@.len() == b@.len(),
            forall|j: int|
                0 <= j < i ==> spec_f64_order_key(#[trigger] a@[j]) == spec_f64_order_key(b@[j]),
    {
        if f64_order_key(a[i]) != f64_order_key(b[i]) {
            return false;
        }
    }
    true
}

fn vec_eq_bool(a: &Vec<bool>, b: &Vec<bool>) -> (r: bool)
    ensures
        r == (a@ == b@),
{
    if a.len() != b.len() {
        proof {
            assert(a@.len() != b@.len());
        }
        return false;
    }
    let n = a.len();
    for i in 0..n
        invariant
            n == a@.len() == b@.len(),
            forall|j: int| 0 <= j < i ==> a@[j] == b@[j],
    {
        if a[i] != b[i] {
            return false;
        }
    }
    proof {
        assert(a@ =~= b@);
    }
    true
}

fn vec_eq_str(a: &Vec<String>, b: &Vec<String>) -> (r: bool)
    ensures
        r == (a@.len() == b@.len() && (forall|i: int|
            0 <= i < a@.len() ==> (#[trigger] a@[i])@ == b@[i]@)),
{
    if a.len() != b.len() {
        return false;
    }
    let n = a.len();
    for i in 0..n
        invariant
            n == a@.len() == b@.len(),
            forall|j: int| 0 <= j < i ==> (#[trigger] a@[j])@ == b@[j]@,
    {
        let same = a[i] == b[i];
        if !same {
            return false;
        }
    }
    true
}

/// Structural equality of two payload values.
pub fn value_eq(a: &PayloadValue, b: &PayloadValue) -> (r: bool)
    ensures
        r == spec_value_eq(*a, *b),
{
    match (a, b) {
        (PayloadValue::Int(x), PayloadValue::Int(y)) => x == y,
        (PayloadValue::Float(x), PayloadValue::Float(y)) => f64_order_key(*x) == f64_order_key(
            *y,
        ),
        (PayloadValue::Str(x), PayloadValue::Str(y)) => *x == *y,
        (PayloadValue::Bool(x), PayloadValue::Bool(y)) => x == y,
        (PayloadValue::ListInt(x), PayloadValue::ListInt(y)) => vec_eq_i64(x, y),
        (PayloadValue::ListFloat(x), PayloadValue::ListFloat(y)) => vec_eq_f64bits(x, y),
        (PayloadValue::ListStr(x), PayloadValue::ListStr(y)) => vec_eq_str(x, y),
        (PayloadValue::ListBool(x), PayloadValue::ListBool(y)) => vec_eq_bool(x, y),
        _ => false,
    }
}

// ---------------------------------------------------------------------------
// Scalar comparisons.
// ---------------------------------------------------------------------------

pub open spec fn spec_cmp_i64(op: ScalarComparisonOp, x: i64, y: i64) -> bool {
    match op {
        ScalarComparisonOp::Eq => x == y,
        ScalarComparisonOp::Neq => x != y,
        ScalarComparisonOp::Lt => x < y,
        ScalarComparisonOp::Lte => x <= y,
        ScalarComparisonOp::Gt => x > y,
        ScalarComparisonOp::Gte => x >= y,
    }
}

/// Comparison of float bit patterns under the natural numeric total order:
/// -0.0 equals +0.0 and NaN is one value ordered last.
pub open spec fn spec_cmp_f64bits(op: ScalarComparisonOp, x: u64, y: u64) -> bool {
    match op {
        ScalarComparisonOp::Eq => spec_f64_order_key(x) == spec_f64_order_key(y),
        ScalarComparisonOp::Neq => spec_f64_order_key(x) != spec_f64_order_key(y),
        ScalarComparisonOp::Lt => spec_f64_order_key(x) < spec_f64_order_key(y),
        ScalarComparisonOp::Lte => spec_f64_order_key(x) <= spec_f64_order_key(y),
        ScalarComparisonOp::Gt => spec_f64_order_key(x) > spec_f64_order_key(y),
        ScalarComparisonOp::Gte => spec_f64_order_key(x) >= spec_f64_order_key(y),
    }
}

pub open spec fn spec_cmp_str(op: ScalarComparisonOp, x: Seq<char>, y: Seq<char>) -> bool {
    match op {
        ScalarComparisonOp::Eq => x == y,
        ScalarComparisonOp::Neq => x != y,
        ScalarComparisonOp::Lt => spec_str_lt(x, y),
        ScalarComparisonOp::Lte => spec_str_lt(x, y) || x == y,
        ScalarComparisonOp::Gt => spec_str_lt(y, x),
        ScalarComparisonOp::Gte => spec_str_lt(y, x) || x == y,
    }
}

pub open spec fn spec_cmp_usize(op: ScalarComparisonOp, x: nat, y: nat) -> bool {
    match op {
        ScalarComparisonOp::Eq => x == y,
        ScalarComparisonOp::Neq => x != y,
        ScalarComparisonOp::Lt => x < y,
        ScalarComparisonOp::Lte => x <= y,
        ScalarComparisonOp::Gt => x > y,
        ScalarComparisonOp::Gte => x >= y,
    }
}

/// Scalar comparison of two payload values: defined only when the tags
/// match and the operation is defined for that tag (all six operations for
/// numbers and strings, equality and inequality for booleans).  `None`
/// means "undefined", which is distinct from `Some(false)`.
pub open spec fn spec_compare_scalar(
    a: PayloadValue,
    op: ScalarComparisonOp,
    b: PayloadValue,
) -> Option<bool> {
    match (a, b) {
        (PayloadValue::Int(x), PayloadValue::Int(y)) => Some(spec_cmp_i64(op, x, y)),
        (PayloadValue::Float(x), PayloadValue::Float(y)) => Some(spec_cmp_f64bits(op, x, y)),
        (PayloadValue::Str(x), PayloadValue::Str(y)) => Some(spec_cmp_str(op, x@, y@)),
        (PayloadValue::Bool(x), PayloadValue::Bool(y)) => match op {
            ScalarComparisonOp::Eq => Some(x == y),
            ScalarComparisonOp::Neq => Some(x != y),
            _ => None,
        },
        _ => None,
    }
}

fn cmp_i64(op: ScalarComparisonOp, x: i64, y: i64) -> (r: bool)
    ensures
        r == spec_cmp_i64(op, x, y),
{
    match op {
        ScalarComparisonOp::Eq => x == y,
        ScalarComparisonOp::Neq => x != y,
        ScalarComparisonOp::Lt => x < y,
        ScalarComparisonOp::Lte => x <= y,
        ScalarComparisonOp::Gt => x > y,
        ScalarComparisonOp::Gte => x >= y,
    }
}

fn cmp_f64bits(op: ScalarComparisonOp, x: u64, y: u64) -> (r: bool)
    ensures
        r == spec_cmp_f64bits(op, x, y),
{
    let kx = f64_order_key(x);
    let ky = f64_order_key(y);
    match op {
        ScalarComparisonOp::Eq => kx == ky,
        ScalarComparisonOp::Neq => kx != ky,
        ScalarComparisonOp::Lt => kx < ky,
        ScalarComparisonOp::Lte => kx <= ky,
        ScalarComparisonOp::Gt => kx > ky,
        ScalarComparisonOp::Gte => kx >= ky,
    }
}

fn cmp_str(op: ScalarComparisonOp, x: &String, y: &String) -> (r: bool)
    ensures
        r == spec_cmp_str(op, x@, y@),
{
    match op {
        ScalarComparisonOp::Eq => *x == *y,
        ScalarComparisonOp::Neq => !(*x == *y),
        ScalarComparisonOp::Lt => str_lt(x.as_str(), y.as_str()),
        ScalarComparisonOp::Lte => str_lt(x.as_str(), y.as_str()) || *x == *y,
        ScalarComparisonOp::Gt => str_lt(y.as_str(), x.as_str()),
        ScalarComparisonOp::Gte => str_lt(y.as_str(), x.as_str()) || *x == *y,
    }
}

fn cmp_usize(op: ScalarComparisonOp, x: usize, y: usize) -> (r: bool)
    ensures
        r == spec_cmp_usize(op, x as nat, y as nat),
{
    match op {
        ScalarComparisonOp::Eq => x == y,
        ScalarComparisonOp::Neq => x != y,
        ScalarComparisonOp::Lt => x < y,
        ScalarComparisonOp::Lte => x <= y,
        ScalarComparisonOp::Gt => x > y,
        ScalarComparisonOp::Gte => x >= y,
    }
}

// ---------------------------------------------------------------------------
// List queries.
// ---------------------------------------------------------------------------

pub open spec fn spec_seq_contains_i64(s: Seq<i64>, x: i64) -> bool {
    exists|i: int| 0 <= i < s.len() && s[i] == x
}

pub open spec fn spec_seq_contains_f64bits(s: Seq<u64>, x: u64) -> bool {
    exists|i: int|
        0 <= i < s.len() && spec_f64_order_key(#[trigger] s[i]) == spec_f64_order_key(x)
}

pub open spec fn spec_seq_contains_str(s: Seq<String>, x: Seq<char>) -> bool {
    exists|i: int| 0 <= i < s.len() && (#[trigger] s[i])@ == x
}

pub open spec fn spec_seq_contains_bool(s: Seq<bool>, x: bool) -> bool {
    exists|i: int| 0 <= i < s.len() && s[i] == x
}

/// Semantics of a list query against a payload value; `None` means the
/// query is undefined for this value (wrong tags, or a comparison that the
/// element type does not support, or an out-of-bounds element index).
pub open spec fn spec_eval_list_query(v: PayloadValue, op: ListQueryOp) -> Option<bool> {
    match op {
        ListQueryOp::Contains(val) => match (v, *val) {
            (PayloadValue::ListInt(vec), PayloadValue::Int(x)) => Some(
                spec_seq_contains_i64(vec@, x),
            ),
            (PayloadValue::ListFloat(vec), PayloadValue::Float(x)) => Some(
                spec_seq_contains_f64bits(vec@, x),
            ),
            (PayloadValue::ListStr(vec), PayloadValue::Str(x)) => Some(
                spec_seq_contains_str(vec@, x@),
            ),
            (PayloadValue::ListBool(vec), PayloadValue::Bool(x)) => Some(
                spec_seq_contains_bool(vec@, x),
            ),
            _ => None,
        },
        ListQueryOp::Equals(val) => if spec_same_variant(v, *val) {
            Some(spec_value_eq(v, *val))
        } else {
            None
        },
        ListQueryOp::Length(cmp_op, len) => match v {
            PayloadValue::ListInt(vec) => Some(spec_cmp_usize(cmp_op, vec@.len(), len as nat)),
            PayloadValue::ListFloat(vec) => Some(spec_cmp_usize(cmp_op, vec@.len(), len as nat)),
            PayloadValue::ListStr(vec) => Some(spec_cmp_usize(cmp_op, vec@.len(), len as nat)),
            PayloadValue::ListBool(vec) => Some(spec_cmp_usize(cmp_op, vec@.len(), len as nat)),
            _ => None,
        },
        ListQueryOp::ElementCompare(index, cmp_op, val) => match (v, *val) {
            (PayloadValue::ListInt(vec), PayloadValue::Int(x)) => if index < vec@.len() {
                Some(spec_cmp_i64(cmp_op, vec@[index as int], x))
            } else {
                None
            },
            (PayloadValue::ListFloat(vec), PayloadValue::Float(x)) => if index < vec@.len() {
                Some(spec_cmp_f64bits(cmp_op, vec@[index as int], x))
            } else {
                None
            },
            (PayloadValue::ListStr(vec), PayloadValue::Str(x)) => if index < vec@.len() {
                Some(spec_cmp_str(cmp_op, vec@[index as int]@, x@))
            } else {
                None
            },
            (PayloadValue::ListBool(vec), PayloadValue::Bool(x)) => match cmp_op {
                ScalarComparisonOp::Eq => if index < vec@.len() {
                    Some(vec@[index as int] == x)
                } else {
                    None
                },
                ScalarComparisonOp::Neq => if index < vec@.len() {
                    Some(vec@[index as int] != x)
                } else {
                    None
                },
                _ => None,
            },
            _ => None,
        },
    }
}

fn list_contains_i64(vec: &Vec<i64>, x: i64) -> (r: bool)
    ensures
        r == spec_seq_contains_i64(vec@, x),
{
    let n = vec.len();
    for i in 0..n
        invariant
            n == vec@.len(),
            forall|j: int| 0 <= j < i ==> vec@[j] != x,
    {
        if vec[i] == x {
            return true;
        }
    }
    false
}

fn list_contains_f64bits(vec: &Vec<u64>, x: u64) -> (r: bool)
    ensures
        r == spec_seq_contains_f64bits(vec@, x),
{
    let kx = f64_order_key(x);
    let n = vec.len();
    for i in 0..n
        invariant
            n == vec@.len(),
            kx == spec_f64_order_key(x),
            forall|j: int|
                0 <= j < i ==> spec_f64_order_key(#[trigger] vec@[j]) != spec_f64_order_key(x),
    {
        if f64_order_key(vec[i]) == kx {
            return true;
        }
    }
    false
}

fn list_contains_str(vec: &Vec<String>, x: &String) -> (r: bool)
    ensures
        r == spec_seq_contains_str(vec@, x@),
{
    let n = vec.len();
    for i in 0..n
        invariant
            n == vec@.len(),
            forall|j: int| 0 <= j < i ==> (#[trigger] vec@[j])@ != x@,
    {
        let hit = vec[i] == *x;
        if hit {
            return true;
        }
    }
    false
}

fn list_contains_bool(vec: &Vec<bool>, x: bool) -> (r: bool)
    ensures
        r == spec_seq_contains_bool(vec@, x),
{
    let n = vec.len();
    for i in 0..n
        invariant
            n == vec@.len(),
            forall|j: int| 0 <= j < i ==> vec@[j] != x,
    {
        if vec[i] == x {
            return true;
        }
    }
    false
}

impl PayloadValue {
    /// Scalar comparison; see `spec_compare_scalar`.
    pub fn compare_scalar(&self, op: ScalarComparisonOp, other: &PayloadValue) -> (r: Option<
        bool,
    >)
        ensures
            r == spec_compare_scalar(*self, op, *other),
    {
        match (self, other) {
            (PayloadValue::Int(x), PayloadValue::Int(y)) => Some(cmp_i64(op, *x, *y)),
            (PayloadValue::Float(x), PayloadValue::Float(y)) => Some(cmp_f64bits(op, *x, *y)),
            (PayloadValue::Str(x), PayloadValue::Str(y)) => Some(cmp_str(op, x, y)),
            (PayloadValue::Bool(x), PayloadValue::Bool(y)) => match op {
                ScalarComparisonOp::Eq => Some(x == y),
                ScalarComparisonOp::Neq => Some(x != y),
                _ => None,
            },
            _ => None,
        }
    }

    /// List query; see `spec_eval_list_query`.
    pub fn evaluate_list_query(&self, op: ListQueryOp) -> (r: Option<bool>)
        ensures
            r == spec_eval_list_query(*self, op),
    {
        match op {
            ListQueryOp::Contains(val) => match (self, val) {
                (PayloadValue::ListInt(vec), PayloadValue::Int(x)) => Some(
                    list_contains_i64(vec, *x),
                ),
                (PayloadValue::ListFloat(vec), PayloadValue::Float(x)) => Some(
                    list_contains_f64bits(vec, *x),
                ),
                (PayloadValue::ListStr(vec), PayloadValue::Str(x)) => Some(
                    list_contains_str(vec, x),
                ),
                (PayloadValue::ListBool(vec), PayloadValue::Bool(x)) => Some(
                    list_contains_bool(vec, *x),
                ),
                _ => None,
            },
            ListQueryOp::Equals(val) => {
                let same = match (self, val) {
                    (PayloadValue::Int(_), PayloadValue::Int(_)) => true,
                    (PayloadValue::Float(_), PayloadValue::Float(_)) => true,
                    (PayloadValue::Str(_), PayloadValue::Str(_)) => true,
                    (PayloadValue::Bool(_), PayloadValue::Bool(_)) => true,
                    (PayloadValue::ListInt(_), PayloadValue::ListInt(_)) => true,
                    (PayloadValue::ListFloat(_), PayloadValue::ListFloat(_)) => true,
                    (PayloadValue::ListStr(_), PayloadValue::ListStr(_)) => true,
                    (PayloadValue::ListBool(_), PayloadValue::ListBool(_)) => true,
                    _ => false,
                };
                if same {
                    Some(value_eq(self, val))
                } else {
                    None
                }
            },
            ListQueryOp::Length(cmp_op, len) => match self {
                PayloadValue::ListInt(vec) => Some(cmp_usize(cmp_op, vec.len(), len)),
                PayloadValue::ListFloat(vec) => Some(cmp_usize(cmp_op, vec.len(), len)),
                PayloadValue::ListStr(vec) => Some(cmp_usize(cmp_op, vec.len(), len)),
                PayloadValue::ListBool(vec) => Some(cmp_usize(cmp_op, vec.len(), len)),
                _ => None,
            },
            ListQueryOp::ElementCompare(index, cmp_op, val) => match (self, val) {
                (PayloadValue::ListInt(vec), PayloadValue::Int(x)) => if index < vec.len() {
                    Some(cmp_i64(cmp_op, vec[index], *x))
                } else {
                    None
                },
                (PayloadValue::ListFloat(vec), PayloadValue::Float(x)) => if index < vec.len() {
                    Some(cmp_f64bits(cmp_op, vec[index], *x))
                } else {
                    None
                },
                (PayloadValue::ListStr(vec), PayloadValue::Str(x)) => if index < vec.len() {
                    Some(cmp_str(cmp_op, &vec[index], x))
                } else {
                    None
                },
                (PayloadValue::ListBool(vec), PayloadValue::Bool(x)) => match cmp_op {
                    ScalarComparisonOp::Eq => if index < vec.len() {
                        Some(vec[index] == *x)
                    } else {
                        None
                    },
                    ScalarComparisonOp::Neq => if index < vec.len() {
                        Some(vec[index] != *x)
                    } else {
                        None
                    },
                    _ => None,
                },
                _ => None,
            },
        }
    }

    /// A value is indexable by the inverted payload index iff it is scalar.
    pub fn is_indexable(&self) -> (r: bool)
        ensures
            r == spec_is_indexable(*self),
    {
        match self {
            PayloadValue::Int(_) => true,
            PayloadValue::Float(_) => true,
            PayloadValue::Str(_) => true,
            PayloadValue::Bool(_) => true,
            _ => false,
        }
    }
}

/// A value is indexable iff it is a scalar (integer, float, string or
/// boolean); list values are never indexed.
pub open spec fn spec_is_indexable(v: PayloadValue) -> bool {
    match v {
        PayloadValue::Int(_) => true,
        PayloadValue::Float(_) => true,
        PayloadValue::Str(_) => true,
        PayloadValue::Bool(_) => true,
        _ => false,
    }
}

// ---------------------------------------------------------------------------
// The payload record: a mapping from field names to values, kept as an
// association list with distinct keys.
// ---------------------------------------------------------------------------

/// First-match lookup in an association list.
pub open spec fn spec_get_seq(s: Seq<(String, PayloadValue)>, k: Seq<char>) -> Option<PayloadValue>
    decreases s.len(),
{
    if s.len() == 0 {
        None
    } else if s[0].0@ == k {
        Some(s[0].1)
    } else {
        spec_get_seq(s.skip(1), k)
    }
}

/// A key that no entry carries is not found.
pub proof fn lemma_get_seq_absent(s: Seq<(String, PayloadValue)>, k: Seq<char>)
    requires
        forall|j: int| 0 <= j < s.len() ==> (#[trigger] s[j]).0@ != k,
    ensures
        spec_get_seq(s, k) == None::<PayloadValue>,
    decreases s.len(),
{
    if s.len() > 0 {
        lemma_get_seq_absent(s.skip(1), k);
    }
}

/// If a key is not found, no entry carries it.
pub proof fn lemma_get_seq_none_absent(s: Seq<(String, PayloadValue)>, k: Seq<char>)
    requires
        spec_get_seq(s, k) == None::<PayloadValue>,
    ensures
        forall|j: int| 0 <= j < s.len() ==> (#[trigger] s[j]).0@ != k,
    decreases s.len(),
{
    if s.len() > 0 {
        lemma_get_seq_none_absent(s.skip(1), k);
        assert forall|j: int| 0 <= j < s.len() implies (#[trigger] s[j]).0@ != k by {
            if j > 0 {
                assert(s.skip(1)[j - 1] == s[j]);
            }
        }
    }
}

/// Lookup after appending an entry at the end: earlier entries win; the new
/// entry answers exactly the keys that were absent before.
pub proof fn lemma_get_seq_push(
    s: Seq<(String, PayloadValue)>,
    p: (String, PayloadValue),
    k: Seq<char>,
)
    ensures
        spec_get_seq(s.push(p), k) == (if spec_get_seq(s, k) is Some {
            spec_get_seq(s, k)
        } else if p.0@ == k {
            Some(p.1)
        } else {
            None
        }),
    decreases s.len(),
{
    if s.len() == 0 {
        assert(s.push(p).len() == 1);
        assert(s.push(p)[0] == p);
        assert(s.push(p).skip(1) =~= Seq::<(String, PayloadValue)>::empty());
        assert(spec_get_seq(s.push(p).skip(1), k) == None::<PayloadValue>);
        if p.0@ == k {
            assert(spec_get_seq(s.push(p), k) == Some(p.1));
        } else {
            assert(spec_get_seq(s.push(p), k) == None::<PayloadValue>);
        }
    } else {
        assert(s.push(p)[0] == s[0]);
        assert(s.push(p).skip(1) =~= s.skip(1).push(p));
        lemma_get_seq_push(s.skip(1), p, k);
        if s[0].0@ == k {
            assert(spec_get_seq(s.push(p), k) == Some(s[0].1));
        } else {
            assert(spec_get_seq(s.push(p), k) == spec_get_seq(s.skip(1).push(p), k));
            assert(spec_get_seq(s, k) == spec_get_seq(s.skip(1), k));
        }
    }
}

/// Lookup after removing the only entry that carries its key: that key is
/// then absent, every other key is answered as before.
pub proof fn lemma_get_seq_remove(s: Seq<(String, PayloadValue)>, idx: int, k: Seq<char>)
    requires
        0 <= idx < s.len(),
        forall|j: int| 0 <= j < s.len() && j != idx ==> (#[trigger] s[j]).0@ != s[idx].0@,
    ensures
        spec_get_seq(s.remove(idx), k) == (if k == s[idx].0@ {
            None
        } else {
            spec_get_seq(s, k)
        }),
    decreases s.len(),
{
    if idx == 0 {
        assert(s.remove(0) =~= s.skip(1));
        if k == s[0].0@ {
            assert(forall|j: int|
                0 <= j < s.skip(1).len() ==> (#[trigger] s.skip(1)[j]).0@ != k);
            lemma_get_seq_absent(s.skip(1), k);
        }
    } else {
        assert(s.remove(idx)[0] == s[0]);
        assert(s.remove(idx).skip(1) =~= s.skip(1).remove(idx - 1));
        assert(forall|j: int|
            0 <= j < s.skip(1).len() && j != idx - 1 ==> (#[trigger] s.skip(1)[j]).0@ != s.skip(
                1,
            )[idx - 1].0@);
        lemma_get_seq_remove(s.skip(1), idx - 1, k);
    }
}

/// A named-field record: a mapping from field name to payload value.
/// Kept as a list of entries whose keys are pairwise distinct.
#[derive(Debug, Clone, PartialEq)]
pub struct Payload {
    pub entries: Vec<(String, PayloadValue)>,
}

impl Payload {
    /// Well-formed: field names are pairwise distinct.
    pub open spec fn wf(self) -> bool {
        forall|i: int, j: int|
            0 <= i < j < self.entries@.len() ==> (#[trigger] self.entries@[i]).0@ != (
            #[trigger] self.entries@[j]).0@
    }

    /// The value stored at a field name, if any.
    pub open spec fn spec_get(self, k: Seq<char>) -> Option<PayloadValue> {
        spec_get_seq(self.entries@, k)
    }

    pub fn new() -> (r: Payload)
        ensures
            r.wf(),
            r.entries@.len() == 0,
            forall|k: Seq<char>| r.spec_get(k) == None::<PayloadValue>,
    {
        let r = Payload { entries: Vec::new() };
        proof {
            assert(forall|k: Seq<char>| r.spec_get(k) == None::<PayloadValue>);
        }
        r
    }

    /// Index of the entry carrying `key`, if any.
    fn find(&self, key: &str) -> (r: Option<usize>)
        ensures
            match r {
                Some(i) => i < self.entries@.len() && self.entries@[i as int].0@ == key@
                    && self.spec_get(key@) == Some(self.entries@[i as int].1) && (forall|j: int|
                    0 <= j < i ==> (#[trigger] self.entries@[j]).0@ != key@),
                None => self.spec_get(key@) == None::<PayloadValue>,
            },
    {
        let n = self.entries.len();
        proof {
            assert(self.entries@.skip(0) =~= self.entries@);
        }
        for i in 0..n
            invariant
                n == self.entries@.len(),
                spec_get_seq(self.entries@, key@) == spec_get_seq(
                    self.entries@.skip(i as int),
                    key@,
                ),
                forall|j: int| 0 <= j < i ==> (#[trigger] self.entries@[j]).0@ != key@,
        {
            let hit = string_eq(&self.entries[i].0, key);
            if hit {
                return Some(i);
            }
            proof {
                assert(self.entries@.skip(i as int).skip(1) =~= self.entries@.skip(i + 1));
            }
        }
        None
    }

    /// Getter for the value stored at `key`.
    pub fn get(&self, key: &str) -> (r: Option<&PayloadValue>)
        ensures
            match r {
                Some(v) => self.spec_get(key@) == Some(*v),
                None => self.spec_get(key@) == None::<PayloadValue>,
            },
    {
        match self.find(key) {
            Some(i) => Some(&self.entries[i].1),
            None => None,
        }
    }

    /// Setter: stores `value` at `key`, overwriting any prior value.
    pub fn set(&mut self, key: &str, value: PayloadValue)
        requires
            old(self).wf(),
        ensures
            final (self).wf(),
            final (self).spec_get(key@) == Some(value),
            forall|k2: Seq<char>|
                k2 != key@ ==> #[trigger] final (self).spec_get(k2) == old(self).spec_get(k2),
    {
        let ghost s0 = self.entries@;
        let found = self.find(key);
        match found {
            Some(i) => {
                proof {
                    assert(forall|j: int|
                        0 <= j < s0.len() && j != i ==> (#[trigger] s0[j]).0@ != s0[i as int].0@);
                }
                self.entries.remove(i);
                let ghost s1 = self.entries@;
                let entry = (String::from_str(key), value);
                let ghost ge = entry;
                self.entries.push(entry);
                proof {
                    assert forall|k2: Seq<char>| true implies #[trigger] spec_get_seq(
                        self.entries@,
                        k2,
                    ) == (if k2 == key@ {
                        Some(value)
                    } else {
                        spec_get_seq(s0, k2)
                    }) by {
                        lemma_get_seq_remove(s0, i as int, k2);
                        lemma_get_seq_push(s1, ge, k2);
                        if k2 == key@ {
                            assert(spec_get_seq(s1, k2) == None::<PayloadValue>);
                        }
                    }
                    assert(final (self).wf()) by {
                        assert(forall|j: int|
                            0 <= j < s1.len() ==> (#[trigger] s1[j]).0@ != key@);
                    }
                }
            },
            None => {
                let entry = (String::from_str(key), value);
                let ghost ge = entry;
                self.entries.push(entry);
                proof {
                    assert forall|k2: Seq<char>| true implies #[trigger] spec_get_seq(
                        self.entries@,
                        k2,
                    ) == (if k2 == key@ {
                        Some(value)
                    } else {
                        spec_get_seq(s0, k2)
                    }) by {
                        lemma_get_seq_push(s0, ge, k2);
                    }
                    assert(final (self).wf()) by {
                        lemma_get_seq_none_absent(s0, key@);
                    }
                }
            },
        }
    }

    /// Record-level scalar comparison: a missing field and a type mismatch
    /// are typed errors, everything else returns the boolean.
    pub fn compare_field(&self, field: &str, op: ScalarComparisonOp, other: &PayloadValue) -> (r:
        Result<bool, DBError>)
        ensures
            match r {
                Ok(b) => spec_compare_field(*self, field@, op, *other) == Ok::<bool, Seq<char>>(b),
                Err(DBError::InvalidPayload(m)) => spec_compare_field(*self, field@, op, *other)
                    == Err::<bool, Seq<char>>(m@),
                Err(_) => false,
            },
    {
        match self.get(field) {
            Some(value) => match value.compare_scalar(op, other) {
                Some(res) => Ok(res),
                None => {
                    let mut m = String::from_str("Type mismatch for field: ");
                    m.append(field);
                    Err(DBError::InvalidPayload(m))
                },
            },
            None => {
                let mut m = String::from_str("Missing field: ");
                m.append(field);
                Err(DBError::InvalidPayload(m))
            },
        }
    }

    /// Record-level list query, with the same error semantics as
    /// `compare_field`.
    pub fn evaluate_list_field(&self, field: &str, op: ListQueryOp) -> (r: Result<bool, DBError>)
        ensures
            match r {
                Ok(b) => spec_evaluate_list_field(*self, field@, op) == Ok::<bool, Seq<char>>(b),
                Err(DBError::InvalidPayload(m)) => spec_evaluate_list_field(*self, field@, op)
                    == Err::<bool, Seq<char>>(m@),
                Err(_) => false,
            },
    {
        match self.get(field) {
            Some(value) => match value.evaluate_list_query(op) {
                Some(res) => Ok(res),
                None => {
                    let mut m = String::from_str("Invalid list operation on field: ");
                    m.append(field);
                    Err(DBError::InvalidPayload(m))
                },
            },
            None => {
                let mut m = String::from_str("Missing field: ");
                m.append(field);
                Err(DBError::InvalidPayload(m))
            },
        }
    }
}

/// Semantics of `Payload::compare_field`; the error side carries the
/// message text.
pub open spec fn spec_compare_field(
    p: Payload,
    field: Seq<char>,
    op: ScalarComparisonOp,
    other: PayloadValue,
) -> Result<bool, Seq<char>> {
    match p.spec_get(field) {
        Some(v) => match spec_compare_scalar(v, op, other) {
            Some(b) => Ok(b),
            None => Err("Type mismatch for field: "@ + field),
        },
        None => Err("Missing field: "@ + field),
    }
}

/// Semantics of `Payload::evaluate_list_field`.
pub open spec fn spec_evaluate_list_field(
    p: Payload,
    field: Seq<char>,
    op: ListQueryOp,
) -> Result<bool, Seq<char>> {
    match p.spec_get(field) {
        Some(v) => match spec_eval_list_query(v, op) {
            Some(b) => Ok(b),
            None => Err("Invalid list operation on field: "@ + field),
        },
        None => Err("Missing field: "@ + field),
    }
}

impl Default for Payload {
    /// The empty record.
    fn default() -> (r: Payload)
        ensures
            r.wf(),
            r.entries@.len() == 0,
    {
        Payload::new()
    }
}

// ---------------------------------------------------------------------------
// Per-point payload storage: a mapping from point id to payload record.
// ---------------------------------------------------------------------------

/// First-match lookup in an id-keyed association list.
pub open spec fn spec_get_pm(s: Seq<(u64, Payload)>, id: u64) -> Option<Payload>
    decreases s.len(),
{
    if s.len() == 0 {
        None
    } else if s[0].0 == id {
        Some(s[0].1)
    } else {
        spec_get_pm(s.skip(1), id)
    }
}

pub proof fn lemma_get_pm_absent(s: Seq<(u64, Payload)>, id: u64)
    requires
        forall|j: int| 0 <= j < s.len() ==> (#[trigger] s[j]).0 != id,
    ensures
        spec_get_pm(s, id) == None::<Payload>,
    decreases s.len(),
{
    if s.len() > 0 {
        lemma_get_pm_absent(s.skip(1), id);
    }
}

pub proof fn lemma_get_pm_none_absent(s: Seq<(u64, Payload)>, id: u64)
    requires
        spec_get_pm(s, id) == None::<Payload>,
    ensures
        forall|j: int| 0 <= j < s.len() ==> (#[trigger] s[j]).0 != id,
    decreases s.len(),
{
    if s.len() > 0 {
        lemma_get_pm_none_absent(s.skip(1), id);
        assert forall|j: int| 0 <= j < s.len() implies (#[trigger] s[j]).0 != id by {
            if j > 0 {
                assert(s.skip(1)[j - 1] == s[j]);
            }
        }
    }
}

pub proof fn lemma_get_pm_push(s: Seq<(u64, Payload)>, p: (u64, Payload), id: u64)
    ensures
        spec_get_pm(s.push(p), id) == (if spec_get_pm(s, id) is Some {
            spec_get_pm(s, id)
        } else if p.0 == id {
            Some(p.1)
        } else {
            None
        }),
    decreases s.len(),
{
    if s.len() == 0 {
        assert(s.push(p).len() == 1);
        assert(s.push(p)[0] == p);
        assert(s.push(p).skip(1) =~= Seq::<(u64, Payload)>::empty());
        assert(spec_get_pm(s.push(p).skip(1), id) == None::<Payload>);
    } else {
        assert(s.push(p)[0] == s[0]);
        assert(s.push(p).skip(1) =~= s.skip(1).push(p));
        lemma_get_pm_push(s.skip(1), p, id);
    }
}

pub proof fn lemma_get_pm_remove(s: Seq<(u64, Payload)>, idx: int, id: u64)
    requires
        0 <= idx < s.len(),
        forall|j: int| 0 <= j < s.len() && j != idx ==> (#[trigger] s[j]).0 != s[idx].0,
    ensures
        spec_get_pm(s.remove(idx), id) == (if id == s[idx].0 {
            None
        } else {
            spec_get_pm(s, id)
        }),
    decreases s.len(),
{
    if idx == 0 {
        assert(s.remove(0) =~= s.skip(1));
        if id == s[0].0 {
            assert(forall|j: int| 0 <= j < s.skip(1).len() ==> (#[trigger] s.skip(1)[j]).0 != id);
            lemma_get_pm_absent(s.skip(1), id);
        }
    } else {
        assert(s.remove(idx)[0] == s[0]);
        assert(s.remove(idx).skip(1) =~= s.skip(1).remove(idx - 1));
        assert(forall|j: int|
            0 <= j < s.skip(1).len() && j != idx - 1 ==> (#[trigger] s.skip(1)[j]).0 != s.skip(
                1,
            )[idx - 1].0);
        lemma_get_pm_remove(s.skip(1), idx - 1, id);
    }
}

/// A found payload is one of the stored entries.
pub proof fn lemma_get_pm_found_wf(s: Seq<(u64, Payload)>, id: u64, p: Payload)
    requires
        spec_get_pm(s, id) == Some(p),
        forall|i: int| 0 <= i < s.len() ==> (#[trigger] s[i]).1.wf(),
    ensures
        p.wf(),
    decreases s.len(),
{
    if s.len() > 0 {
        if s[0].0 == id {
        } else {
            assert(forall|i: int|
                0 <= i < s.skip(1).len() ==> (#[trigger] s.skip(1)[i]).1.wf());
            lemma_get_pm_found_wf(s.skip(1), id, p);
        }
    }
}

/// Payload records of the segment's points, keyed by point id (distinct
/// ids).
pub struct PayloadMap {
    pub entries: Vec<(u64, Payload)>,
}

impl PayloadMap {
    pub open spec fn wf(self) -> bool {
        &&& forall|i: int, j: int|
            0 <= i < j < self.entries@.len() ==> (#[trigger] self.entries@[i]).0 != (
            #[trigger] self.entries@[j]).0
        &&& forall|i: int| 0 <= i < self.entries@.len() ==> (#[trigger] self.entries@[i]).1.wf()
    }

    pub open spec fn spec_get(self, id: u64) -> Option<Payload> {
        spec_get_pm(self.entries@, id)
    }

    pub fn new() -> (r: PayloadMap)
        ensures
            r.wf(),
            r.entries@.len() == 0,
            forall|id: u64| r.spec_get(id) == None::<Payload>,
    {
        PayloadMap { entries: Vec::new() }
    }

    pub fn len(&self) -> (r: usize)
        ensures
            r == self.entries@.len(),
    {
        self.entries.len()
    }

    fn find(&self, id: u64) -> (r: Option<usize>)
        ensures
            match r {
                Some(i) => i < self.entries@.len() && self.entries@[i as int].0 == id
                    && self.spec_get(id) == Some(self.entries@[i as int].1),
                None => self.spec_get(id) == None::<Payload>,
            },
    {
        let n = self.entries.len();
        proof {
            assert(self.entries@.skip(0) =~= self.entries@);
        }
        for i in 0..n
            invariant
                n == self.entries@.len(),
                spec_get_pm(self.entries@, id) == spec_get_pm(self.entries@.skip(i as int), id),
        {
            if self.entries[i].0 == id {
                return Some(i);
            }
            proof {
                assert(self.entries@.skip(i as int).skip(1) =~= self.entries@.skip(i + 1));
            }
        }
        None
    }

    pub fn get(&self, id: u64) -> (r: Option<&Payload>)
        ensures
            match r {
                Some(p) => self.spec_get(id) == Some(*p),
                None => self.spec_get(id) == None::<Payload>,
            },
    {
        match self.find(id) {
            Some(i) => Some(&self.entries[i].1),
            None => None,
        }
    }

    /// Store a payload for a fresh id.
    pub fn insert(&mut self, id: u64, payload: Payload)
        requires
            old(self).wf(),
            old(self).spec_get(id) == None::<Payload>,
            payload.wf(),
        ensures
            final (self).wf(),
            final (self).entries@.len() == old(self).entries@.len() + 1,
            final (self).spec_get(id) == Some(payload),
            forall|id2: u64|
                id2 != id ==> #[trigger] final (self).spec_get(id2) == old(self).spec_get(id2),
    {
        let ghost s0 = self.entries@;
        let entry = (id, payload);
        let ghost ge = entry;
        self.entries.push(entry);
        proof {
            lemma_get_pm_none_absent(s0, id);
            assert forall|id2: u64| true implies #[trigger] spec_get_pm(self.entries@, id2) == (
            if id2 == id {
                Some(ge.1)
            } else {
                spec_get_pm(s0, id2)
            }) by {
                lemma_get_pm_push(s0, ge, id2);
            }
        }
    }

    /// Remove and return the payload stored for an id.
    pub fn take(&mut self, id: u64) -> (r: Option<Payload>)
        requires
            old(self).wf(),
        ensures
            final (self).wf(),
            match r {
                Some(p) => old(self).spec_get(id) == Some(p) && final (self).spec_get(id)
                    == None::<Payload> && p.wf(),
                None => old(self).spec_get(id) == None::<Payload> && *final (self) == *old(self),
            },
            forall|id2: u64|
                id2 != id ==> #[trigger] final (self).spec_get(id2) == old(self).spec_get(id2),
    {
        let ghost s0 = self.entries@;
        match self.find(id) {
            Some(i) => {
                proof {
                    assert forall|j: int|
                        0 <= j < s0.len() && j != i implies (#[trigger] s0[j]).0 != s0[i as int].0
                        by {
                        if j < i {
                            if s0[j].0 == s0[i as int].0 {
                                assert(false);
                            }
                        } else {
                            if s0[j].0 == s0[i as int].0 {
                                assert(false);
                            }
                        }
                    }
                }
                let pair = self.entries.remove(i);
                proof {
                    assert forall|id2: u64| true implies #[trigger] spec_get_pm(
                        self.entries@,
                        id2,
                    ) == (if id2 == id {
                        None
                    } else {
                        spec_get_pm(s0, id2)
                    }) by {
                        lemma_get_pm_remove(s0, i as int, id2);
                    }
                    assert(self.wf()) by {
                        assert forall|a: int, b: int|
                            0 <= a < b < self.entries@.len() implies (
                        #[trigger] self.entries@[a]).0 != (#[trigger] self.entries@[b]).0 by {
                            let ia: int = if a < i {
                                a
                            } else {
                                a + 1
                            };
                            let ib: int = if b < i {
                                b
                            } else {
                                b + 1
                            };
                            assert(self.entries@[a] == s0[ia] && self.entries@[b] == s0[ib]);
                        }
                        assert forall|a: int|
                            0 <= a < self.entries@.len() implies (
                        #[trigger] self.entries@[a]).1.wf() by {
                            let ia: int = if a < i {
                                a
                            } else {
                                a + 1
                            };
                            assert(self.entries@[a] == s0[ia]);
                        }
                    }
                }
                Some(pair.1)
            },
            None => None,
        }
    }
}

impl PayloadValue {
    /// Explicit deep clone (the derived clone carries no specification).
    pub fn clone_value(&self) -> (r: PayloadValue)
        ensures
            spec_value_eq(r, *self),
            spec_value_eq(*self, r),
    {
        match self {
            PayloadValue::Int(x) => PayloadValue::Int(*x),
            PayloadValue::Float(x) => PayloadValue::Float(*x),
            PayloadValue::Str(x) => PayloadValue::Str(x.clone()),
            PayloadValue::Bool(x) => PayloadValue::Bool(*x),
            PayloadValue::ListInt(x) => PayloadValue::ListInt(clone_vec_i64(x)),
            PayloadValue::ListFloat(x) => PayloadValue::ListFloat(clone_vec_u64(x)),
            PayloadValue::ListStr(x) => PayloadValue::ListStr(clone_vec_string(x)),
            PayloadValue::ListBool(x) => PayloadValue::ListBool(clone_vec_bool(x)),
        }
    }
}

fn clone_vec_i64(v: &Vec<i64>) -> (r: Vec<i64>)
    ensures
        r@ == v@,
{
    let mut r: Vec<i64> = Vec::new();
    let n = v.len();
    for i in 0..n
        invariant
            n == v@.len(),
            r@ == v@.subrange(0, i as int),
    {
        r.push(v[i]);
        proof {
            assert(r@ =~= v@.subrange(0, i + 1));
        }
    }
    proof {
        assert(v@.subrange(0, n as int) =~= v@);
    }
    r
}

fn clone_vec_u64(v: &Vec<u64>) -> (r: Vec<u64>)
    ensures
        r@ == v@,
{
    let mut r: Vec<u64> = Vec::new();
    let n = v.len();
    for i in 0..n
        invariant
            n == v@.len(),
            r@ == v@.subrange(0, i as int),
    {
        r.push(v[i]);
        proof {
            assert(r@ =~= v@.subrange(0, i + 1));
        }
    }
    proof {
        assert(v@.subrange(0, n as int) =~= v@);
    }
    r
}

fn clone_vec_bool(v: &Vec<bool>) -> (r: Vec<bool>)
    ensures
        r@ == v@,
{
    let mut r: Vec<bool> = Vec::new();
    let n = v.len();
    for i in 0..n
        invariant
            n == v@.len(),
            r@ == v@.subrange(0, i as int),
    {
        r.push(v[i]);
        proof {
            assert(r@ =~= v@.subrange(0, i + 1));
        }
    }
    proof {
        assert(v@.subrange(0, n as int) =~= v@);
    }
    r
}

fn clone_vec_string(v: &Vec<String>) -> (r: Vec<String>)
    ensures
        r@.len() == v@.len(),
        forall|i: int| 0 <= i < v@.len() ==> (#[trigger] r@[i])@ == v@[i]@,
{
    let mut r: Vec<String> = Vec::new();
    let n = v.len();
    for i in 0..n
        invariant
            n == v@.len(),
            r@.len() == i,
            forall|j: int| 0 <= j < i ==> (#[trigger] r@[j])@ == v@[j]@,
    {
        r.push(v[i].clone());
    }
    r
}


} // verus!

