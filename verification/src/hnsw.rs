//! The filter-aware hierarchical proximity-graph index: a layered graph
//! over stored vectors, with stochastic level assignment, greedy descent,
//! beam search, lazy deletion, and extra level-0 edges between points that
//! share an indexable payload value.
//!
//! Points are stored in insertion order; adjacency lists name points by
//! their position in that order, so searches are deterministic for a fixed
//! graph.

use vstd::prelude::*;
use crate::errors::DBError;
use crate::metric::{
    distance, maybe_normalize, spec_distance, spec_maybe_normalize, spec_normalize_score,
    spec_sort_key,
};
use crate::payload::Payload;
use crate::rng::random_below;
use crate::stores::PayloadIndex;
use crate::types::{DistanceMetric, Vector};

verus! {

/// One search result: a point id, the raw metric score, and the
/// "smaller is better" sort key (the total-order key of the normalized
/// score).
#[derive(Debug, Clone, Copy, PartialEq, Eq, Structural)]
pub struct ScoredPoint {
    pub id: u64,
    pub raw_score: u32,
    pub sort_key: u32,
}

/// One stored point: its id, stored (possibly normalized) vector, assigned
/// level, tombstone flag, and per-level adjacency (positions into the point
/// list), for levels `0 ..= level`.
pub struct Point {
    pub id: u64,
    pub vector: Vector,
    pub level: usize,
    pub deleted: bool,
    pub neighbors: Vec<Vec<usize>>,
}

/// Internal search candidate, naming a point by position.
#[derive(Clone, Copy)]
pub(crate) struct Cand {
    pub(crate) idx: usize,
    pub(crate) raw: u32,
    pub(crate) key: u32,
}

pub struct HNSWIndex {
    pub points: Vec<Point>,
    pub entry_point: Option<usize>,
    pub metric: DistanceMetric,
    pub m: usize,
    pub ef: usize,
    pub max_level_cap: usize,
    pub current_max_level: usize,
    pub dim: usize,
}

/// Candidate lists are kept sorted by ascending sort key.
pub(crate) open spec fn cands_sorted(s: Seq<Cand>) -> bool {
    forall|i: int, j: int| 0 <= i < j < s.len() ==> (#[trigger] s[i]).key <= (#[trigger] s[j]).key
}

/// Results are sorted by ascending sort key.
pub open spec fn results_sorted(s: Seq<ScoredPoint>) -> bool {
    forall|i: int, j: int|
        0 <= i < j < s.len() ==> (#[trigger] s[i]).sort_key <= (#[trigger] s[j]).sort_key
}

impl HNSWIndex {
    /// Structural well-formedness of the graph.
    pub open spec fn wf(self) -> bool {
        &&& forall|i: int|
            0 <= i < self.points@.len() ==> (#[trigger] self.points@[i]).vector@.len() == self.dim
        &&& forall|i: int|
            0 <= i < self.points@.len() ==> (#[trigger] self.points@[i]).neighbors@.len()
                >= self.points@[i].level + 1
        &&& forall|i: int|
            0 <= i < self.points@.len() ==> (#[trigger] self.points@[i]).level
                <= self.max_level_cap
        &&& forall|i: int, l: int, k: int|
            0 <= i < self.points@.len() && 0 <= l < self.points@[i].neighbors@.len() && 0 <= k
                < self.points@[i].neighbors@[l]@.len() ==> #[trigger] self.points@[i].neighbors@[l]@[k]
                < self.points@.len()
        &&& forall|i: int, j: int|
            0 <= i < j < self.points@.len() ==> (#[trigger] self.points@[i]).id != (
            #[trigger] self.points@[j]).id
        &&& match self.entry_point {
            Some(e) => e < self.points@.len() && !self.points@[e as int].deleted,
            None => true,
        }
        &&& self.current_max_level <= self.max_level_cap
    }

    /// The id is stored (live or tombstoned).
    pub open spec fn spec_contains_id(self, id: u64) -> bool {
        exists|i: int| 0 <= i < self.points@.len() && (#[trigger] self.points@[i]).id == id
    }

    /// Position of a stored id.
    pub open spec fn spec_idx_of(self, id: u64) -> int {
        choose|i: int| 0 <= i < self.points@.len() && (#[trigger] self.points@[i]).id == id
    }

    /// The id is stored and not tombstoned.
    pub open spec fn spec_live(self, id: u64) -> bool {
        exists|i: int|
            0 <= i < self.points@.len() && (#[trigger] self.points@[i]).id == id
                && !self.points@[i].deleted
    }

    /// The id is stored and tombstoned.
    pub open spec fn spec_deleted(self, id: u64) -> bool {
        exists|i: int|
            0 <= i < self.points@.len() && (#[trigger] self.points@[i]).id == id
                && self.points@[i].deleted
    }

    /// The stored vector of an id.
    pub open spec fn spec_vector_of(self, id: u64) -> Seq<u32> {
        self.points@[self.spec_idx_of(id)].vector@
    }

    pub fn new(metric: DistanceMetric, m: usize, ef: usize, max_level_cap: usize, dim: usize) -> (r:
        HNSWIndex)
        ensures
            r.wf(),
            r.points@.len() == 0,
            r.entry_point is None,
            r.metric == metric,
            r.m == m,
            r.ef == ef,
            r.max_level_cap == max_level_cap,
            r.current_max_level == 0,
            r.dim == dim,
    {
        HNSWIndex {
            points: Vec::new(),
            entry_point: None,
            metric,
            m,
            ef,
            max_level_cap,
            current_max_level: 0,
            dim,
        }
    }

    /// Position of a stored id, if present.
    pub(crate) fn find_idx(&self, point_id: u64) -> (r: Option<usize>)
        ensures
            match r {
                Some(i) => i < self.points@.len() && self.points@[i as int].id == point_id,
                None => !self.spec_contains_id(point_id),
            },
    {
        let n = self.points.len();
        for i in 0..n
            invariant
                n == self.points@.len(),
                forall|j: int| 0 <= j < i ==> (#[trigger] self.points@[j]).id != point_id,
        {
            if self.points[i].id == point_id {
                return Some(i);
            }
        }
        None
    }

    pub fn contains(&self, point_id: &u64) -> (r: bool)
        ensures
            r == self.spec_contains_id(*point_id),
    {
        self.find_idx(*point_id).is_some()
    }

    /// Number of stored points, tombstoned ones included.
    pub fn len(&self) -> (r: usize)
        ensures
            r == self.points@.len(),
    {
        self.points.len()
    }

    pub fn metric(&self) -> (r: DistanceMetric)
        ensures
            r == self.metric,
    {
        self.metric
    }

    pub fn m(&self) -> (r: usize)
        ensures
            r == self.m,
    {
        self.m
    }

    pub fn ef(&self) -> (r: usize)
        ensures
            r == self.ef,
    {
        self.ef
    }

    pub fn max_level_cap(&self) -> (r: usize)
        ensures
            r == self.max_level_cap,
    {
        self.max_level_cap
    }

    pub fn dim(&self) -> (r: usize)
        ensures
            r == self.dim,
    {
        self.dim
    }

    pub fn current_max_level(&self) -> (r: usize)
        ensures
            r == self.current_max_level,
    {
        self.current_max_level
    }

    /// The entry point's id, if there is one.
    pub fn get_entry_point(&self) -> (r: Option<u64>)
        requires
            self.wf(),
        ensures
            match r {
                Some(id) => self.entry_point is Some && self.spec_live(id) && self.points@[
                    self.entry_point.unwrap() as int
                ].id == id,
                None => self.entry_point is None,
            },
    {
        match self.entry_point {
            Some(e) => Some(self.points[e].id),
            None => None,
        }
    }

    /// The stored vector of a point, hidden once the point is tombstoned.
    pub fn get_vector(&self, point_id: &u64) -> (r: Option<&Vector>)
        requires
            self.wf(),
        ensures
            match r {
                Some(v) => self.spec_live(*point_id) && v@ == self.spec_vector_of(*point_id),
                None => !self.spec_live(*point_id),
            },
    {
        match self.find_idx(*point_id) {
            Some(i) => {
                if self.points[i].deleted {
                    proof {
                        assert forall|j: int|
                            0 <= j < self.points@.len() && (#[trigger] self.points@[j]).id
                                == *point_id implies self.points@[j].deleted by {
                            assert(j == i);
                        }
                    }
                    None
                } else {
                    proof {
                        assert(self.spec_idx_of(*point_id) == i);
                    }
                    Some(&self.points[i].vector)
                }
            },
            None => None,
        }
    }

    /// The level-0..n adjacency of a point at a level, as ids.
    pub fn layer_neighbors(&self, level: usize, point_id: u64) -> (r: Option<Vec<u64>>)
        requires
            self.wf(),
        ensures
            r is Some ==> self.spec_contains_id(point_id),
    {
        match self.find_idx(point_id) {
            Some(i) => {
                if level < self.points[i].neighbors.len() {
                    let mut out: Vec<u64> = Vec::new();
                    let nlen = self.points[i].neighbors[level].len();
                    for k in 0..nlen
                        invariant
                            self.wf(),
                            i < self.points@.len(),
                            (level as int) < self.points@[i as int].neighbors@.len(),
                            nlen == self.points@[i as int].neighbors@[level as int]@.len(),
                    {
                        let idx = self.points[i].neighbors[level][k];
                        out.push(self.points[idx].id);
                    }
                    Some(out)
                } else {
                    None
                }
            },
            None => None,
        }
    }

    /// All stored (id, vector) pairs, in storage order (tombstoned points
    /// included).
    pub fn iter_vectors(&self) -> (r: Vec<(u64, Vector)>)
        ensures
            r@.len() == self.points@.len(),
            forall|i: int|
                0 <= i < r@.len() ==> (#[trigger] r@[i]).0 == self.points@[i].id && r@[i].1@
                    == self.points@[i].vector@,
    {
        let mut out: Vec<(u64, Vector)> = Vec::new();
        let n = self.points.len();
        for i in 0..n
            invariant
                n == self.points@.len(),
                out@.len() == i,
                forall|j: int|
                    0 <= j < i ==> (#[trigger] out@[j]).0 == self.points@[j].id && out@[j].1@
                        == self.points@[j].vector@,
        {
            out.push((self.points[i].id, self.points[i].vector.clone()));
        }
        out
    }

    /// The score normalizer: identity for Euclidean and cosine, negation
    /// for the inner product.
    pub fn normalize_score(&self, raw: u32) -> (r: u32)
        ensures
            r == spec_normalize_score(self.metric, raw),
    {
        match self.metric {
            DistanceMetric::Dot => crate::binary32::neg32(raw),
            _ => raw,
        }
    }

    /// L2-normalize under the cosine metric; other metrics pass through.
    pub fn maybe_normalize(&self, vec: &Vector) -> (r: Vector)
        ensures
            r@ == spec_maybe_normalize(self.metric, vec@),
            r@.len() == vec@.len(),
    {
        maybe_normalize(self.metric, vec)
    }

    /// Mark a point as deleted and, if it was the entry point, move the
    /// entry point to any live point (or clear it).
    pub fn mark_deleted(&mut self, point_id: u64)
        requires
            old(self).wf(),
        ensures
            final (self).wf(),
            final (self).points@.len() == old(self).points@.len(),
            forall|i: int|
                0 <= i < final (self).points@.len() ==> {
                    let p = #[trigger] final (self).points@[i];
                    let q = old(self).points@[i];
                    p.id == q.id && p.vector == q.vector && p.level == q.level && p.neighbors
                        == q.neighbors && p.deleted == (q.deleted || q.id == point_id)
                },
            final (self).metric == old(self).metric,
            final (self).m == old(self).m,
            final (self).ef == old(self).ef,
            final (self).max_level_cap == old(self).max_level_cap,
            final (self).dim == old(self).dim,
            final (self).current_max_level == old(self).current_max_level,
            !final (self).spec_live(point_id),
            old(self).entry_point is None ==> final (self).entry_point is None,
            match old(self).entry_point {
                Some(e) => old(self).points@[e as int].id != point_id ==> final (self).entry_point
                    == old(self).entry_point,
                None => true,
            },
            final (self).entry_point is None && old(self).entry_point is Some ==> forall|j: int|
                0 <= j < final (self).points@.len() ==> (#[trigger] final (self).points@[j]).deleted,
    {
        let found = self.find_idx(point_id);
        match found {
            Some(i) => {
                let mut p = self.points.remove(i);
                p.deleted = true;
                let ghost p2 = p;
                self.points.insert(i, p);
                proof {
                    assert(self.points@ =~= old(self).points@.update(i as int, p2));
                    assert forall|j: int|
                        0 <= j < self.points@.len() && j != i implies (
                    #[trigger] self.points@[j]).id != point_id by {
                        if j < i {
                            assert(old(self).points@[j].id != old(self).points@[i as int].id);
                        } else {
                            assert(old(self).points@[i as int].id != old(self).points@[j].id);
                        }
                    }
                }
                let needs_new_entry = match self.entry_point {
                    Some(e) => e == i,
                    None => false,
                };
                if needs_new_entry {
                    self.entry_point = None;
                    let ghost snap = *self;
                    let n = self.points.len();
                    let mut j: usize = 0;
                    while j < n
                        invariant_except_break
                            n == self.points@.len(),
                            *self == (HNSWIndex { entry_point: self.entry_point, ..snap }),
                            self.entry_point is None,
                            forall|q: int| 0 <= q < j ==> (#[trigger] self.points@[q]).deleted,
                        ensures
                            n == self.points@.len(),
                            *self == (HNSWIndex { entry_point: self.entry_point, ..snap }),
                            match self.entry_point {
                                Some(e) => e < self.points@.len() && !self.points@[
                                    e as int
                                ].deleted,
                                None => forall|q: int|
                                    0 <= q < self.points@.len() ==> (
                                    #[trigger] self.points@[q]).deleted,
                            },
                        decreases n - j,
                    {
                        if !self.points[j].deleted {
                            self.entry_point = Some(j);
                            break ;
                        }
                        j = j + 1;
                    }
                }
                proof {
                    assert(!self.spec_live(point_id)) by {
                        assert forall|k: int|
                            0 <= k < self.points@.len() && (#[trigger] self.points@[k]).id
                                == point_id implies self.points@[k].deleted by {
                            if k != i {
                                assert(self.points@[k].id != point_id);
                            }
                        }
                    }
                }
            },
            None => {
                proof {
                    assert(!self.spec_live(point_id));
                }
            },
        }
    }

    /// Point the entry at a live id.
    pub fn set_entry_point(&mut self, point_id: u64)
        requires
            old(self).wf(),
            old(self).spec_live(point_id),
        ensures
            final (self).wf(),
            *final (self) == (HNSWIndex { entry_point: final (self).entry_point, ..*old(self) }),
            final (self).entry_point is Some,
    {
        let idx = self.find_idx(point_id);
        match idx {
            Some(i) => {
                if !self.points[i].deleted {
                    self.entry_point = Some(i);
                } else {
                    proof {
                        assert forall|k: int|
                            0 <= k < self.points@.len() && (#[trigger] self.points@[k]).id
                                == point_id implies self.points@[k].deleted by {
                            assert(k == i);
                        }
                        assert(false);
                    }
                }
            },
            None => {
                proof {
                    assert(false);
                }
            },
        }
    }

    /// Set the recorded top level.
    pub fn set_current_max_level(&mut self, level: usize)
        requires
            old(self).wf(),
            level <= old(self).max_level_cap,
        ensures
            final (self).wf(),
            *final (self) == (HNSWIndex { current_max_level: level, ..*old(self) }),
    {
        self.current_max_level = level;
    }
}

// ---------------------------------------------------------------------------
// Beam-search machinery.
// ---------------------------------------------------------------------------

/// Number of entries still unvisited.
pub open spec fn unvisited_count(s: Seq<bool>) -> nat
    decreases s.len(),
{
    if s.len() == 0 {
        0
    } else {
        (if s.last() {
            0nat
        } else {
            1nat
        }) + unvisited_count(s.drop_last())
    }
}

pub(crate) proof fn lemma_unvisited_update(s: Seq<bool>, j: int)
    requires
        0 <= j < s.len(),
        !s[j],
    ensures
        unvisited_count(s.update(j, true)) + 1 == unvisited_count(s),
    decreases s.len(),
{
    let s2 = s.update(j, true);
    if j == s.len() - 1 {
        assert(s2.drop_last() =~= s.drop_last());
        assert(s2.last());
    } else {
        assert(s2.drop_last() =~= s.drop_last().update(j, true));
        assert(s2.last() == s.last());
        lemma_unvisited_update(s.drop_last(), j);
    }
}

impl HNSWIndex {
    /// Every candidate names a live point with the exact scores for `query`.
    pub(crate) open spec fn cand_good(self, query: Seq<u32>, c: Cand) -> bool {
        &&& c.idx < self.points@.len()
        &&& !self.points@[c.idx as int].deleted
        &&& c.raw == spec_distance(self.metric, query, self.points@[c.idx as int].vector@)
        &&& c.key == spec_sort_key(self.metric, c.raw)
    }

    pub(crate) open spec fn cands_good(self, query: Seq<u32>, s: Seq<Cand>) -> bool {
        forall|k: int| 0 <= k < s.len() ==> self.cand_good(query, #[trigger] s[k])
    }

    /// Score one point against the query.
    pub(crate) fn make_cand(&self, query: &Vector, idx: usize) -> (c: Cand)
        requires
            self.wf(),
            query@.len() == self.dim,
            idx < self.points@.len(),
        ensures
            c.idx == idx,
            c.raw == spec_distance(self.metric, query@, self.points@[idx as int].vector@),
            c.key == spec_sort_key(self.metric, c.raw),
    {
        let raw = distance(query, &self.points[idx].vector, self.metric);
        let key = crate::binary32::key32(self.normalize_score(raw));
        Cand { idx, raw, key }
    }
}

/// Insert a candidate into a key-sorted list, after any equal keys.
pub(crate) fn insert_cand(list: &mut Vec<Cand>, c: Cand)
    requires
        cands_sorted(old(list)@),
    ensures
        cands_sorted(final (list)@),
        final (list)@.len() == old(list)@.len() + 1,
        exists|p: int| 0 <= p <= old(list)@.len() && final (list)@ == old(list)@.insert(p, c),
{
    let n = list.len();
    let mut p: usize = 0;
    while p < n && list[p].key <= c.key
        invariant
            n == list@.len(),
            p <= n,
            cands_sorted(list@),
            forall|k: int| 0 <= k < p ==> (#[trigger] list@[k]).key <= c.key,
        decreases n - p,
    {
        p = p + 1;
    }
    let ghost old_s = list@;
    let ghost pp = p as int;
    list.insert(p, c);
    proof {
        old_s.insert_ensures(pp, c);
        assert(cands_sorted(list@)) by {
            assert forall|k1: int, k2: int|
                0 <= k1 < k2 < list@.len() implies (#[trigger] list@[k1]).key <= (
            #[trigger] list@[k2]).key by {
                if k1 < pp && k2 == pp {
                } else if k1 == pp && k2 > pp {
                    assert(list@[k2] == old_s[k2 - 1]);
                    assert(old_s[k2 - 1].key > c.key);
                } else if k1 < pp && k2 > pp {
                    assert(list@[k1] == old_s[k1]);
                    assert(list@[k2] == old_s[k2 - 1]);
                } else if k1 > pp {
                    assert(list@[k1] == old_s[k1 - 1] && list@[k2] == old_s[k2 - 1]);
                }
            }
        }
    }
}

impl HNSWIndex {
    /// Greedy descent at one level, over point positions: step to any
    /// strictly better live neighbor until none improves (or a step cap).
    /// The sort key of a stored position against a query.
    #[verifier::opaque]
    pub(crate) open spec fn spec_key_of(self, query: Seq<u32>, idx: int) -> u32 {
        spec_sort_key(self.metric, spec_distance(self.metric, query, self.points@[idx].vector@))
    }

    #[verifier::rlimit(100)]
    fn greedy_idx(&self, query: &Vector, entry: usize, level: usize) -> (r: usize)
        requires
            self.wf(),
            query@.len() == self.dim,
            entry < self.points@.len(),
        ensures
            r < self.points@.len(),
            r == entry || !self.points@[r as int].deleted,
            self.spec_key_of(query@, r as int) <= self.spec_key_of(query@, entry as int),
    {
        let mut current = entry;
        let mut changed = true;
        let mut steps: usize = 0;
        while changed && steps < 1000
            invariant
                self.wf(),
                query@.len() == self.dim,
                current < self.points@.len(),
                current == entry || !self.points@[current as int].deleted,
                self.spec_key_of(query@, current as int) <= self.spec_key_of(
                    query@,
                    entry as int,
                ),
                steps <= 1000,
            decreases 1000 - steps,
        {
            steps = steps + 1;
            changed = false;
            if level < self.points[current].neighbors.len() {
                let nlen = self.points[current].neighbors[level].len();
                let mut t: usize = 0;
                while t < nlen && !changed
                    invariant
                        self.wf(),
                        query@.len() == self.dim,
                        current < self.points@.len(),
                        current == entry || !self.points@[current as int].deleted,
                        self.spec_key_of(query@, current as int) <= self.spec_key_of(
                            query@,
                            entry as int,
                        ),
                        changed ==> !self.points@[current as int].deleted,
                        !changed ==> (level as int) < self.points@[current as int].neighbors@.len()
                            && nlen == self.points@[current as int].neighbors@[level as int]@.len(),
                        t <= nlen,
                    decreases nlen - t,
                {
                    let neighbor = self.points[current].neighbors[level][t];
                    if !self.points[neighbor].deleted {
                        let d_current = distance(query, &self.points[current].vector, self.metric);
                        let d_new = distance(query, &self.points[neighbor].vector, self.metric);
                        let s_current = crate::binary32::key32(self.normalize_score(d_current));
                        let s_new = crate::binary32::key32(self.normalize_score(d_new));
                        if s_new < s_current {
                            proof {
                                reveal(HNSWIndex::spec_key_of);
                                assert(s_new == self.spec_key_of(query@, neighbor as int));
                                assert(s_current == self.spec_key_of(query@, current as int));
                            }
                            current = neighbor;
                            changed = true;
                        }
                    }
                    t = t + 1;
                }
            }
        }
        current
    }

    /// Greedy descent at one level, over point ids.
    pub fn greedy_search_layer(&self, query: &Vector, entry: u64, level: usize) -> (r: u64)
        requires
            self.wf(),
            query@.len() == self.dim,
            self.spec_contains_id(entry),
        ensures
            self.spec_contains_id(r),
            r == entry || self.spec_live(r),
            spec_sort_key(self.metric, spec_distance(self.metric, query@, self.spec_vector_of(r)))
                <= spec_sort_key(
                self.metric,
                spec_distance(self.metric, query@, self.spec_vector_of(entry)),
            ),
    {
        let eidx = match self.find_idx(entry) {
            Some(i) => i,
            None => {
                proof {
                    assert(false);
                }
                0
            },
        };
        let ridx = self.greedy_idx(query, eidx, level);
        let rid = self.points[ridx].id;
        proof {
            if ridx != eidx {
                assert(self.spec_live(rid));
            } else {
                assert(rid == entry);
            }
            self.lemma_idx_of_at(ridx as int);
            self.lemma_idx_of_at(eidx as int);
            assert(self.spec_vector_of(rid) == self.points@[ridx as int].vector@);
            assert(self.spec_vector_of(entry) == self.points@[eidx as int].vector@);
            reveal(HNSWIndex::spec_key_of);
        }
        rid
    }

    /// Beam search at one level with width `ef`: returns up to `ef` live
    /// candidates sorted by ascending sort key, with exact scores, visiting
    /// each point at most once.
    fn search_layer_idx(&self, query: &Vector, entry: usize, level: usize, ef: usize) -> (r: Vec<
        Cand,
    >)
        requires
            self.wf(),
            query@.len() == self.dim,
            entry < self.points@.len(),
            !self.points@[entry as int].deleted,
        ensures
            cands_sorted(r@),
            self.cands_good(query@, r@),
            1 <= r@.len(),
            r@.len() <= (if ef >= 1 {
                ef as int
            } else {
                1
            }),
            forall|k1: int, k2: int| 0 <= k1 < k2 < r@.len() ==> (#[trigger] r@[k1]).idx != (
                #[trigger] r@[k2]).idx,
    {
        let n = self.points.len();
        let mut visited: Vec<bool> = Vec::new();
        let mut q: usize = 0;
        while q < n
            invariant
                visited@.len() == q,
                q <= n,
            decreases n - q,
        {
            visited.push(false);
            q = q + 1;
        }
        let mut candidates: Vec<Cand> = Vec::new();
        let mut results: Vec<Cand> = Vec::new();
        let initial = self.make_cand(query, entry);
        candidates.push(initial);
        results.push(initial);
        visited[entry] = true;
        loop
            invariant_except_break
                self.wf(),
                query@.len() == self.dim,
                n == self.points@.len(),
                visited@.len() == n,
                cands_sorted(candidates@),
                cands_sorted(results@),
                self.cands_good(query@, candidates@),
                self.cands_good(query@, results@),
                1 <= results@.len(),
                results@.len() <= (if ef >= 1 {
                    ef as int
                } else {
                    1
                }),
                forall|k: int| 0 <= k < candidates@.len() ==> visited@[(
                    #[trigger] candidates@[k]).idx as int],
                forall|k: int| 0 <= k < results@.len() ==> visited@[(
                    #[trigger] results@[k]).idx as int],
                forall|k1: int, k2: int|
                    0 <= k1 < k2 < results@.len() ==> (#[trigger] results@[k1]).idx != (
                    #[trigger] results@[k2]).idx,
            ensures
                cands_sorted(results@),
                self.cands_good(query@, results@),
                1 <= results@.len(),
                results@.len() <= (if ef >= 1 {
                    ef as int
                } else {
                    1
                }),
                forall|k1: int, k2: int|
                    0 <= k1 < k2 < results@.len() ==> (#[trigger] results@[k1]).idx != (
                    #[trigger] results@[k2]).idx,
            decreases 2 * unvisited_count(visited@) + candidates@.len(),
        {
            if candidates.len() == 0 {
                break ;
            }
            let current = candidates[0];
            let worst = results[results.len() - 1].key;
            if current.key > worst {
                break ;
            }
            let ghost cpre = candidates@;
            candidates.remove(0);
            proof {
                assert(candidates@ =~= cpre.skip(1));
            }
            let ghost measure_after_pop = 2 * unvisited_count(visited@) + candidates@.len();
            if level < self.points[current.idx].neighbors.len() {
                let nlen = self.points[current.idx].neighbors[level].len();
                let mut t: usize = 0;
                while t < nlen
                    invariant
                        self.wf(),
                        query@.len() == self.dim,
                        n == self.points@.len(),
                        visited@.len() == n,
                        current.idx < n,
                        (level as int) < self.points@[current.idx as int].neighbors@.len(),
                        nlen == self.points@[current.idx as int].neighbors@[level as int]@.len(),
                        t <= nlen,
                        cands_sorted(candidates@),
                        cands_sorted(results@),
                        self.cands_good(query@, candidates@),
                        self.cands_good(query@, results@),
                        1 <= results@.len(),
                        results@.len() <= (if ef >= 1 {
                            ef as int
                        } else {
                            1
                        }),
                        forall|k: int| 0 <= k < candidates@.len() ==> visited@[(
                            #[trigger] candidates@[k]).idx as int],
                        forall|k: int| 0 <= k < results@.len() ==> visited@[(
                            #[trigger] results@[k]).idx as int],
                        forall|k1: int, k2: int|
                            0 <= k1 < k2 < results@.len() ==> (#[trigger] results@[k1]).idx != (
                            #[trigger] results@[k2]).idx,
                        2 * unvisited_count(visited@) + candidates@.len() <= measure_after_pop,
                    decreases nlen - t,
                {
                    let neighbor = self.points[current.idx].neighbors[level][t];
                    if !self.points[neighbor].deleted && !visited[neighbor] {
                        let ghost vis0 = visited@;
                        visited[neighbor] = true;
                        proof {
                            assert(visited@ =~= vis0.update(neighbor as int, true));
                            lemma_unvisited_update(vis0, neighbor as int);
                        }
                        let cnd = self.make_cand(query, neighbor);
                        let worst_now = results[results.len() - 1].key;
                        if results.len() < ef || cnd.key < worst_now {
                            let ghost c0 = candidates@;
                            let ghost r0 = results@;
                            insert_cand(&mut candidates, cnd);
                            insert_cand(&mut results, cnd);
                            proof {
                                let cp = choose|cp: int|
                                    0 <= cp <= c0.len() && candidates@ == c0.insert(cp, cnd);
                                c0.insert_ensures(cp, cnd);
                                let rp = choose|rp: int|
                                    0 <= rp <= r0.len() && results@ == r0.insert(rp, cnd);
                                r0.insert_ensures(rp, cnd);
                                assert forall|k: int|
                                    0 <= k < candidates@.len() implies visited@[(
                                #[trigger] candidates@[k]).idx as int] by {
                                    if k < cp {
                                        assert(candidates@[k] == c0[k]);
                                    } else if k > cp {
                                        assert(candidates@[k] == c0[k - 1]);
                                    }
                                }
                                assert forall|k: int|
                                    0 <= k < results@.len() implies visited@[(
                                #[trigger] results@[k]).idx as int] by {
                                    if k < rp {
                                        assert(results@[k] == r0[k]);
                                    } else if k > rp {
                                        assert(results@[k] == r0[k - 1]);
                                    }
                                }
                                assert forall|k: int|
                                    0 <= k < candidates@.len() implies self.cand_good(
                                    query@,
                                    #[trigger] candidates@[k],
                                ) by {
                                    if k < cp {
                                        assert(candidates@[k] == c0[k]);
                                    } else if k > cp {
                                        assert(candidates@[k] == c0[k - 1]);
                                    }
                                }
                                assert forall|k: int|
                                    0 <= k < results@.len() implies self.cand_good(
                                    query@,
                                    #[trigger] results@[k],
                                ) by {
                                    if k < rp {
                                        assert(results@[k] == r0[k]);
                                    } else if k > rp {
                                        assert(results@[k] == r0[k - 1]);
                                    }
                                }
                                assert forall|k1: int, k2: int|
                                    0 <= k1 < k2 < results@.len() implies (
                                #[trigger] results@[k1]).idx != (#[trigger] results@[k2]).idx by {
                                    let v1: Cand = if k1 < rp {
                                        r0[k1]
                                    } else if k1 == rp {
                                        cnd
                                    } else {
                                        r0[k1 - 1]
                                    };
                                    let v2: Cand = if k2 < rp {
                                        r0[k2]
                                    } else if k2 == rp {
                                        cnd
                                    } else {
                                        r0[k2 - 1]
                                    };
                                    assert(results@[k1] == v1 && results@[k2] == v2);
                                    if k1 == rp {
                                        assert(!vis0[cnd.idx as int]);
                                        assert(vis0[v2.idx as int]);
                                    } else if k2 == rp {
                                        assert(!vis0[cnd.idx as int]);
                                        assert(vis0[v1.idx as int]);
                                    }
                                }
                            }
                            if results.len() > ef {
                                let ghost rfull = results@;
                                let last = results.len() - 1;
                                results.remove(last);
                                proof {
                                    assert(results@ =~= rfull.drop_last());
                                }
                            }
                        }
                    }
                    t = t + 1;
                }
            }
        }
        results
    }
}

/// All result ids are pairwise distinct.
pub open spec fn ids_distinct(rs: Seq<ScoredPoint>) -> bool {
    forall|k1: int, k2: int|
        0 <= k1 < k2 < rs.len() ==> (#[trigger] rs[k1]).id != (#[trigger] rs[k2]).id
}

impl HNSWIndex {
    /// Every result names a live point, carries the exact raw score of the
    /// query against that point's stored vector, and the matching sort key.
    pub open spec fn spec_results_valid(self, query: Seq<u32>, rs: Seq<ScoredPoint>) -> bool {
        forall|k: int|
            0 <= k < rs.len() ==> {
                let sp = #[trigger] rs[k];
                &&& self.spec_live(sp.id)
                &&& sp.raw_score == spec_distance(self.metric, query, self.spec_vector_of(sp.id))
                &&& sp.sort_key == spec_sort_key(self.metric, sp.raw_score)
            }
    }

    /// In a well-formed index, the position chosen for a stored id is the
    /// position it sits at.
    pub proof fn lemma_idx_of_at(self, idx: int)
        requires
            self.wf(),
            0 <= idx < self.points@.len(),
        ensures
            self.spec_idx_of(self.points@[idx].id) == idx,
            self.spec_contains_id(self.points@[idx].id),
    {
        let id = self.points@[idx].id;
        assert(self.spec_contains_id(id));
        let j = self.spec_idx_of(id);
        if j != idx {
            if j < idx {
                assert(self.points@[j].id != self.points@[idx].id);
            } else {
                assert(self.points@[idx].id != self.points@[j].id);
            }
        }
    }

    /// Convert internal candidates to public results, keeping at most
    /// `top_k` of them.
    pub(crate) fn cands_to_results(&self, cands: &Vec<Cand>, top_k: usize, Ghost(query): Ghost<Seq<u32>>) -> (r:
        Vec<ScoredPoint>)
        requires
            self.wf(),
            cands_sorted(cands@),
            self.cands_good(query, cands@),
            forall|k1: int, k2: int|
                0 <= k1 < k2 < cands@.len() ==> (#[trigger] cands@[k1]).idx != (
                #[trigger] cands@[k2]).idx,
        ensures
            r@.len() == (if cands@.len() <= top_k {
                cands@.len() as int
            } else {
                top_k as int
            }),
            results_sorted(r@),
            ids_distinct(r@),
            self.spec_results_valid(query, r@),
            forall|j: int|
                0 <= j < r@.len() ==> (#[trigger] r@[j]).id == self.points@[
                    cands@[j].idx as int
                ].id && r@[j].raw_score == cands@[j].raw && r@[j].sort_key == cands@[j].key,
    {
        let mut out: Vec<ScoredPoint> = Vec::new();
        let limit = if cands.len() <= top_k {
            cands.len()
        } else {
            top_k
        };
        for k in 0..limit
            invariant
                self.wf(),
                cands_sorted(cands@),
                self.cands_good(query, cands@),
                forall|k1: int, k2: int|
                    0 <= k1 < k2 < cands@.len() ==> (#[trigger] cands@[k1]).idx != (
                    #[trigger] cands@[k2]).idx,
                limit <= cands@.len(),
                out@.len() == k,
                forall|j: int|
                    0 <= j < k ==> (#[trigger] out@[j]).id == self.points@[cands@[j].idx as int].id
                        && out@[j].raw_score == cands@[j].raw && out@[j].sort_key == cands@[j].key,
                results_sorted(out@),
                ids_distinct(out@),
                self.spec_results_valid(query, out@),
        {
            let c = cands[k];
            let sp = ScoredPoint { id: self.points[c.idx].id, raw_score: c.raw, sort_key: c.key };
            out.push(sp);
            proof {
                self.lemma_idx_of_at(c.idx as int);
                assert forall|j1: int, j2: int|
                    0 <= j1 < j2 < out@.len() implies (#[trigger] out@[j1]).id != (
                #[trigger] out@[j2]).id by {
                    if j2 == out@.len() - 1 {
                        let i1 = cands@[j1].idx as int;
                        let i2 = c.idx as int;
                        if i1 < i2 {
                            assert(self.points@[i1].id != self.points@[i2].id);
                        } else {
                            assert(self.points@[i2].id != self.points@[i1].id);
                        }
                    }
                }
            }
        }
        out
    }

    /// Approximate nearest-neighbour search: greedy descent from the entry
    /// point to level 1, a beam at level 0 with width `ef`, results sorted
    /// ascending by sort key and truncated to `top_k`.  Tombstoned points
    /// are never returned.  An empty index answers with no results; a
    /// query of the wrong length is a dimension error.
    pub fn search(&self, query: &Vector, top_k: usize) -> (r: Result<Vec<ScoredPoint>, DBError>)
        requires
            self.wf(),
        ensures
            match r {
                Ok(res) => {
                    &&& (self.entry_point is None ==> res@.len() == 0)
                    &&& (self.entry_point is Some ==> query@.len() == self.dim && results_sorted(
                        res@,
                    ) && res@.len() <= top_k && ids_distinct(res@) && self.spec_results_valid(
                        spec_maybe_normalize(self.metric, query@),
                        res@,
                    ) && (top_k >= 1 ==> res@.len() >= 1))
                },
                Err(e) => self.entry_point is Some && query@.len() != self.dim && (match e {
                    DBError::VectorLengthMismatch { expected, actual } => expected == self.dim
                        && actual == query@.len(),
                    _ => false,
                }),
            },
    {
        let e = match self.entry_point {
            Some(e) => e,
            None => {
                return Ok(Vec::new());
            },
        };
        if query.len() != self.dim {
            return Err(DBError::VectorLengthMismatch { expected: self.dim, actual: query.len() });
        }
        let q = self.maybe_normalize(query);
        let mut current = e;
        let mut l = self.current_max_level;
        while l >= 1
            invariant
                self.wf(),
                q@.len() == self.dim,
                current < self.points@.len(),
                !self.points@[current as int].deleted,
            decreases l,
        {
            let next = self.greedy_idx(&q, current, l);
            if !self.points[next].deleted {
                current = next;
            }
            l = l - 1;
        }
        let cands = self.search_layer_idx(&q, current, 0, self.ef);
        let res = self.cands_to_results(&cands, top_k, Ghost(q@));
        Ok(res)
    }
}

/// The adjacency list at one level, after registering a neighbour there:
/// the prior list (empty when the level was not yet registered), unchanged
/// when it already named the neighbour, extended by exactly one copy
/// otherwise.
pub open spec fn edge_list_extended(
    old_nb: Seq<Vec<usize>>,
    new_list: Seq<usize>,
    level: int,
    target: usize,
) -> bool {
    let before: Seq<usize> = if level < old_nb.len() {
        old_nb[level]@
    } else {
        Seq::empty()
    };
    (new_list == before && before.contains(target)) || (new_list == before.push(target)
        && !before.contains(target))
}

/// The freshly inserted point at position `nidx` is properly wired at
/// level `l`: its adjacency there carries a self-loop and at most `m`
/// chosen neighbours, and every chosen neighbour links back to it at the
/// same level.
pub open spec fn spec_linked_at(pts: Seq<Point>, nidx: int, l: int, m: int) -> bool {
    &&& pts[nidx].neighbors@[l]@.contains(nidx as usize)
    &&& pts[nidx].neighbors@[l]@.len() <= m + 1
    &&& forall|x: usize|
        #[trigger] pts[nidx].neighbors@[l]@.contains(x) && x != nidx as usize ==> x
            < pts.len() && l < pts[x as int].neighbors@.len() && pts[x as int].neighbors@[
            l
        ]@.contains(nidx as usize)
}

/// The identity, stored vector, level and tombstone flag of a point are
/// unchanged (its adjacency may differ).
pub open spec fn same_point_core(p: Point, q: Point) -> bool {
    p.id == q.id && p.vector == q.vector && p.level == q.level && p.deleted == q.deleted
}

impl HNSWIndex {
    /// The parameters and entry bookkeeping are unchanged.
    pub open spec fn same_params(self, other: HNSWIndex) -> bool {
        self.metric == other.metric && self.m == other.m && self.ef == other.ef
            && self.max_level_cap == other.max_level_cap && self.dim == other.dim
    }

    /// Replace one adjacency list.
    fn set_adj(&mut self, i: usize, l: usize, list: Vec<usize>)
        requires
            old(self).wf(),
            i < old(self).points@.len(),
            (l as int) < old(self).points@[i as int].neighbors@.len(),
            forall|k: int| 0 <= k < list@.len() ==> #[trigger] list@[k] < old(self).points@.len(),
        ensures
            final (self).wf(),
            final (self).points@.len() == old(self).points@.len(),
            forall|j: int|
                0 <= j < final (self).points@.len() ==> same_point_core(
                    #[trigger] final (self).points@[j],
                    old(self).points@[j],
                ),
            forall|j: int|
                0 <= j < final (self).points@.len() && j != i ==> #[trigger] final (self).points@[j] == old(self).points@[j],
            final (self).points@[i as int].neighbors@.len() == old(self).points@[
                i as int
            ].neighbors@.len(),
            final (self).points@[i as int].neighbors@[l as int] == list,
            forall|l2: int|
                0 <= l2 < final (self).points@[i as int].neighbors@.len() && l2 != l
                    ==> #[trigger] final (self).points@[i as int].neighbors@[l2] == old(self).points@[i as int].neighbors@[l2],
            final (self).same_params(*old(self)),
            final (self).entry_point == old(self).entry_point,
            final (self).current_max_level == old(self).current_max_level,
    {
        let mut p = self.points.remove(i);
        let ghost nb0 = p.neighbors@;
        p.neighbors.remove(l);
        p.neighbors.insert(l, list);
        proof {
            assert(p.neighbors@ =~= nb0.update(l as int, list));
        }
        let ghost p2 = p;
        self.points.insert(i, p);
        proof {
            assert(self.points@ =~= old(self).points@.update(i as int, p2));
        }
    }

    /// Register `target` in the adjacency of point `i` at level `l`,
    /// creating empty lists up to that level if needed, unless the edge is
    /// already present.
    fn add_neighbor_if_absent(&mut self, i: usize, l: usize, target: usize)
        requires
            old(self).wf(),
            i < old(self).points@.len(),
            target < old(self).points@.len(),
            l <= old(self).max_level_cap,
        ensures
            final (self).wf(),
            final (self).points@.len() == old(self).points@.len(),
            forall|j: int|
                0 <= j < final (self).points@.len() ==> same_point_core(
                    #[trigger] final (self).points@[j],
                    old(self).points@[j],
                ),
            forall|j: int|
                0 <= j < final (self).points@.len() && j != i ==> #[trigger] final (self).points@[j] == old(self).points@[j],
            final (self).same_params(*old(self)),
            final (self).entry_point == old(self).entry_point,
            final (self).current_max_level == old(self).current_max_level,
            (l as int) < final (self).points@[i as int].neighbors@.len(),
            final (self).points@[i as int].neighbors@[l as int]@.contains(target),
            // exact change: levels other than `l` keep their lists (levels
            // created by registration are empty), and the list at `l` either
            // already named the target or gains exactly one copy of it
            final (self).points@[i as int].neighbors@.len() == (if (l as int) < old(
                self,
            ).points@[i as int].neighbors@.len() {
                old(self).points@[i as int].neighbors@.len() as int
            } else {
                l + 1
            }),
            forall|l2: int|
                0 <= l2 < old(self).points@[i as int].neighbors@.len() && l2 != l
                    ==> #[trigger] final (self).points@[i as int].neighbors@[l2] == old(
                    self,
                ).points@[i as int].neighbors@[l2],
            forall|l2: int|
                old(self).points@[i as int].neighbors@.len() <= l2 < final (self).points@[
                    i as int
                ].neighbors@.len() && l2 != l ==> (#[trigger] final (self).points@[
                    i as int
                ].neighbors@[l2])@.len() == 0,
            ({
                let before: Seq<usize> = if (l as int) < old(self).points@[
                    i as int
                ].neighbors@.len() {
                    old(self).points@[i as int].neighbors@[l as int]@
                } else {
                    Seq::empty()
                };
                (final (self).points@[i as int].neighbors@[l as int]@ == before
                    && before.contains(target)) || (final (self).points@[
                    i as int
                ].neighbors@[l as int]@ == before.push(target) && !before.contains(target))
            }),
    {
        let ghost old_nb = old(self).points@[i as int].neighbors@;
        while self.points[i].neighbors.len() <= l
            invariant
                self.wf(),
                i < self.points@.len(),
                l <= self.max_level_cap,
                self.points@.len() == old(self).points@.len(),
                forall|j: int|
                    0 <= j < self.points@.len() ==> same_point_core(
                        #[trigger] self.points@[j],
                        old(self).points@[j],
                    ),
                forall|j: int|
                    0 <= j < self.points@.len() && j != i ==> #[trigger] self.points@[j] == old(self).points@[j],
                self.same_params(*old(self)),
                self.entry_point == old(self).entry_point,
                self.current_max_level == old(self).current_max_level,
                old_nb == old(self).points@[i as int].neighbors@,
                self.points@[i as int].neighbors@.len() >= old_nb.len(),
                forall|l2: int|
                    0 <= l2 < old_nb.len() ==> #[trigger] self.points@[i as int].neighbors@[l2]
                        == old_nb[l2],
                forall|l2: int|
                    old_nb.len() <= l2 < self.points@[i as int].neighbors@.len() ==> (
                    #[trigger] self.points@[i as int].neighbors@[l2])@.len() == 0,
                self.points@[i as int].neighbors@.len() <= l + 1 || self.points@[
                    i as int
                ].neighbors@.len() == old_nb.len(),
            decreases l + 1 - self.points@[i as int].neighbors@.len(),
        {
            let mut p = self.points.remove(i);
            let ghost nbpre = p.neighbors@;
            p.neighbors.push(Vec::new());
            proof {
                assert(p.neighbors@ =~= nbpre.push(p.neighbors@.last()));
            }
            self.points.insert(i, p);
        }
        let nlen = self.points[i].neighbors[l].len();
        let mut present = false;
        for k in 0..nlen
            invariant
                i < self.points@.len(),
                (l as int) < self.points@[i as int].neighbors@.len(),
                nlen == self.points@[i as int].neighbors@[l as int]@.len(),
                present == (exists|u: int|
                    0 <= u < k && self.points@[i as int].neighbors@[l as int]@[u] == target),
        {
            if self.points[i].neighbors[l][k] == target {
                present = true;
            }
        }
        if !present {
            let mut p = self.points.remove(i);
            let ghost nb0 = p.neighbors@;
            let mut lst = p.neighbors.remove(l);
            let ghost lst0 = lst@;
            lst.push(target);
            p.neighbors.insert(l, lst);
            proof {
                assert(p.neighbors@ =~= nb0.update(l as int, p.neighbors@[l as int]));
                assert(p.neighbors@[l as int]@ == lst0.push(target));
                assert(p.neighbors@[l as int]@.last() == target);
            }
            let ghost p2 = p;
            self.points.insert(i, p);
            proof {
                assert(self.points@.len() == old(self).points@.len());
                assert(self.points@[i as int] == p2);
            }
        } else {
            proof {
                let u = choose|u: int|
                    0 <= u < nlen && self.points@[i as int].neighbors@[l as int]@[u] == target;
                assert(self.points@[i as int].neighbors@[l as int]@.contains(target));
            }
        }
    }

    /// Insert a bidirectional edge at a level between two stored points,
    /// deduplicating; a missing level registers the point at that level.
    /// Afterwards each point's adjacency at that level names the other.
    pub fn add_bidirectional_edge(&mut self, level: usize, a: u64, b: u64)
        requires
            old(self).wf(),
            old(self).spec_contains_id(a),
            old(self).spec_contains_id(b),
            level <= old(self).max_level_cap,
        ensures
            final (self).wf(),
            final (self).points@.len() == old(self).points@.len(),
            forall|j: int|
                0 <= j < final (self).points@.len() ==> same_point_core(
                    #[trigger] final (self).points@[j],
                    old(self).points@[j],
                ),
            final (self).same_params(*old(self)),
            final (self).entry_point == old(self).entry_point,
            final (self).current_max_level == old(self).current_max_level,
            exists|ia: int, ib: int|
                {
                    &&& 0 <= ia < final (self).points@.len()
                    &&& 0 <= ib < final (self).points@.len()
                    &&& (#[trigger] final (self).points@[ia]).id == a
                    &&& (#[trigger] final (self).points@[ib]).id == b
                    &&& (level as int) < final (self).points@[ia].neighbors@.len()
                    &&& (level as int) < final (self).points@[ib].neighbors@.len()
                    &&& final (self).points@[ia].neighbors@[level as int]@.contains(ib as usize)
                    &&& final (self).points@[ib].neighbors@[level as int]@.contains(ia as usize)
                    // no other point's adjacency changes, the two touched
                    // points keep every other level, and each touched list
                    // gains at most one copy of the new neighbour (none
                    // when the edge was already there)
                    &&& (forall|j: int|
                        0 <= j < final (self).points@.len() && j != ia && j != ib
                            ==> #[trigger] final (self).points@[j] == old(self).points@[j])
                    &&& (forall|j: int, l2: int|
                        (j == ia || j == ib) && 0 <= l2 < old(self).points@[j].neighbors@.len()
                            && l2 != level ==> #[trigger] final (self).points@[j].neighbors@[l2]
                            == old(self).points@[j].neighbors@[l2])
                    &&& edge_list_extended(
                        old(self).points@[ia].neighbors@,
                        final (self).points@[ia].neighbors@[level as int]@,
                        level as int,
                        ib as usize,
                    )
                    &&& edge_list_extended(
                        old(self).points@[ib].neighbors@,
                        final (self).points@[ib].neighbors@[level as int]@,
                        level as int,
                        ia as usize,
                    )
                },
    {
        let ia = match self.find_idx(a) {
            Some(i) => i,
            None => {
                proof {
                    assert(false);
                }
                0
            },
        };
        let ib = match self.find_idx(b) {
            Some(i) => i,
            None => {
                proof {
                    assert(false);
                }
                0
            },
        };
        self.add_neighbor_if_absent(ia, level, ib);
        let ghost mid = *self;
        self.add_neighbor_if_absent(ib, level, ia);
        proof {
            assert(self.points@[ia as int].id == a && self.points@[ib as int].id == b);
            assert(self.points@[ib as int].neighbors@[level as int]@.contains(ia));
            // the second insertion touched only the point at `ib`
            if ia != ib {
                assert(self.points@[ia as int] == mid.points@[ia as int]);
            }
            assert((level as int) < self.points@[ia as int].neighbors@.len());
            assert(self.points@[ia as int].neighbors@[level as int]@.contains(ib));
            assert(edge_list_extended(
                old(self).points@[ia as int].neighbors@,
                self.points@[ia as int].neighbors@[level as int]@,
                level as int,
                ib,
            )) by {
                if ia == ib {
                    assert(mid.points@[ia as int].neighbors@[level as int]@.contains(ia));
                    assert(self.points@[ia as int].neighbors@[level as int]@ == mid.points@[
                        ia as int
                    ].neighbors@[level as int]@);
                }
            }
            assert(edge_list_extended(
                old(self).points@[ib as int].neighbors@,
                self.points@[ib as int].neighbors@[level as int]@,
                level as int,
                ia,
            )) by {
                if ia != ib {
                    assert(mid.points@[ib as int] == old(self).points@[ib as int]);
                }
            }
        }
    }

    /// Stochastic level assignment: repeatedly advance one level with
    /// probability `1/m`, capped at `max_level_cap` (so a level `l` is
    /// reached with probability `m^-l`, the classic exponential decay).
    fn assign_random_level(&self) -> (r: usize)
        ensures
            r <= self.max_level_cap,
    {
        let mut level: usize = 0;
        if self.m > 1 {
            while level < self.max_level_cap
                invariant
                    level <= self.max_level_cap,
                    self.m > 1,
                decreases self.max_level_cap - level,
            {
                if random_below(self.m as u64) != 0 {
                    break ;
                }
                level = level + 1;
            }
        }
        level
    }

    /// Insert a vector under a fresh id.  Inserting an id that is already
    /// present is a no-op success; a vector of the wrong length is a
    /// dimension error and changes nothing.  On success the (possibly
    /// normalized) vector is stored live under the id, every prior point
    /// keeps its identity, vector, level and tombstone flag, and the
    /// parameters are unchanged.
    pub fn insert(&mut self, point_id: u64, vector: Vector) -> (r: Result<(), DBError>)
        requires
            old(self).wf(),
        ensures
            final (self).wf(),
            final (self).same_params(*old(self)),
            old(self).spec_contains_id(point_id) ==> r is Ok && *final (self) == *old(self),
            !old(self).spec_contains_id(point_id) && vector@.len() != old(self).dim ==> (match r {
                Err(DBError::VectorLengthMismatch { expected, actual }) => expected == old(self).dim && actual == vector@.len(),
                _ => false,
            }) && *final (self) == *old(self),
            !old(self).spec_contains_id(point_id) && vector@.len() == old(self).dim ==> r is Ok
                && {
                &&& final (self).points@.len() == old(self).points@.len() + 1
                &&& final (self).points@[old(self).points@.len() as int].id == point_id
                &&& final (self).points@[old(self).points@.len() as int].vector@
                    == spec_maybe_normalize(old(self).metric, vector@)
                &&& !final (self).points@[old(self).points@.len() as int].deleted
                &&& forall|j: int|
                    0 <= j < old(self).points@.len() ==> same_point_core(
                        #[trigger] final (self).points@[j],
                        old(self).points@[j],
                    )
                &&& final (self).spec_live(point_id)
                &&& final (self).entry_point is Some
                &&& ({
                    let nlen = old(self).points@.len() as int;
                    let lv = final (self).points@[nlen].level as int;
                    // self-loop and bidirectional links at every level the
                    // point was registered at, with at most m chosen
                    // neighbours per level
                    &&& (forall|l: int|
                        0 <= l <= lv ==> spec_linked_at(
                            final (self).points@,
                            nlen,
                            l,
                            old(self).m as int,
                        ))
                    // entry-point promotion rule
                    &&& (old(self).entry_point is None ==> final (self).entry_point == Some(
                        old(self).points@.len() as usize,
                    ) && final (self).current_max_level as int == lv)
                    &&& (old(self).entry_point is Some ==> ((lv > old(
                        self,
                    ).current_max_level ==> final (self).entry_point == Some(
                        old(self).points@.len() as usize,
                    ) && final (self).current_max_level as int == lv) && (lv <= old(
                        self,
                    ).current_max_level ==> final (self).entry_point == old(self).entry_point
                        && final (self).current_max_level == old(self).current_max_level)))
                })
            },
    {
        if self.contains(&point_id) {
            return Ok(());
        }
        if vector.len() != self.dim {
            return Err(DBError::VectorLengthMismatch {
                expected: self.dim,
                actual: vector.len(),
            });
        }
        let level = self.assign_random_level();
        let vec = self.maybe_normalize(&vector);
        let new_idx = self.points.len();
        let mut nb: Vec<Vec<usize>> = Vec::new();
        let mut first: Vec<usize> = Vec::new();
        first.push(new_idx);
        nb.push(first);
        let mut l0: usize = 0;
        while l0 < level
            invariant
                nb@.len() == l0 + 1,
                l0 <= level,
                forall|j: int, k: int|
                    0 <= j < nb@.len() && 0 <= k < nb@[j]@.len() ==> #[trigger] nb@[j]@[k]
                        == new_idx,
                forall|j: int| 0 <= j < nb@.len() ==> (#[trigger] nb@[j])@.len() == 1,
            decreases level - l0,
        {
            let mut one: Vec<usize> = Vec::new();
            one.push(new_idx);
            nb.push(one);
            l0 = l0 + 1;
        }
        self.points.push(
            Point { id: point_id, vector: vec, level, deleted: false, neighbors: nb },
        );
        let ghost base = *self;
        proof {
            assert(self.points@.drop_last() =~= old(self).points@);
            assert(self.wf()) by {
                assert forall|j: int, l: int, k: int|
                    0 <= j < self.points@.len() && 0 <= l < self.points@[j].neighbors@.len() && 0
                        <= k < self.points@[j].neighbors@[l]@.len() implies #[trigger] self.points@[j].neighbors@[l]@[k]
                    < self.points@.len() by {
                    if j < self.points@.len() - 1 {
                        assert(self.points@[j] == old(self).points@[j]);
                    }
                }
                assert forall|a: int, b: int|
                    0 <= a < b < self.points@.len() implies (#[trigger] self.points@[a]).id != (
                #[trigger] self.points@[b]).id by {
                    if b == self.points@.len() - 1 {
                        assert(self.points@[a] == old(self).points@[a]);
                        assert(old(self).spec_contains_id(old(self).points@[a].id));
                    }
                }
            }
            assert(self.spec_live(point_id)) by {
                assert(self.points@[new_idx as int].id == point_id);
            }
        }
        let eidx = match self.entry_point {
            Some(e) => e,
            None => {
                self.entry_point = Some(new_idx);
                self.current_max_level = level;
                proof {
                    assert forall|l: int| 0 <= l <= level implies spec_linked_at(
                        self.points@,
                        new_idx as int,
                        l,
                        self.m as int,
                    ) by {
                        assert(self.points@[new_idx as int].neighbors@[l]@ =~= seq![new_idx]);
                        assert(self.points@[new_idx as int].neighbors@[l]@[0] == new_idx);
                        assert(self.points@[new_idx as int].neighbors@[l]@.contains(new_idx));
                        assert forall|x: usize|
                            #[trigger] self.points@[new_idx as int].neighbors@[l]@.contains(x) && x
                                != new_idx implies false by {
                            let u = choose|u: int|
                                0 <= u < self.points@[new_idx as int].neighbors@[l]@.len()
                                    && self.points@[new_idx as int].neighbors@[l]@[u] == x;
                        }
                    }
                    assert(self.points@[new_idx as int].level == level);
                    assert(self.entry_point == Some(new_idx));
                    assert(self.current_max_level == level);
                    assert(self.m == old(self).m);
                }
                return Ok(());
            },
        };
        let q = self.points[new_idx].vector.clone();
        let mut current = eidx;
        let mut l = self.current_max_level;
        while l > level
            invariant
                self.wf(),
                *self == base,
                q@.len() == self.dim,
                current < self.points@.len(),
                !self.points@[current as int].deleted,
            decreases l,
        {
            let next = self.greedy_idx(&q, current, l);
            if !self.points[next].deleted {
                current = next;
            }
            l = l - 1;
        }
        // Connect at each level from the insertion level down to 0.
        let mut lc = level;
        proof {
            assert(self.points@[new_idx as int].neighbors@.len() == level + 1);
        }
        loop
            invariant_except_break
                self.wf(),
                q@.len() == self.dim,
                current < self.points@.len(),
                !self.points@[current as int].deleted,
                new_idx < self.points@.len(),
                new_idx == self.points@.len() - 1,
                lc <= level,
                level <= self.max_level_cap,
                self.points@[new_idx as int].level == level,
                self.points@[new_idx as int].neighbors@.len() == level + 1,
                self.points@.len() == base.points@.len(),
                forall|j: int|
                    0 <= j < self.points@.len() ==> same_point_core(
                        #[trigger] self.points@[j],
                        base.points@[j],
                    ),
                self.same_params(base),
                self.entry_point == base.entry_point,
                self.current_max_level == base.current_max_level,
                forall|l: int|
                    lc < l <= level ==> spec_linked_at(self.points@, new_idx as int, l, self.m as int),
            ensures
                self.wf(),
                self.points@.len() == base.points@.len(),
                forall|j: int|
                    0 <= j < self.points@.len() ==> same_point_core(
                        #[trigger] self.points@[j],
                        base.points@[j],
                    ),
                self.same_params(base),
                self.entry_point == base.entry_point,
                self.current_max_level == base.current_max_level,
                forall|l: int|
                    0 <= l <= level ==> spec_linked_at(self.points@, new_idx as int, l, self.m as int),
            decreases lc,
        {
            let cands = self.search_layer_idx(&q, current, lc, self.ef);
            let mut nbrs: Vec<usize> = Vec::new();
            let take = if cands.len() <= self.m {
                cands.len()
            } else {
                self.m
            };
            for k in 0..take
                invariant
                    take <= cands@.len(),
                    self.cands_good(q@, cands@),
                    nbrs@.len() == k,
                    forall|j: int| 0 <= j < k ==> (#[trigger] nbrs@[j]) < self.points@.len(),
                    forall|j: int|
                        0 <= j < k ==> !self.points@[#[trigger] nbrs@[j] as int].deleted,
            {
                nbrs.push(cands[k].idx);
            }
            let mut linked = clone_usize_vec(&nbrs);
            let mut has_self = false;
            let ln = linked.len();
            for k in 0..ln
                invariant
                    ln == linked@.len(),
                    linked@ == nbrs@,
                    has_self == (exists|u: int| 0 <= u < k && linked@[u] == new_idx),
            {
                if linked[k] == new_idx {
                    has_self = true;
                }
            }
            proof {
                if has_self {
                    let u = choose|u: int| 0 <= u < ln && linked@[u] == new_idx;
                    assert(linked@.contains(new_idx));
                } else {
                    if linked@.contains(new_idx) {
                        let u = choose|u: int|
                            0 <= u < linked@.len() && linked@[u] == new_idx;
                    }
                }
            }
            if !has_self {
                let ghost l0 = linked@;
                linked.push(new_idx);
                proof {
                    assert(linked@.last() == new_idx);
                    assert(linked@.contains(new_idx));
                    assert forall|x: usize| #[trigger] linked@.contains(x) && x != new_idx
                        implies nbrs@.contains(x) by {
                        let u = choose|u: int|
                            0 <= u < linked@.len() && linked@[u] == x;
                        assert(l0[u] == x);
                    }
                }
            } else {
                proof {
                    assert forall|x: usize| #[trigger] linked@.contains(x) && x != new_idx
                        implies nbrs@.contains(x) by {}
                }
            }
            let ghost glinked = linked@;
            proof {
                assert(glinked.contains(new_idx));
                assert(glinked.len() <= self.m + 1);
                assert(forall|x: usize|
                    #[trigger] glinked.contains(x) && x != new_idx ==> nbrs@.contains(x));
            }
            if lc < self.points[new_idx].neighbors.len() {
                proof {
                    assert(forall|k: int|
                        0 <= k < linked@.len() ==> #[trigger] linked@[k] < self.points@.len());
                }
                let ghost pre_set = *self;
                self.set_adj(new_idx, lc, linked);
                proof {
                    assert forall|l: int| lc < l <= level implies spec_linked_at(
                        self.points@,
                        new_idx as int,
                        l,
                        self.m as int,
                    ) by {
                        assert(spec_linked_at(pre_set.points@, new_idx as int, l, self.m as int));
                        assert(self.points@[new_idx as int].neighbors@[l] == pre_set.points@[
                            new_idx as int
                        ].neighbors@[l]);
                        assert forall|x: usize|
                            #[trigger] self.points@[new_idx as int].neighbors@[l]@.contains(x) && x
                                != new_idx implies x < self.points@.len() && l < self.points@[
                            x as int
                        ].neighbors@.len() && self.points@[x as int].neighbors@[l]@.contains(
                            new_idx,
                        ) by {
                            assert(pre_set.points@[new_idx as int].neighbors@[l]@.contains(x));
                            assert(self.points@[x as int] == pre_set.points@[x as int]);
                        }
                    }
                }
            } else {
                proof {
                    assert(false);
                }
            }
            let nn = nbrs.len();
            let mut k2: usize = 0;
            while k2 < nn
                invariant
                    self.wf(),
                    nn == nbrs@.len(),
                    q@.len() == self.dim,
                    current < self.points@.len(),
                    new_idx < self.points@.len(),
                    new_idx == self.points@.len() - 1,
                    lc <= level,
                    level <= self.max_level_cap,
                    self.points@[new_idx as int].level == level,
                    self.points@[new_idx as int].neighbors@.len() == level + 1,
                    self.points@[new_idx as int].neighbors@[lc as int]@ == glinked,
                    glinked.contains(new_idx),
                    glinked.len() <= self.m + 1,
                    forall|x: usize|
                        #[trigger] glinked.contains(x) && x != new_idx ==> nbrs@.contains(x),
                    forall|j: int| 0 <= j < nn ==> (#[trigger] nbrs@[j]) < self.points@.len(),
                    forall|t: int|
                        0 <= t < k2 ==> (lc as int) < self.points@[#[trigger] nbrs@[t] as int].neighbors@.len()
                            && self.points@[nbrs@[t] as int].neighbors@[lc as int]@.contains(
                            new_idx,
                        ),
                    self.points@.len() == base.points@.len(),
                    forall|j: int|
                        0 <= j < self.points@.len() ==> same_point_core(
                            #[trigger] self.points@[j],
                            base.points@[j],
                        ),
                    self.same_params(base),
                    self.entry_point == base.entry_point,
                    self.current_max_level == base.current_max_level,
                    forall|l: int|
                        lc < l <= level ==> spec_linked_at(
                            self.points@,
                            new_idx as int,
                            l,
                            self.m as int,
                        ),
                decreases nn - k2,
            {
                let n = nbrs[k2];
                let ghost pre = *self;
                self.add_neighbor_if_absent(n, lc, new_idx);
                proof {
                    assert forall|l: int| lc < l <= level implies spec_linked_at(
                        self.points@,
                        new_idx as int,
                        l,
                        self.m as int,
                    ) by {
                        assert(spec_linked_at(pre.points@, new_idx as int, l, self.m as int));
                        assert(self.points@[new_idx as int].neighbors@[l]
                            == pre.points@[new_idx as int].neighbors@[l]);
                        assert forall|x: usize|
                            #[trigger] self.points@[new_idx as int].neighbors@[l]@.contains(x) && x
                                != new_idx implies x < self.points@.len() && l < self.points@[
                            x as int
                        ].neighbors@.len() && self.points@[x as int].neighbors@[l]@.contains(
                            new_idx,
                        ) by {
                            assert(pre.points@[new_idx as int].neighbors@[l]@.contains(x));
                            if x == n {
                                assert(self.points@[x as int].neighbors@[l]
                                    == pre.points@[x as int].neighbors@[l]);
                            } else {
                                assert(self.points@[x as int] == pre.points@[x as int]);
                            }
                        }
                    }
                    assert forall|t: int|
                        0 <= t < k2 + 1 implies (lc as int) < self.points@[
                        #[trigger] nbrs@[t] as int].neighbors@.len() && self.points@[
                        nbrs@[t] as int].neighbors@[lc as int]@.contains(new_idx) by {
                        if t < k2 {
                            if nbrs@[t] == n {
                                let before = pre.points@[n as int].neighbors@[lc as int]@;
                                assert(before.contains(new_idx));
                                if self.points@[n as int].neighbors@[lc as int]@ != before {
                                    assert(self.points@[n as int].neighbors@[lc as int]@
                                        == before.push(new_idx));
                                    let u = choose|u: int|
                                        0 <= u < before.len() && before[u] == new_idx;
                                    assert(self.points@[n as int].neighbors@[lc as int]@[u]
                                        == new_idx);
                                }
                            } else {
                                assert(self.points@[nbrs@[t] as int] == pre.points@[
                                    nbrs@[t] as int]);
                            }
                        }
                    }
                    assert(self.points@[new_idx as int].neighbors@[lc as int]@ == glinked) by {
                        if n == new_idx {
                            let before = pre.points@[new_idx as int].neighbors@[lc as int]@;
                            assert(before.contains(new_idx));
                        } else {
                            assert(self.points@[new_idx as int] == pre.points@[new_idx as int]);
                        }
                    }
                }
                k2 = k2 + 1;
            }
            proof {
                assert(spec_linked_at(self.points@, new_idx as int, lc as int, self.m as int))
                    by {
                    assert(self.points@[new_idx as int].neighbors@[lc as int]@ == glinked);
                    assert forall|x: usize|
                        #[trigger] self.points@[new_idx as int].neighbors@[lc as int]@.contains(
                            x,
                        ) && x != new_idx implies x < self.points@.len() && (lc as int)
                        < self.points@[x as int].neighbors@.len() && self.points@[
                        x as int
                    ].neighbors@[lc as int]@.contains(new_idx) by {
                        assert(glinked.contains(x));
                        assert(nbrs@.contains(x));
                        let t = choose|t: int| 0 <= t < nbrs@.len() && nbrs@[t] == x;
                    }
                }
            }
            if nbrs.len() > 0 {
                let best = nbrs[0];
                if !self.points[best].deleted {
                    current = best;
                }
            }
            if lc == 0 {
                break ;
            }
            lc = lc - 1;
        }
        if level > self.current_max_level {
            self.entry_point = Some(new_idx);
            self.current_max_level = level;
        }
        proof {
            assert(self.spec_live(point_id)) by {
                assert(self.points@[new_idx as int].id == point_id);
                assert(!self.points@[new_idx as int].deleted);
            }
            assert(self.points@[new_idx as int].level == level);
        }
        Ok(())
    }
}

fn clone_usize_vec(v: &Vec<usize>) -> (r: Vec<usize>)
    ensures
        r@ == v@,
{
    let mut r: Vec<usize> = Vec::new();
    let n = v.len();
    for i in 0..n
        invariant
            n == v@.len(),
            r@ == v@.subrange(0, i as int),
    {
        r.push(v[i]);
        proof {
            assert(r@ =~= v@.subrange(0, i + 1));
        }
    }
    proof {
        assert(v@.subrange(0, n as int) =~= v@);
    }
    r
}

/// Push an element unless it is already present.
fn push_unique(v: &mut Vec<usize>, x: usize)
    ensures
        old(v)@.len() <= final (v)@.len() <= old(v)@.len() + 1,
        final (v)@.contains(x),
        forall|k: int|
            0 <= k < final (v)@.len() ==> (#[trigger] final (v)@[k] == x || old(v)@.contains(
                final (v)@[k],
            )),
{
    let n = v.len();
    let mut present = false;
    for k in 0..n
        invariant
            n == v@.len(),
            present == (exists|u: int| 0 <= u < k && v@[u] == x),
    {
        if v[k] == x {
            present = true;
        }
    }
    if !present {
        let ghost v0 = v@;
        v.push(x);
        proof {
            assert(v@.last() == x);
            assert forall|k: int|
                0 <= k < v@.len() implies (#[trigger] v@[k] == x || v0.contains(v@[k])) by {
                if k < v0.len() {
                    assert(v@[k] == v0[k]);
                }
            }
        }
    } else {
        proof {
            let u = choose|u: int| 0 <= u < v@.len() && v@[u] == x;
            assert(v@.contains(x));
        }
    }
}

impl HNSWIndex {
    /// Build extra level-0 edges between the freshly inserted point and up
    /// to `m` nearby points that share one of its indexable payload values:
    /// first from the exact inverted-index hit (a random sample of up to
    /// 100 shared-value points, scored and ranked), then, if too few, from
    /// an unfiltered descent-and-beam (or a scan of all stored points while
    /// the graph is flat) filtered to payload matches.  A self-loop is
    /// maintained; all edges are deduplicated and bidirectional; only
    /// level-0 adjacency changes, and every point newly named in the new
    /// point's level-0 adjacency is live and shares a field value with its
    /// payload.
    #[verifier::rlimit(100)]
    pub fn build_filter_aware_edges(
        &mut self,
        point_id: u64,
        vector: &Vector,
        payload: &Payload,
        payload_index: &PayloadIndex,
        payloads: &crate::payload::PayloadMap,
        filter_keys: &[String],
    ) -> (r: Result<(), DBError>)
        requires
            old(self).wf(),
            old(self).spec_contains_id(point_id),
            vector@.len() == old(self).dim,
            old(self).current_max_level > 0 ==> old(self).entry_point is Some,
            // the inverted index only files ids whose stored payload
            // carries the filed value
            forall|f: Seq<char>, v: crate::payload::PayloadValue, x: u64|
                #[trigger] payload_index.spec_contains(f, v, x) ==> (
                match payloads.spec_get(x) {
                    Some(pn) => crate::stores::spec_payload_indexes(pn, f, v),
                    None => false,
                }),
        ensures
            r is Ok,
            final (self).wf(),
            final (self).points@.len() == old(self).points@.len(),
            forall|j: int|
                0 <= j < final (self).points@.len() ==> same_point_core(
                    #[trigger] final (self).points@[j],
                    old(self).points@[j],
                ),
            final (self).same_params(*old(self)),
            final (self).entry_point == old(self).entry_point,
            final (self).current_max_level == old(self).current_max_level,
            // only level-0 adjacency changes
            forall|j: int|
                0 <= j < final (self).points@.len() ==> (#[trigger] final (self).points@[j]).neighbors@.len()
                    == old(self).points@[j].neighbors@.len(),
            forall|j: int, l2: int|
                0 <= j < final (self).points@.len() && 1 <= l2 < old(self).points@[
                    j
                ].neighbors@.len() ==> #[trigger] final (self).points@[j].neighbors@[l2] == old(
                    self,
                ).points@[j].neighbors@[l2],
            // the new point keeps a level-0 self-loop, every id newly named
            // in its level-0 adjacency is live, shares a field value with
            // the payload, and links back; growth is bounded
            ({
                let si = old(self).spec_idx_of(point_id);
                &&& final (self).points@[si].neighbors@[0]@.contains(si as usize)
                &&& final (self).points@[si].neighbors@[0]@.len() <= old(self).points@[
                    si
                ].neighbors@[0]@.len() + 2 * old(self).m + 1
                &&& forall|x: usize|
                    #[trigger] final (self).points@[si].neighbors@[0]@.contains(x) && !old(
                        self,
                    ).points@[si].neighbors@[0]@.contains(x) ==> {
                        &&& x < final (self).points@.len()
                        &&& 0 < final (self).points@[x as int].neighbors@.len()
                        &&& final (self).points@[x as int].neighbors@[0]@.contains(si as usize)
                        &&& (x as int != si ==> !old(self).points@[x as int].deleted
                            && spec_shares_field(
                            *payload,
                            *payloads,
                            old(self).points@[x as int].id,
                        ))
                    }
            }),
    {
        let query_vector = self.maybe_normalize(vector);
        let self_idx = match self.find_idx(point_id) {
            Some(i) => i,
            None => {
                proof {
                    assert(false);
                }
                0
            },
        };
        proof {
            assert(old(self).spec_idx_of(point_id) == self_idx as int) by {
                self.lemma_idx_of_at(self_idx as int);
            }
        }
        let mut extra: Vec<usize> = Vec::new();
        let nkeys = filter_keys.len();
        let mut ki: usize = 0;
        while ki < nkeys
            invariant_except_break
                self.wf(),
                *self == *old(self),
                query_vector@.len() == self.dim,
                nkeys == filter_keys@.len(),
                self_idx < self.points@.len(),
                self.points@[self_idx as int].id == point_id,
                extra_ok(*self, *payload, *payloads, self_idx, extra@),
                extra@.len() < self.m || extra@.len() == 0,
                old(self).current_max_level > 0 ==> old(self).entry_point is Some,
                forall|f: Seq<char>, v: crate::payload::PayloadValue, x: u64|
                    #[trigger] payload_index.spec_contains(f, v, x) ==> (
                    match payloads.spec_get(x) {
                        Some(pn) => crate::stores::spec_payload_indexes(pn, f, v),
                        None => false,
                    }),
            ensures
                self.wf(),
                *self == *old(self),
                self_idx < self.points@.len(),
                self.points@[self_idx as int].id == point_id,
                extra_ok(*self, *payload, *payloads, self_idx, extra@),
                extra@.len() <= 2 * self.m,
            decreases nkeys - ki,
        {
            let ghost ehead = extra@;
            proof {
                assert(ehead.len() < self.m || ehead.len() == 0);
            }
            let key: &String = &filter_keys[ki];
            let value_opt = payload.get(key.as_str());
            match value_opt {
                None => {},
                Some(value) => {
                    // Fast path: sample shared-value points from the exact
                    // inverted hit and keep the closest.
                    match payload_index.query_exact(key.as_str(), value) {
                        None => {},
                        Some(ids) => {
                            let mut pool: Vec<usize> = Vec::new();
                            let idn = ids.len();
                            for t in 0..idn
                                invariant
                                    self.wf(),
                                    *self == *old(self),
                                    idn == ids@.len(),
                                    payload_index.spec_ids(key@, *value) == Some(ids@),
                                    crate::payload::spec_is_indexable(*value),
                                    payload.spec_get(key@) == Some(*value),
                                    forall|f: Seq<char>, v: crate::payload::PayloadValue, x: u64|
                                        #[trigger] payload_index.spec_contains(f, v, x) ==> (
                                        match payloads.spec_get(x) {
                                            Some(pn) => crate::stores::spec_payload_indexes(
                                                pn,
                                                f,
                                                v,
                                            ),
                                            None => false,
                                        }),
                                    forall|k: int|
                                        0 <= k < pool@.len() ==> (#[trigger] pool@[k])
                                            < self.points@.len() && !self.points@[
                                            pool@[k] as int
                                        ].deleted && spec_shares_field(
                                            *payload,
                                            *payloads,
                                            self.points@[pool@[k] as int].id,
                                        ),
                            {
                                let cand_id = ids[t];
                                if cand_id != point_id {
                                    match self.find_idx(cand_id) {
                                        Some(i) => {
                                            if !self.points[i].deleted {
                                                proof {
                                                    assert(ids@[t as int] == cand_id);
                                                    assert(ids@.contains(cand_id));
                                                    assert(payload_index.spec_contains(
                                                        key@,
                                                        *value,
                                                        cand_id,
                                                    ));
                                                    assert(spec_shares_field(
                                                        *payload,
                                                        *payloads,
                                                        cand_id,
                                                    ));
                                                }
                                                pool.push(i);
                                            }
                                        },
                                        None => {},
                                    }
                                }
                            }
                            let sample_n = if pool.len() <= 100 {
                                pool.len()
                            } else {
                                100
                            };
                            let mut j: usize = 0;
                            while j < sample_n
                                invariant
                                    self.wf(),
                                    *self == *old(self),
                                    sample_n <= pool@.len(),
                                    j <= sample_n,
                                    forall|k: int|
                                        0 <= k < pool@.len() ==> (#[trigger] pool@[k])
                                            < self.points@.len() && !self.points@[
                                            pool@[k] as int
                                        ].deleted && spec_shares_field(
                                            *payload,
                                            *payloads,
                                            self.points@[pool@[k] as int].id,
                                        ),
                                decreases sample_n - j,
                            {
                                let span = pool.len() - j;
                                let pick = j + (random_below(span as u64) as usize);
                                let a = pool[j];
                                let b = pool[pick];
                                pool[j] = b;
                                pool[pick] = a;
                                j = j + 1;
                            }
                            let mut scored: Vec<Cand> = Vec::new();
                            for t in 0..sample_n
                                invariant
                                    self.wf(),
                                    *self == *old(self),
                                    query_vector@.len() == self.dim,
                                    sample_n <= pool@.len(),
                                    forall|k: int|
                                        0 <= k < pool@.len() ==> (#[trigger] pool@[k])
                                            < self.points@.len() && !self.points@[
                                            pool@[k] as int
                                        ].deleted && spec_shares_field(
                                            *payload,
                                            *payloads,
                                            self.points@[pool@[k] as int].id,
                                        ),
                                    cands_sorted(scored@),
                                    forall|k: int|
                                        0 <= k < scored@.len() ==> ((#[trigger] scored@[k]).idx
                                            < self.points@.len() && !self.points@[
                                            scored@[k].idx as int
                                        ].deleted && spec_shares_field(
                                            *payload,
                                            *payloads,
                                            self.points@[scored@[k].idx as int].id,
                                        )),
                            {
                                let c = self.make_cand(&query_vector, pool[t]);
                                let ghost s0 = scored@;
                                insert_cand(&mut scored, c);
                                proof {
                                    let pp = choose|pp: int|
                                        0 <= pp <= s0.len() && scored@ == s0.insert(pp, c);
                                    s0.insert_ensures(pp, c);
                                    assert forall|k: int|
                                        0 <= k < scored@.len() implies ((
                                    #[trigger] scored@[k]).idx < self.points@.len()
                                        && !self.points@[scored@[k].idx as int].deleted
                                        && spec_shares_field(
                                        *payload,
                                        *payloads,
                                        self.points@[scored@[k].idx as int].id,
                                    )) by {
                                        if k < pp {
                                            assert(scored@[k] == s0[k]);
                                        } else if k > pp {
                                            assert(scored@[k] == s0[k - 1]);
                                        }
                                    }
                                }
                            }
                            let take = if scored.len() <= self.m {
                                scored.len()
                            } else {
                                self.m
                            };
                            let ghost efast = extra@;
                            proof {
                                assert(efast == ehead);
                            }
                            for t in 0..take
                                invariant
                                    self.wf(),
                                    *self == *old(self),
                                    take <= scored@.len(),
                                    take <= self.m,
                                    self_idx < self.points@.len(),
                                    forall|k: int|
                                        0 <= k < scored@.len() ==> ((#[trigger] scored@[k]).idx
                                            < self.points@.len() && !self.points@[
                                            scored@[k].idx as int
                                        ].deleted && spec_shares_field(
                                            *payload,
                                            *payloads,
                                            self.points@[scored@[k].idx as int].id,
                                        )),
                                    extra_ok(*self, *payload, *payloads, self_idx, extra@),
                                    extra@.len() <= efast.len() + t,
                            {
                                let ghost e0 = extra@;
                                push_unique(&mut extra, scored[t].idx);
                                proof {
                                    assert forall|k: int|
                                        0 <= k < extra@.len() implies ((#[trigger] extra@[k])
                                        < self.points@.len() && (extra@[k] != self_idx
                                        ==> !self.points@[extra@[k] as int].deleted
                                        && spec_shares_field(
                                        *payload,
                                        *payloads,
                                        self.points@[extra@[k] as int].id,
                                    ))) by {
                                        if extra@[k] != scored@[t as int].idx {
                                            assert(e0.contains(extra@[k]));
                                            let w = choose|w: int|
                                                0 <= w < e0.len() && e0[w] == extra@[k];
                                        }
                                    }
                                }
                            }
                        },
                    }
                    if extra.len() >= self.m {
                        proof {
                            assert(extra@.len() <= ehead.len() + self.m);
                            assert(extra@.len() <= 2 * self.m);
                        }
                        break ;
                    }
                    // Fallback: unfiltered descent and beam (or a flat
                    // scan), filtered to payload matches on this field.
                    let mut candidates: Vec<Cand> = Vec::new();
                    if self.current_max_level > 0 {
                        let e = match self.entry_point {
                            Some(e) => e,
                            None => {
                                proof {
                                    assert(false);
                                }
                                0
                            },
                        };
                        let mut cur = e;
                        let mut l = self.current_max_level;
                        while l >= 1
                            invariant
                                self.wf(),
                                *self == *old(self),
                                query_vector@.len() == self.dim,
                                cur < self.points@.len(),
                                !self.points@[cur as int].deleted,
                            decreases l,
                        {
                            let nxt = self.greedy_idx(&query_vector, cur, l);
                            if !self.points[nxt].deleted {
                                cur = nxt;
                            }
                            l = l - 1;
                        }
                        candidates = self.search_layer_idx(&query_vector, cur, 0, self.ef);
                    } else {
                        let n = self.points.len();
                        for i in 0..n
                            invariant
                                self.wf(),
                                *self == *old(self),
                                query_vector@.len() == self.dim,
                                n == self.points@.len(),
                                self_idx < n,
                                cands_sorted(candidates@),
                                forall|k: int|
                                    0 <= k < candidates@.len() ==> ((#[trigger] candidates@[k]).idx
                                        < self.points@.len() && !self.points@[
                                        candidates@[k].idx as int
                                    ].deleted),
                        {
                            if i != self_idx && !self.points[i].deleted {
                                let c = self.make_cand(&query_vector, i);
                                let ghost s0 = candidates@;
                                insert_cand(&mut candidates, c);
                                proof {
                                    let pp = choose|pp: int|
                                        0 <= pp <= s0.len() && candidates@ == s0.insert(pp, c);
                                    s0.insert_ensures(pp, c);
                                    assert forall|k: int|
                                        0 <= k < candidates@.len() implies ((
                                    #[trigger] candidates@[k]).idx < self.points@.len()
                                        && !self.points@[candidates@[k].idx as int].deleted) by {
                                        if k < pp {
                                            assert(candidates@[k] == s0[k]);
                                        } else if k > pp {
                                            assert(candidates@[k] == s0[k - 1]);
                                        }
                                    }
                                }
                            }
                        }
                    }
                    let cn = candidates.len();
                    let mut taken: usize = 0;
                    let mut t2: usize = 0;
                    let ghost efall = extra@;
                    proof {
                        assert(efall.len() < self.m);
                    }
                    while t2 < cn && taken < self.m
                        invariant
                            self.wf(),
                            *self == *old(self),
                            cn == candidates@.len(),
                            self_idx < self.points@.len(),
                            forall|k: int|
                                0 <= k < candidates@.len() ==> ((#[trigger] candidates@[k]).idx
                                    < self.points@.len() && !self.points@[
                                    candidates@[k].idx as int
                                ].deleted),
                            extra_ok(*self, *payload, *payloads, self_idx, extra@),
                            payload.spec_get(key@) == Some(*value),
                            taken <= self.m,
                            efall.len() < self.m,
                            extra@.len() <= efall.len() + taken,
                        decreases cn - t2,
                    {
                        let cidx = candidates[t2].idx;
                        let cid = self.points[cidx].id;
                        match payloads.get(cid) {
                            Some(p) => match p.get(key.as_str()) {
                                Some(v2) => {
                                    if crate::payload::value_eq(v2, value) {
                                        let ghost e0 = extra@;
                                        proof {
                                            if cidx != self_idx {
                                                assert(spec_shares_field(
                                                    *payload,
                                                    *payloads,
                                                    cid,
                                                )) by {
                                                    assert(payloads.spec_get(cid) == Some(*p));
                                                    assert(p.spec_get(key@) == Some(*v2));
                                                    assert(crate::payload::spec_value_eq(
                                                        *v2,
                                                        *value,
                                                    ));
                                                }
                                                assert(!self.points@[cidx as int].deleted);
                                            }
                                        }
                                        push_unique(&mut extra, cidx);
                                        proof {
                                            assert forall|k: int|
                                                0 <= k < extra@.len() implies ((
                                            #[trigger] extra@[k]) < self.points@.len() && (
                                            extra@[k] != self_idx ==> !self.points@[
                                                extra@[k] as int
                                            ].deleted && spec_shares_field(
                                                *payload,
                                                *payloads,
                                                self.points@[extra@[k] as int].id,
                                            ))) by {
                                                if extra@[k] != cidx {
                                                    assert(e0.contains(extra@[k]));
                                                    let w = choose|w: int|
                                                        0 <= w < e0.len() && e0[w] == extra@[k];
                                                }
                                            }
                                        }
                                        taken = taken + 1;
                                    }
                                },
                                None => {},
                            },
                            None => {},
                        }
                        t2 = t2 + 1;
                    }
                    if extra.len() >= self.m {
                        proof {
                            assert(extra@.len() <= 2 * self.m);
                        }
                        break ;
                    }
                },
            }
            ki = ki + 1;
        }
        let ghost e0 = extra@;
        push_unique(&mut extra, self_idx);
        proof {
            assert forall|k: int|
                0 <= k < extra@.len() implies ((#[trigger] extra@[k]) < self.points@.len() && (
            extra@[k] != self_idx ==> !self.points@[extra@[k] as int].deleted
                && spec_shares_field(
                *payload,
                *payloads,
                self.points@[extra@[k] as int].id,
            ))) by {
                if extra@[k] != self_idx {
                    assert(e0.contains(extra@[k]));
                    let w = choose|w: int| 0 <= w < e0.len() && e0[w] == extra@[k];
                }
            }
            assert(extra@.len() <= e0.len() + 1);
            assert(extra@.len() <= 2 * self.m + 1);
        }
        let en = extra.len();
        let mut t3: usize = 0;
        let ghost mid = *self;
        while t3 < en
            invariant
                self.wf(),
                t3 <= en,
                en == extra@.len(),
                en <= 2 * mid.m + 1,
                self_idx < self.points@.len(),
                extra_ok(mid, *payload, *payloads, self_idx, extra@),
                mid == *old(self),
                self.points@.len() == mid.points@.len(),
                forall|j: int|
                    0 <= j < self.points@.len() ==> same_point_core(
                        #[trigger] self.points@[j],
                        mid.points@[j],
                    ),
                forall|j: int|
                    0 <= j < self.points@.len() ==> (#[trigger] self.points@[j]).neighbors@.len()
                        == mid.points@[j].neighbors@.len(),
                forall|j: int, l2: int|
                    0 <= j < self.points@.len() && 1 <= l2 < mid.points@[j].neighbors@.len()
                        ==> #[trigger] self.points@[j].neighbors@[l2] == mid.points@[
                        j
                    ].neighbors@[l2],
                self.same_params(mid),
                self.entry_point == mid.entry_point,
                self.current_max_level == mid.current_max_level,
                self.points@[self_idx as int].neighbors@[0]@.len() <= mid.points@[
                    self_idx as int
                ].neighbors@[0]@.len() + t3,
                forall|x: usize|
                    #[trigger] self.points@[self_idx as int].neighbors@[0]@.contains(x)
                        ==> mid.points@[self_idx as int].neighbors@[0]@.contains(x)
                        || extra@.contains(x),
                forall|t: int|
                    0 <= t < t3 ==> self.points@[self_idx as int].neighbors@[0]@.contains(
                        #[trigger] extra@[t],
                    ) && 0 < self.points@[extra@[t] as int].neighbors@.len() && self.points@[
                        extra@[t] as int
                    ].neighbors@[0]@.contains(self_idx),
            decreases en - t3,
        {
            let n = extra[t3];
            let ghost pre1 = *self;
            self.add_neighbor_if_absent(self_idx, 0, n);
            let ghost pre2 = *self;
            self.add_neighbor_if_absent(n, 0, self_idx);
            proof {
                let b1 = pre1.points@[self_idx as int].neighbors@[0]@;
                let a1 = pre2.points@[self_idx as int].neighbors@[0]@;
                let a2 = self.points@[self_idx as int].neighbors@[0]@;
                assert((a1 == b1 && b1.contains(n)) || (a1 == b1.push(n) && !b1.contains(n)));
                // the second insertion never changes the new point's list:
                // either it touches another point, or the self-loop is
                // already present
                assert(a2 == a1) by {
                    if n == self_idx {
                        assert(pre2.points@[self_idx as int].neighbors@[0]@.contains(self_idx));
                    } else {
                        assert(self.points@[self_idx as int] == pre2.points@[self_idx as int]);
                    }
                }
                assert forall|x: usize| #[trigger] a2.contains(x) implies mid.points@[
                    self_idx as int
                ].neighbors@[0]@.contains(x) || extra@.contains(x) by {
                    if a1 != b1 {
                        lemma_push_members(b1, n, x);
                    }
                    if !b1.contains(x) {
                        assert(x == n);
                        assert(extra@[t3 as int] == n);
                    }
                }
                assert forall|t: int|
                    0 <= t < t3 + 1 implies a2.contains(#[trigger] extra@[t]) && 0
                    < self.points@[extra@[t] as int].neighbors@.len() && self.points@[
                    extra@[t] as int
                ].neighbors@[0]@.contains(self_idx) by {
                    let e = extra@[t];
                    if t < t3 {
                        assert(b1.contains(e));
                        if a1 != b1 {
                            lemma_push_keeps(b1, n, e);
                        }
                        if e == self_idx {
                            assert(b1.contains(self_idx));
                            if a1 != b1 {
                                lemma_push_keeps(b1, n, self_idx);
                            }
                        } else if e == n {
                            assert(self.points@[n as int].neighbors@[0]@.contains(self_idx));
                        } else {
                            assert(self.points@[e as int] == pre1.points@[e as int]);
                        }
                    } else {
                        assert(extra@[t] == n);
                        assert(a1.contains(n));
                        assert(self.points@[n as int].neighbors@[0]@.contains(self_idx));
                    }
                }
                assert(a2.len() <= b1.len() + 1);
            }
            t3 = t3 + 1;
        }
        proof {
            assert(self.points@[self_idx as int].neighbors@[0]@.contains(self_idx)) by {
                assert(extra@.contains(self_idx));
                let t = choose|t: int| 0 <= t < extra@.len() && extra@[t] == self_idx;
                assert(self.points@[self_idx as int].neighbors@[0]@.contains(extra@[t]));
            }
            assert(self.points@[self_idx as int].neighbors@[0]@.len() <= old(self).points@[
                self_idx as int
            ].neighbors@[0]@.len() + 2 * old(self).m + 1) by {
                assert(self.points@[self_idx as int].neighbors@[0]@.len() <= mid.points@[
                    self_idx as int
                ].neighbors@[0]@.len() + en);
                assert(en <= 2 * mid.m + 1);
                assert(mid.m == old(self).m);
            }
            assert forall|x: usize|
                #[trigger] self.points@[self_idx as int].neighbors@[0]@.contains(x) && !old(
                    self,
                ).points@[self_idx as int].neighbors@[0]@.contains(x) implies {
                &&& x < self.points@.len()
                &&& 0 < self.points@[x as int].neighbors@.len()
                &&& self.points@[x as int].neighbors@[0]@.contains(self_idx)
                &&& (x as int != self_idx as int ==> !old(self).points@[x as int].deleted
                    && spec_shares_field(*payload, *payloads, old(self).points@[x as int].id))
            } by {
                assert(extra@.contains(x));
                let t = choose|t: int| 0 <= t < extra@.len() && extra@[t] == x;
            }
        }
        Ok(())
    }
}

/// Membership survives appending an element.
proof fn lemma_push_keeps(before: Seq<usize>, y: usize, x: usize)
    requires
        before.contains(x),
    ensures
        before.push(y).contains(x),
{
    let u = choose|u: int| 0 <= u < before.len() && before[u] == x;
    assert(before.push(y)[u] == x);
}

/// A member of an extended list is an old member or the new element.
proof fn lemma_push_members(before: Seq<usize>, y: usize, x: usize)
    requires
        before.push(y).contains(x),
    ensures
        before.contains(x) || x == y,
{
    let u = choose|u: int| 0 <= u < before.push(y).len() && before.push(y)[u] == x;
    if u < before.len() {
        assert(before[u] == x);
    }
}

/// The stored payload of `nid` shares a field value with `p`: some field
/// of `p` is carried by `nid`'s payload with a structurally equal value.
pub open spec fn spec_shares_field(
    p: crate::payload::Payload,
    payloads: crate::payload::PayloadMap,
    nid: u64,
) -> bool {
    exists|f: Seq<char>|
        {
            &&& #[trigger] p.spec_get(f) is Some
            &&& match (p.spec_get(f), payloads.spec_get(nid)) {
                (Some(pv), Some(pn)) => match pn.spec_get(f) {
                    Some(v2) => crate::payload::spec_value_eq(v2, pv),
                    None => false,
                },
                _ => false,
            }
        }
}

/// Every element of the extra-neighbour list is a stored position; those
/// other than the new point itself are live and share a field value with
/// the new point's payload.
pub open spec fn extra_ok(
    hnsw: HNSWIndex,
    payload: crate::payload::Payload,
    payloads: crate::payload::PayloadMap,
    self_idx: usize,
    extra: Seq<usize>,
) -> bool {
    forall|k: int|
        0 <= k < extra.len() ==> ((#[trigger] extra[k]) < hnsw.points@.len() && (extra[k]
            != self_idx ==> !hnsw.points@[extra[k] as int].deleted && spec_shares_field(
            payload,
            payloads,
            hnsw.points@[extra[k] as int].id,
        )))
}


impl HNSWIndex {
    /// When every point keeps its identity, vector, level and tombstone
    /// flag, the liveness, deletion and membership status of every id, and
    /// the stored vector of every stored id, are unchanged.
    pub proof fn lemma_core_preserved_status(pre: HNSWIndex, post: HNSWIndex)
        requires
            pre.wf(),
            post.points@.len() == pre.points@.len(),
            forall|j: int|
                0 <= j < post.points@.len() ==> same_point_core(
                    #[trigger] post.points@[j],
                    pre.points@[j],
                ),
        ensures
            forall|x: u64| #[trigger] post.spec_live(x) == pre.spec_live(x),
            forall|x: u64| #[trigger] post.spec_deleted(x) == pre.spec_deleted(x),
            forall|x: u64| #[trigger] post.spec_contains_id(x) == pre.spec_contains_id(x),
            forall|x: u64|
                #[trigger] pre.spec_contains_id(x) ==> post.spec_vector_of(x)
                    == pre.spec_vector_of(x),
    {
        assert forall|x: u64| #[trigger] post.spec_live(x) == pre.spec_live(x) by {
            if pre.spec_live(x) {
                let i = choose|i: int|
                    0 <= i < pre.points@.len() && (#[trigger] pre.points@[i]).id == x
                        && !pre.points@[i].deleted;
                assert(post.points@[i].id == x && !post.points@[i].deleted);
            }
            if post.spec_live(x) {
                let i = choose|i: int|
                    0 <= i < post.points@.len() && (#[trigger] post.points@[i]).id == x
                        && !post.points@[i].deleted;
                assert(pre.points@[i].id == x && !pre.points@[i].deleted);
            }
        }
        assert forall|x: u64| #[trigger] post.spec_deleted(x) == pre.spec_deleted(x) by {
            if pre.spec_deleted(x) {
                let i = choose|i: int|
                    0 <= i < pre.points@.len() && (#[trigger] pre.points@[i]).id == x
                        && pre.points@[i].deleted;
                assert(post.points@[i].id == x && post.points@[i].deleted);
            }
            if post.spec_deleted(x) {
                let i = choose|i: int|
                    0 <= i < post.points@.len() && (#[trigger] post.points@[i]).id == x
                        && post.points@[i].deleted;
                assert(pre.points@[i].id == x && pre.points@[i].deleted);
            }
        }
        assert forall|x: u64| #[trigger] post.spec_contains_id(x) == pre.spec_contains_id(x) by {
            if pre.spec_contains_id(x) {
                let i = choose|i: int|
                    0 <= i < pre.points@.len() && (#[trigger] pre.points@[i]).id == x;
                assert(post.points@[i].id == x);
            }
            if post.spec_contains_id(x) {
                let i = choose|i: int|
                    0 <= i < post.points@.len() && (#[trigger] post.points@[i]).id == x;
                assert(pre.points@[i].id == x);
            }
        }
        assert forall|x: u64| #[trigger] pre.spec_contains_id(x) implies post.spec_vector_of(x)
            == pre.spec_vector_of(x) by {
            let i = pre.spec_idx_of(x);
            assert(0 <= i < pre.points@.len() && pre.points@[i].id == x) by {
                let w = choose|w: int|
                    0 <= w < pre.points@.len() && (#[trigger] pre.points@[w]).id == x;
            }
            let i2 = post.spec_idx_of(x);
            assert(0 <= i2 < post.points@.len() && post.points@[i2].id == x) by {
                assert(post.points@[i].id == x);
            }
            if i != i2 {
                if i < i2 {
                    assert(pre.points@[i].id != pre.points@[i2].id);
                    assert(pre.points@[i2].id == post.points@[i2].id);
                } else {
                    assert(pre.points@[i2].id != pre.points@[i].id);
                    assert(pre.points@[i2].id == post.points@[i2].id);
                }
            }
        }
    }

    /// After appending one fresh live point, every other id keeps its
    /// status, and the fresh id is live.
    pub proof fn lemma_appended_point_status(pre: HNSWIndex, post: HNSWIndex, new_id: u64)
        requires
            pre.wf(),
            post.wf(),
            post.points@.len() == pre.points@.len() + 1,
            forall|j: int|
                0 <= j < pre.points@.len() ==> same_point_core(
                    #[trigger] post.points@[j],
                    pre.points@[j],
                ),
            post.points@[pre.points@.len() as int].id == new_id,
            !post.points@[pre.points@.len() as int].deleted,
        ensures
            forall|x: u64|
                x != new_id ==> #[trigger] post.spec_live(x) == pre.spec_live(x),
            forall|x: u64|
                x != new_id ==> #[trigger] post.spec_deleted(x) == pre.spec_deleted(x),
            forall|x: u64|
                x != new_id ==> #[trigger] post.spec_contains_id(x) == pre.spec_contains_id(x),
            forall|x: u64|
                x != new_id && #[trigger] pre.spec_contains_id(x) ==> post.spec_vector_of(x)
                    == pre.spec_vector_of(x),
            post.spec_live(new_id),
            !post.spec_deleted(new_id),
            post.spec_vector_of(new_id) == post.points@[pre.points@.len() as int].vector@,
    {
        let nlen = pre.points@.len() as int;
        assert forall|x: u64| x != new_id implies #[trigger] post.spec_live(x) == pre.spec_live(
            x,
        ) by {
            if pre.spec_live(x) {
                let i = choose|i: int|
                    0 <= i < pre.points@.len() && (#[trigger] pre.points@[i]).id == x
                        && !pre.points@[i].deleted;
                assert(post.points@[i].id == x && !post.points@[i].deleted);
            }
            if post.spec_live(x) {
                let i = choose|i: int|
                    0 <= i < post.points@.len() && (#[trigger] post.points@[i]).id == x
                        && !post.points@[i].deleted;
                assert(i != nlen);
                assert(pre.points@[i].id == x && !pre.points@[i].deleted);
            }
        }
        assert forall|x: u64| x != new_id implies #[trigger] post.spec_deleted(x)
            == pre.spec_deleted(x) by {
            if pre.spec_deleted(x) {
                let i = choose|i: int|
                    0 <= i < pre.points@.len() && (#[trigger] pre.points@[i]).id == x
                        && pre.points@[i].deleted;
                assert(post.points@[i].id == x && post.points@[i].deleted);
            }
            if post.spec_deleted(x) {
                let i = choose|i: int|
                    0 <= i < post.points@.len() && (#[trigger] post.points@[i]).id == x
                        && post.points@[i].deleted;
                assert(i != nlen);
                assert(pre.points@[i].id == x && pre.points@[i].deleted);
            }
        }
        assert forall|x: u64| x != new_id implies #[trigger] post.spec_contains_id(x)
            == pre.spec_contains_id(x) by {
            if pre.spec_contains_id(x) {
                let i = choose|i: int|
                    0 <= i < pre.points@.len() && (#[trigger] pre.points@[i]).id == x;
                assert(post.points@[i].id == x);
            }
            if post.spec_contains_id(x) {
                let i = choose|i: int|
                    0 <= i < post.points@.len() && (#[trigger] post.points@[i]).id == x;
                assert(i != nlen);
                assert(pre.points@[i].id == x);
            }
        }
        assert forall|x: u64| x != new_id && #[trigger] pre.spec_contains_id(
            x,
        ) implies post.spec_vector_of(x) == pre.spec_vector_of(x) by {
            let i = pre.spec_idx_of(x);
            assert(0 <= i < pre.points@.len() && pre.points@[i].id == x) by {
                let w = choose|w: int|
                    0 <= w < pre.points@.len() && (#[trigger] pre.points@[w]).id == x;
            }
            let i2 = post.spec_idx_of(x);
            assert(0 <= i2 < post.points@.len() && post.points@[i2].id == x) by {
                assert(post.points@[i].id == x);
            }
            assert(i2 != nlen);
            if i != i2 {
                if i < i2 {
                    assert(post.points@[i].id != post.points@[i2].id);
                } else {
                    assert(post.points@[i2].id != post.points@[i].id);
                }
            }
        }
        assert(post.spec_live(new_id)) by {
            assert(post.points@[nlen].id == new_id && !post.points@[nlen].deleted);
        }
        assert(!post.spec_deleted(new_id)) by {
            if post.spec_deleted(new_id) {
                let i = choose|i: int|
                    0 <= i < post.points@.len() && (#[trigger] post.points@[i]).id == new_id
                        && post.points@[i].deleted;
                if i < nlen {
                    assert(post.points@[i].id != post.points@[nlen].id);
                }
            }
        }
        assert(post.spec_vector_of(new_id) == post.points@[nlen].vector@) by {
            let i2 = post.spec_idx_of(new_id);
            assert(0 <= i2 < post.points@.len() && post.points@[i2].id == new_id) by {
                assert(post.points@[nlen].id == new_id);
            }
            if i2 != nlen {
                if i2 < nlen {
                    assert(post.points@[i2].id != post.points@[nlen].id);
                }
            }
        }
    }
}

} // verus!
