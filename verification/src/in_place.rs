//! In-place filtered search: descends and beams through the graph while
//! skipping tombstoned points and points whose payload fails the filter,
//! and resolves a live seed through the inverted index when the global
//! entry point fails the predicate.  When a filter is given and no seed at
//! all can be resolved, the query answers empty.
//!
//! A filter that fails to evaluate on some point (missing or mistyped
//! field under `Compare`) does not abort the query: that point is simply
//! treated as non-matching.

use vstd::prelude::*;
use crate::errors::DBError;
use crate::filters::{evaluate_filter, spec_eval_filter, Filter};
use crate::hnsw::{
    cands_sorted, ids_distinct, insert_cand, results_sorted, unvisited_count, Cand, HNSWIndex,
    ScoredPoint,
};
use crate::payload::PayloadMap;
use crate::stores::PayloadIndex;
use crate::types::Vector;

verus! {

broadcast use vstd::std_specs::vec::group_vec_axioms;

/// The point with this id is acceptable to the filtered traversal: not in
/// the tombstone list, and its payload satisfies the filter (a point with
/// no payload, or one on which the filter fails to evaluate, does not
/// satisfy it).
pub open spec fn spec_passes(f: Filter, payloads: PayloadMap, id: u64) -> bool {
    match payloads.spec_get(id) {
        Some(p) => spec_eval_filter(f, p) == Some(true),
        None => false,
    }
}

fn contains_u64(v: &Vec<u64>, x: u64) -> (r: bool)
    ensures
        r == v@.contains(x),
{
    let n = v.len();
    for k in 0..n
        invariant
            n == v@.len(),
            forall|j: int| 0 <= j < k ==> v@[j] != x,
    {
        if v[k] == x {
            return true;
        }
    }
    false
}

/// Evaluate the (optional) filter on the payload of `id`, treating
/// evaluation errors and missing payloads as non-matching.
pub(crate) fn passes(filter: Option<&Filter>, payloads: &PayloadMap, id: u64) -> (r: bool)
    ensures
        match filter {
            None => r == true,
            Some(f) => r == spec_passes(*f, *payloads, id),
        },
{
    match filter {
        None => true,
        Some(f) => match payloads.get(id) {
            Some(p) => match evaluate_filter(f, p) {
                Ok(b) => b,
                Err(_) => false,
            },
            None => false,
        },
    }
}

/// Resolve a live, non-tombstoned seed that plausibly satisfies the
/// filter, by walking the filter tree and consulting the inverted index
/// on exact matches.
fn find_entry_point_matching_filter(
    filter: &Filter,
    payload_index: &PayloadIndex,
    deleted: &Vec<u64>,
    hnsw: &HNSWIndex,
) -> (r: Option<u64>)
    requires
        hnsw.wf(),
    ensures
        match r {
            Some(id) => hnsw.spec_live(id) && !deleted@.contains(id),
            None => true,
        },
        match filter {
            Filter::Compare { .. } => r is None,
            _ => true,
        },
        match filter {
            Filter::Match { key, value } => match r {
                Some(id) => payload_index.spec_contains(key@, *value, id),
                None => true,
            },
            _ => true,
        },
    decreases *filter,
{
    match filter {
        Filter::Match { key, value } => {
            match payload_index.query_exact(key.as_str(), value) {
                Some(ids) => {
                    let n = ids.len();
                    for t in 0..n
                        invariant
                            hnsw.wf(),
                            n == ids@.len(),
                            *filter == (Filter::Match { key: *key, value: *value }),
                            payload_index.spec_ids(key@, *value) == Some(ids@),
                    {
                        let id = ids[t];
                        if !contains_u64(deleted, id) {
                            let live = match hnsw.get_vector(&id) {
                                Some(_) => true,
                                None => false,
                            };
                            if live {
                                proof {
                                    assert(ids@[t as int] == id);
                                    assert(ids@.contains(id));
                                }
                                return Some(id);
                            }
                        }
                    }
                    None
                },
                None => None,
            }
        },
        Filter::And(conds) => {
            let n = conds.len();
            for t in 0..n
                invariant
                    hnsw.wf(),
                    n == conds@.len(),
                    filter == Filter::And(*conds),
                decreases n - t,
            {
                proof {
                    assert(decreases_to!(*filter => filter->And_0));
                    vstd::std_specs::vec::axiom_vec_decreases_to_view::<Filter>(*conds);
                    vstd::seq::axiom_seq_index_decreases::<Filter>(conds@, t as int);
                }
                match find_entry_point_matching_filter(&conds[t], payload_index, deleted, hnsw) {
                    Some(id) => {
                        return Some(id);
                    },
                    None => {},
                }
            }
            None
        },
        Filter::Or(conds) => {
            let n = conds.len();
            for t in 0..n
                invariant
                    hnsw.wf(),
                    n == conds@.len(),
                    filter == Filter::Or(*conds),
                decreases n - t,
            {
                proof {
                    assert(decreases_to!(*filter => filter->Or_0));
                    vstd::std_specs::vec::axiom_vec_decreases_to_view::<Filter>(*conds);
                    vstd::seq::axiom_seq_index_decreases::<Filter>(conds@, t as int);
                }
                match find_entry_point_matching_filter(&conds[t], payload_index, deleted, hnsw) {
                    Some(id) => {
                        return Some(id);
                    },
                    None => {},
                }
            }
            None
        },
        Filter::Not(inner) => find_entry_point_matching_filter(inner, payload_index, deleted, hnsw),
        Filter::Compare { .. } => None,
    }
}

/// The point at this position may be stepped to by the filtered descent:
/// live, not in the tombstone list, and filter-passing.
pub(crate) open spec fn greedy_accepted(
    hnsw: HNSWIndex,
    payloads: PayloadMap,
    deleted: Seq<u64>,
    filter: Option<&Filter>,
    idx: usize,
) -> bool {
    &&& idx < hnsw.points@.len()
    &&& !hnsw.points@[idx as int].deleted
    &&& !deleted.contains(hnsw.points@[idx as int].id)
    &&& (match filter {
        Some(f) => spec_passes(*f, payloads, hnsw.points@[idx as int].id),
        None => true,
    })
}

/// Greedy descent at one level that steps only to live, filter-passing
/// neighbors with a strictly better sort key.  Each pass scans the
/// neighbor list of the point the pass started from; every accepted step
/// strictly lowers the sort key, which bounds the walk.
fn greedy_search_layer_with_filter(
    query: &Vector,
    entry: usize,
    level: usize,
    hnsw: &HNSWIndex,
    payloads: &PayloadMap,
    filter: Option<&Filter>,
    deleted: &Vec<u64>,
) -> (r: usize)
    requires
        hnsw.wf(),
        query@.len() == hnsw.dim,
        entry < hnsw.points@.len(),
    ensures
        r < hnsw.points@.len(),
        r == entry || (!hnsw.points@[r as int].deleted && !deleted@.contains(
            hnsw.points@[r as int].id,
        ) && (match filter {
            Some(f) => spec_passes(*f, *payloads, hnsw.points@[r as int].id),
            None => true,
        })),
{
    let mut current = entry;
    let mut cur_key = {
        let c = hnsw.make_cand(query, current);
        c.key
    };
    loop
        invariant_except_break
            hnsw.wf(),
            query@.len() == hnsw.dim,
            current < hnsw.points@.len(),
            current == entry || greedy_accepted(*hnsw, *payloads, deleted@, filter, current),
        ensures
            current < hnsw.points@.len(),
            current == entry || greedy_accepted(*hnsw, *payloads, deleted@, filter, current),
        decreases cur_key,
    {
        let start_key = cur_key;
        let scan = current;
        let mut changed = false;
        if level < hnsw.points[scan].neighbors.len() {
            let nlen = hnsw.points[scan].neighbors[level].len();
            let mut t: usize = 0;
            while t < nlen
                invariant
                    hnsw.wf(),
                    query@.len() == hnsw.dim,
                    scan < hnsw.points@.len(),
                    (level as int) < hnsw.points@[scan as int].neighbors@.len(),
                    nlen == hnsw.points@[scan as int].neighbors@[level as int]@.len(),
                    current < hnsw.points@.len(),
                    current == entry || greedy_accepted(*hnsw, *payloads, deleted@, filter, current),
                    changed ==> greedy_accepted(*hnsw, *payloads, deleted@, filter, current),
                    changed ==> cur_key < start_key,
                    !changed ==> cur_key == start_key,
                    t <= nlen,
                decreases nlen - t,
            {
                let neighbor = hnsw.points[scan].neighbors[level][t];
                let skip = hnsw.points[neighbor].deleted || contains_u64(
                    deleted,
                    hnsw.points[neighbor].id,
                ) || !passes(filter, payloads, hnsw.points[neighbor].id);
                if !skip {
                    let nk = {
                        let c = hnsw.make_cand(query, neighbor);
                        c.key
                    };
                    if nk < cur_key {
                        current = neighbor;
                        cur_key = nk;
                        changed = true;
                    }
                }
                t = t + 1;
            }
        }
        if !changed {
            break ;
        }
    }
    current
}

/// The candidate names a point that the filtered traversal may return:
/// live, not in the tombstone list, and filter-passing.
pub(crate) open spec fn cand_accepted(
    hnsw: HNSWIndex,
    payloads: PayloadMap,
    deleted: Seq<u64>,
    filter: Option<&Filter>,
    c: Cand,
) -> bool {
    &&& c.idx < hnsw.points@.len()
    &&& !hnsw.points@[c.idx as int].deleted
    &&& !deleted.contains(hnsw.points@[c.idx as int].id)
    &&& (match filter {
        Some(f) => spec_passes(*f, payloads, hnsw.points@[c.idx as int].id),
        None => true,
    })
}

/// Main filtered search entry point: resolves a seed (the global entry
/// when it satisfies the filter, else a live indexed id found through the
/// filter tree; with no seed the answer is empty), descends with the
/// filter, beams at level 0 with the filter, and returns the best
/// `top_k` live, filter-satisfying points sorted by ascending sort key.
#[verifier::rlimit(100)]
pub fn in_place_filtered_search(
    query: &Vector,
    top_k: usize,
    hnsw: &HNSWIndex,
    payloads: &PayloadMap,
    payload_index: &PayloadIndex,
    filter: Option<&Filter>,
    deleted: &Vec<u64>,
) -> (r: Result<Vec<ScoredPoint>, DBError>)
    requires
        hnsw.wf(),
    ensures
        match r {
            Ok(res) => {
                &&& results_sorted(res@)
                &&& res@.len() <= top_k
                &&& ids_distinct(res@)
                &&& forall|k: int|
                    0 <= k < res@.len() ==> hnsw.spec_live((#[trigger] res@[k]).id) && !deleted@.contains(
                        res@[k].id,
                    ) && (match filter {
                        Some(f) => spec_passes(*f, *payloads, res@[k].id),
                        None => true,
                    })
                &&& hnsw.spec_results_valid(query@, res@)
                &&& (hnsw.entry_point is None && filter is None ==> res@.len() == 0)
                &&& (match hnsw.entry_point {
                    Some(e) => (top_k >= 1 && !deleted@.contains(hnsw.points@[e as int].id) && (
                    match filter {
                        Some(f) => spec_passes(*f, *payloads, hnsw.points@[e as int].id),
                        None => true,
                    })) ==> res@.len() >= 1,
                    None => true,
                })
            },
            Err(e) => query@.len() != hnsw.dim && (match e {
                DBError::VectorLengthMismatch { expected, actual } => expected == hnsw.dim
                    && actual == query@.len(),
                _ => false,
            }),
        },
{
    if query.len() != hnsw.dim {
        return Err(DBError::VectorLengthMismatch { expected: hnsw.dim, actual: query.len() });
    }
    // Seed selection.
    let seed_id: u64 = match hnsw.get_entry_point() {
        Some(id) => {
            match filter {
                Some(f) => {
                    if passes(filter, payloads, id) {
                        id
                    } else {
                        match find_entry_point_matching_filter(f, payload_index, deleted, hnsw) {
                            Some(id2) => id2,
                            None => {
                                // No live point is known to satisfy the
                                // filter: the query answers empty.
                                return Ok(Vec::new());
                            },
                        }
                    }
                },
                None => id,
            }
        },
        None => {
            match filter {
                Some(f) => {
                    match find_entry_point_matching_filter(f, payload_index, deleted, hnsw) {
                        Some(id2) => id2,
                        None => {
                            return Ok(Vec::new());
                        },
                    }
                },
                None => {
                    return Ok(Vec::new());
                },
            }
        },
    };
    let mut current: usize = match hnsw.find_idx(seed_id) {
        Some(i) => i,
        None => {
            proof {
                assert(false);
            }
            0
        },
    };
    // Whenever the seed itself is acceptable, the descent can only move to
    // acceptable points, so the beam below starts from an accepted point.
    let ghost seed_ok = greedy_accepted(*hnsw, *payloads, deleted@, filter, current);
    proof {
        match hnsw.entry_point {
            Some(e) => {
                if seed_id == hnsw.points@[e as int].id {
                    assert(current == e || hnsw.points@[current as int].id != hnsw.points@[
                        e as int
                    ].id) by {
                        if current != e {
                            if current < e {
                                assert(hnsw.points@[current as int].id != hnsw.points@[
                                    e as int
                                ].id);
                            } else {
                                assert(hnsw.points@[e as int].id != hnsw.points@[
                                    current as int
                                ].id);
                            }
                        }
                    }
                }
            },
            None => {},
        }
    }
    let mut l = hnsw.current_max_level;
    while l >= 1
        invariant
            hnsw.wf(),
            query@.len() == hnsw.dim,
            current < hnsw.points@.len(),
            seed_ok ==> greedy_accepted(*hnsw, *payloads, deleted@, filter, current),
        decreases l,
    {
        let nxt = greedy_search_layer_with_filter(
            query,
            current,
            l,
            hnsw,
            payloads,
            filter,
            deleted,
        );
        proof {
            if nxt != current {
                assert(greedy_accepted(*hnsw, *payloads, deleted@, filter, nxt));
            }
        }
        current = nxt;
        l = l - 1;
    }
    // Beam at level 0 under the filter-and-liveness constraint.
    let n = hnsw.points.len();
    let mut visited: Vec<bool> = Vec::new();
    let mut q: usize = 0;
    while q < n
        invariant
            visited@.len() == q,
            q <= n,
        decreases n - q,
    {
        visited.push(false);
        q = q + 1;
    }
    let mut candidates: Vec<Cand> = Vec::new();
    let mut results: Vec<Cand> = Vec::new();
    let first_ok = !hnsw.points[current].deleted && !contains_u64(
        deleted,
        hnsw.points[current].id,
    ) && passes(filter, payloads, hnsw.points[current].id);
    if first_ok {
        let initial = hnsw.make_cand(query, current);
        candidates.push(initial);
        results.push(initial);
    }
    visited[current] = true;
    loop
        invariant_except_break
            hnsw.wf(),
            query@.len() == hnsw.dim,
            n == hnsw.points@.len(),
            visited@.len() == n,
            cands_sorted(candidates@),
            cands_sorted(results@),
            hnsw.cands_good(query@, candidates@),
            hnsw.cands_good(query@, results@),
            results@.len() <= (if hnsw.ef >= 1 {
                hnsw.ef as int
            } else {
                1
            }),
            forall|k: int| 0 <= k < results@.len() ==> cand_accepted(*hnsw, *payloads, deleted@, filter, #[trigger] results@[k]),
            forall|k: int| 0 <= k < candidates@.len() ==> visited@[(
                #[trigger] candidates@[k]).idx as int],
            forall|k: int| 0 <= k < results@.len() ==> visited@[(
                #[trigger] results@[k]).idx as int],
            forall|k1: int, k2: int|
                0 <= k1 < k2 < results@.len() ==> (#[trigger] results@[k1]).idx != (
                #[trigger] results@[k2]).idx,
            first_ok ==> results@.len() >= 1,
        ensures
            cands_sorted(results@),
            hnsw.cands_good(query@, results@),
            results@.len() <= (if hnsw.ef >= 1 {
                hnsw.ef as int
            } else {
                1
            }),
            forall|k: int| 0 <= k < results@.len() ==> cand_accepted(*hnsw, *payloads, deleted@, filter, #[trigger] results@[k]),
            forall|k1: int, k2: int|
                0 <= k1 < k2 < results@.len() ==> (#[trigger] results@[k1]).idx != (
                #[trigger] results@[k2]).idx,
            first_ok ==> results@.len() >= 1,
        decreases 2 * unvisited_count(visited@) + candidates@.len(),
    {
        if candidates.len() == 0 {
            break ;
        }
        let current_c = candidates[0];
        if results.len() > 0 {
            let worst = results[results.len() - 1].key;
            if current_c.key > worst {
                break ;
            }
        }
        let ghost cpre = candidates@;
        candidates.remove(0);
        proof {
            assert(candidates@ =~= cpre.skip(1));
        }
        let ghost measure_after_pop = 2 * unvisited_count(visited@) + candidates@.len();
        if 0 < hnsw.points[current_c.idx].neighbors.len() {
            let nlen = hnsw.points[current_c.idx].neighbors[0].len();
            let mut t: usize = 0;
            while t < nlen
                invariant
                    hnsw.wf(),
                    query@.len() == hnsw.dim,
                    n == hnsw.points@.len(),
                    visited@.len() == n,
                    current_c.idx < n,
                    0 < hnsw.points@[current_c.idx as int].neighbors@.len(),
                    nlen == hnsw.points@[current_c.idx as int].neighbors@[0]@.len(),
                    t <= nlen,
                    cands_sorted(candidates@),
                    cands_sorted(results@),
                    hnsw.cands_good(query@, candidates@),
                    hnsw.cands_good(query@, results@),
                    results@.len() <= (if hnsw.ef >= 1 {
                        hnsw.ef as int
                    } else {
                        1
                    }),
                    forall|k: int| 0 <= k < results@.len() ==> cand_accepted(*hnsw, *payloads, deleted@, filter, #[trigger] results@[k]),
                    forall|k: int| 0 <= k < candidates@.len() ==> visited@[(
                        #[trigger] candidates@[k]).idx as int],
                    forall|k: int| 0 <= k < results@.len() ==> visited@[(
                        #[trigger] results@[k]).idx as int],
                    forall|k1: int, k2: int|
                        0 <= k1 < k2 < results@.len() ==> (#[trigger] results@[k1]).idx != (
                        #[trigger] results@[k2]).idx,
                    first_ok ==> results@.len() >= 1,
                    2 * unvisited_count(visited@) + candidates@.len() <= measure_after_pop,
                decreases nlen - t,
            {
                let neighbor = hnsw.points[current_c.idx].neighbors[0][t];
                beam_consider(
                    hnsw,
                    query,
                    payloads,
                    filter,
                    deleted,
                    &mut visited,
                    &mut candidates,
                    &mut results,
                    neighbor,
                );
                t = t + 1;
            }
        }
    }
    let res = hnsw.cands_to_results(&results, top_k, Ghost(query@));
    proof {
        assert forall|k: int| 0 <= k < res@.len() implies !deleted@.contains(
            (#[trigger] res@[k]).id,
        ) && (match filter {
            Some(f) => spec_passes(*f, *payloads, res@[k].id),
            None => true,
        }) by {
            assert(res@[k].id == hnsw.points@[results@[k].idx as int].id);
            assert(cand_accepted(*hnsw, *payloads, deleted@, filter, results@[k]));
        }
        match hnsw.entry_point {
            Some(e) => {
                let eid = hnsw.points@[e as int].id;
                if top_k >= 1 && !deleted@.contains(eid) && (match filter {
                    Some(f) => spec_passes(*f, *payloads, eid),
                    None => true,
                }) {
                    // The seed is the entry point itself, which is
                    // acceptable, so the beam starts non-empty.
                    assert(seed_ok);
                    assert(first_ok);
                    assert(res@.len() >= 1);
                }
            },
            None => {},
        }
    }
    Ok(res)
}

/// Consider one neighbor during the filtered beam: mark it visited, and if
/// it is live, untombstoned and filter-passing and either the result list
/// has room or it beats the current worst, push it to both lists, evicting
/// the worst result beyond the beam width.
fn beam_consider(
    hnsw: &HNSWIndex,
    query: &Vector,
    payloads: &PayloadMap,
    filter: Option<&Filter>,
    deleted: &Vec<u64>,
    visited: &mut Vec<bool>,
    candidates: &mut Vec<Cand>,
    results: &mut Vec<Cand>,
    neighbor: usize,
)
    requires
        hnsw.wf(),
        query@.len() == hnsw.dim,
        neighbor < hnsw.points@.len(),
        old(visited)@.len() == hnsw.points@.len(),
        cands_sorted(old(candidates)@),
        cands_sorted(old(results)@),
        hnsw.cands_good(query@, old(candidates)@),
        hnsw.cands_good(query@, old(results)@),
        old(results)@.len() <= (if hnsw.ef >= 1 {
            hnsw.ef as int
        } else {
            1
        }),
        forall|k: int|
            0 <= k < old(results)@.len() ==> cand_accepted(
                *hnsw,
                *payloads,
                deleted@,
                filter,
                #[trigger] old(results)@[k],
            ),
        forall|k: int| 0 <= k < old(candidates)@.len() ==> old(visited)@[(
            #[trigger] old(candidates)@[k]).idx as int],
        forall|k: int| 0 <= k < old(results)@.len() ==> old(visited)@[(
            #[trigger] old(results)@[k]).idx as int],
        forall|k1: int, k2: int|
            0 <= k1 < k2 < old(results)@.len() ==> (#[trigger] old(results)@[k1]).idx != (
            #[trigger] old(results)@[k2]).idx,
    ensures
        final (visited)@.len() == old(visited)@.len(),
        cands_sorted(final (candidates)@),
        cands_sorted(final (results)@),
        hnsw.cands_good(query@, final (candidates)@),
        hnsw.cands_good(query@, final (results)@),
        final (results)@.len() <= (if hnsw.ef >= 1 {
            hnsw.ef as int
        } else {
            1
        }),
        forall|k: int|
            0 <= k < final (results)@.len() ==> cand_accepted(
                *hnsw,
                *payloads,
                deleted@,
                filter,
                #[trigger] final (results)@[k],
            ),
        forall|k: int| 0 <= k < final (candidates)@.len() ==> final (visited)@[(
            #[trigger] final (candidates)@[k]).idx as int],
        forall|k: int| 0 <= k < final (results)@.len() ==> final (visited)@[(
            #[trigger] final (results)@[k]).idx as int],
        forall|k1: int, k2: int|
            0 <= k1 < k2 < final (results)@.len() ==> (#[trigger] final (results)@[k1]).idx != (
            #[trigger] final (results)@[k2]).idx,
        2 * unvisited_count(final (visited)@) + final (candidates)@.len() <= 2 * unvisited_count(
            old(visited)@,
        ) + old(candidates)@.len(),
        old(results)@.len() >= 1 ==> final (results)@.len() >= 1,
{
    if !visited[neighbor] {
        let ghost vis0 = visited@;
        visited[neighbor] = true;
        proof {
            assert(visited@ =~= vis0.update(neighbor as int, true));
            crate::hnsw::lemma_unvisited_update(vis0, neighbor as int);
        }
        let ok = !hnsw.points[neighbor].deleted && !contains_u64(
            deleted,
            hnsw.points[neighbor].id,
        ) && passes(filter, payloads, hnsw.points[neighbor].id);
        if ok {
            let cnd = hnsw.make_cand(query, neighbor);
            let full = results.len() >= hnsw.ef && hnsw.ef >= 1;
            let push_it = if !full {
                true
            } else {
                cnd.key < results[results.len() - 1].key
            };
            if push_it {
                let ghost c0 = candidates@;
                let ghost r0 = results@;
                insert_cand(candidates, cnd);
                insert_cand(results, cnd);
                proof {
                    let cp = choose|cp: int|
                        0 <= cp <= c0.len() && candidates@ == c0.insert(cp, cnd);
                    c0.insert_ensures(cp, cnd);
                    let rp = choose|rp: int| 0 <= rp <= r0.len() && results@ == r0.insert(rp, cnd);
                    r0.insert_ensures(rp, cnd);
                    assert forall|k: int|
                        0 <= k < candidates@.len() implies visited@[(
                    #[trigger] candidates@[k]).idx as int] && hnsw.cand_good(
                        query@,
                        candidates@[k],
                    ) by {
                        if k < cp {
                            assert(candidates@[k] == c0[k]);
                        } else if k > cp {
                            assert(candidates@[k] == c0[k - 1]);
                        }
                    }
                    assert forall|k: int|
                        0 <= k < results@.len() implies cand_accepted(
                        *hnsw,
                        *payloads,
                        deleted@,
                        filter,
                        #[trigger] results@[k],
                    ) && visited@[results@[k].idx as int] && hnsw.cand_good(
                        query@,
                        results@[k],
                    ) by {
                        if k < rp {
                            assert(results@[k] == r0[k]);
                        } else if k > rp {
                            assert(results@[k] == r0[k - 1]);
                        }
                    }
                    assert forall|k1: int, k2: int|
                        0 <= k1 < k2 < results@.len() implies (#[trigger] results@[k1]).idx != (
                    #[trigger] results@[k2]).idx by {
                        let v1: Cand = if k1 < rp {
                            r0[k1]
                        } else if k1 == rp {
                            cnd
                        } else {
                            r0[k1 - 1]
                        };
                        let v2: Cand = if k2 < rp {
                            r0[k2]
                        } else if k2 == rp {
                            cnd
                        } else {
                            r0[k2 - 1]
                        };
                        assert(results@[k1] == v1 && results@[k2] == v2);
                        if k1 == rp {
                            assert(!vis0[cnd.idx as int]);
                            assert(vis0[v2.idx as int]);
                        } else if k2 == rp {
                            assert(!vis0[cnd.idx as int]);
                            assert(vis0[v1.idx as int]);
                        }
                    }
                }
                if results.len() > hnsw.ef && hnsw.ef >= 1 {
                    let ghost rfull = results@;
                    let last = results.len() - 1;
                    results.remove(last);
                    proof {
                        assert(results@ =~= rfull.drop_last());
                    }
                } else {
                    if hnsw.ef == 0 && results.len() > 1 {
                        let ghost rfull = results@;
                        let last = results.len() - 1;
                        results.remove(last);
                        proof {
                            assert(results@ =~= rfull.drop_last());
                        }
                    }
                }
            }
        }
    }
}

} // verus!
