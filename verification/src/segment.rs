//! The segment: the core unit that wraps vector storage, the graph index,
//! payload records, the inverted payload index, and logical deletion with
//! periodic compaction.

use vstd::prelude::*;
use crate::errors::DBError;
use crate::filters::Filter;
use crate::hnsw::{ids_distinct, results_sorted, HNSWIndex, Point, ScoredPoint};
use crate::in_place::{in_place_filtered_search, spec_passes};
use crate::payload::{Payload, PayloadMap, PayloadValue};
use crate::stores::{spec_payload_indexes, PayloadIndex};
use crate::types::Vector;

verus! {

/// Number of logical deletions that must accumulate before compaction is
/// considered.
pub const MIN_DELETIONS_BEFORE_PURGE: usize = 100;

/// Count of stored points whose tombstone flag matches `flag`.
pub open spec fn spec_count_flag(pts: Seq<Point>, flag: bool) -> nat
    decreases pts.len(),
{
    if pts.len() == 0 {
        0
    } else {
        (if pts.last().deleted == flag {
            1nat
        } else {
            0nat
        }) + spec_count_flag(pts.drop_last(), flag)
    }
}

proof fn lemma_count_flag_le(pts: Seq<Point>, flag: bool)
    ensures
        spec_count_flag(pts, flag) <= pts.len(),
    decreases pts.len(),
{
    if pts.len() > 0 {
        lemma_count_flag_le(pts.drop_last(), flag);
    }
}

proof fn lemma_count_flag_remove(pts: Seq<Point>, flag: bool, i: int)
    requires
        0 <= i < pts.len(),
    ensures
        spec_count_flag(pts.remove(i), flag) + (if pts[i].deleted == flag {
            1nat
        } else {
            0nat
        }) == spec_count_flag(pts, flag),
    decreases pts.len(),
{
    if i == pts.len() - 1 {
        assert(pts.remove(i) =~= pts.drop_last());
    } else {
        assert(pts.remove(i).drop_last() =~= pts.drop_last().remove(i));
        assert(pts.remove(i).last() == pts.last());
        lemma_count_flag_remove(pts.drop_last(), flag, i);
    }
}

proof fn lemma_count_flag_full(pts: Seq<Point>, flag: bool)
    requires
        spec_count_flag(pts, flag) == pts.len(),
    ensures
        forall|i: int| 0 <= i < pts.len() ==> (#[trigger] pts[i]).deleted == flag,
    decreases pts.len(),
{
    if pts.len() > 0 {
        lemma_count_flag_le(pts.drop_last(), flag);
        lemma_count_flag_full(pts.drop_last(), flag);
        assert forall|i: int| 0 <= i < pts.len() implies (#[trigger] pts[i]).deleted == flag by {
            if i < pts.len() - 1 {
                assert(pts.drop_last()[i] == pts[i]);
            }
        }
    }
}

/// Some stored point carries this id and this tombstone flag.
pub open spec fn spec_has_flagged(pts: Seq<Point>, id: u64, flag: bool) -> bool {
    exists|j: int|
        0 <= j < pts.len() && (#[trigger] pts[j]).id == id && pts[j].deleted == flag
}

/// Pigeonhole: a duplicate-free list of ids, each the id of a stored point
/// whose tombstone flag is `flag`, is no longer than the number of such
/// points.
proof fn lemma_distinct_flagged_ids_bounded(pts: Seq<Point>, ids: Seq<u64>, flag: bool)
    requires
        ids.no_duplicates(),
        forall|i: int, j: int| 0 <= i < j < pts.len() ==> (#[trigger] pts[i]).id != (
            #[trigger] pts[j]).id,
        forall|k: int| 0 <= k < ids.len() ==> spec_has_flagged(pts, #[trigger] ids[k], flag),
    ensures
        ids.len() <= spec_count_flag(pts, flag),
    decreases ids.len(),
{
    if ids.len() > 0 {
        let k = ids.len() - 1;
        let last_id = ids[k];
        let j = choose|j: int|
            0 <= j < pts.len() && (#[trigger] pts[j]).id == last_id && pts[j].deleted == flag;
        let pts2 = pts.remove(j);
        let ids2 = ids.drop_last();
        assert(ids2.no_duplicates());
        assert forall|a: int, b: int| 0 <= a < b < pts2.len() implies (#[trigger] pts2[a]).id != (
        #[trigger] pts2[b]).id by {
            let ia: int = if a < j {
                a
            } else {
                a + 1
            };
            let ib: int = if b < j {
                b
            } else {
                b + 1
            };
            assert(pts2[a] == pts[ia] && pts2[b] == pts[ib]);
        }
        assert forall|k2: int| 0 <= k2 < ids2.len() implies spec_has_flagged(
            pts2,
            #[trigger] ids2[k2],
            flag,
        ) by {
            assert(ids2[k2] == ids[k2]);
            assert(spec_has_flagged(pts, ids[k2], flag));
            let w = choose|w: int|
                0 <= w < pts.len() && (#[trigger] pts[w]).id == ids[k2] && pts[w].deleted == flag;
            assert(ids[k2] != last_id);
            assert(w != j);
            if w < j {
                assert(pts2[w] == pts[w]);
                assert(0 <= w < pts2.len() && pts2[w].id == ids2[k2] && pts2[w].deleted == flag);
            } else {
                assert(pts2[w - 1] == pts[w]);
                assert(0 <= w - 1 < pts2.len() && pts2[w - 1].id == ids2[k2] && pts2[w
                    - 1].deleted == flag);
            }
        }
        lemma_distinct_flagged_ids_bounded(pts2, ids2, flag);
        lemma_count_flag_remove(pts, flag, j);
    }
}

/// The optional filter as a value.
pub open spec fn spec_opt_filter(f: Option<&Filter>) -> Option<Filter> {
    match f {
        Some(ff) => Some(*ff),
        None => None,
    }
}

/// A candidate id survives post-filtering: it is not in the tombstone list
/// and its payload satisfies the filter (if one is given).
pub open spec fn spec_kept(
    deleted: Seq<u64>,
    payloads: PayloadMap,
    filter: Option<Filter>,
    id: u64,
) -> bool {
    !deleted.contains(id) && (match filter {
        Some(f) => spec_passes(f, payloads, id),
        None => true,
    })
}

/// The first `k` surviving candidates of a list, in order.
pub open spec fn spec_filter_take(
    s: Seq<ScoredPoint>,
    deleted: Seq<u64>,
    payloads: PayloadMap,
    filter: Option<Filter>,
    k: nat,
) -> Seq<ScoredPoint>
    decreases s.len(),
{
    if s.len() == 0 || k == 0 {
        Seq::empty()
    } else if spec_kept(deleted, payloads, filter, s[0].id) {
        seq![s[0]] + spec_filter_take(s.skip(1), deleted, payloads, filter, (k - 1) as nat)
    } else {
        spec_filter_take(s.skip(1), deleted, payloads, filter, k)
    }
}

/// Post-filtering never returns more than `k` candidates.
pub proof fn lemma_filter_take_len(
    s: Seq<ScoredPoint>,
    deleted: Seq<u64>,
    payloads: PayloadMap,
    filter: Option<Filter>,
    k: nat,
)
    ensures
        spec_filter_take(s, deleted, payloads, filter, k).len() <= k,
    decreases s.len(),
{
    if s.len() > 0 && k > 0 {
        if spec_kept(deleted, payloads, filter, s[0].id) {
            lemma_filter_take_len(s.skip(1), deleted, payloads, filter, (k - 1) as nat);
        } else {
            lemma_filter_take_len(s.skip(1), deleted, payloads, filter, k);
        }
    }
}

/// When every candidate survives, post-filtering takes exactly the first
/// `k` (or all, when fewer exist).
pub proof fn lemma_filter_take_all_kept(
    s: Seq<ScoredPoint>,
    deleted: Seq<u64>,
    payloads: PayloadMap,
    filter: Option<Filter>,
    k: nat,
)
    requires
        forall|j: int| 0 <= j < s.len() ==> spec_kept(deleted, payloads, filter, (#[trigger] s[j]).id),
    ensures
        spec_filter_take(s, deleted, payloads, filter, k).len() == (if k <= s.len() {
            k
        } else {
            s.len()
        }),
    decreases s.len(),
{
    if s.len() > 0 && k > 0 {
        assert(forall|j: int|
            0 <= j < s.skip(1).len() ==> spec_kept(
                deleted,
                payloads,
                filter,
                (#[trigger] s.skip(1)[j]).id,
            ));
        lemma_filter_take_all_kept(s.skip(1), deleted, payloads, filter, (k - 1) as nat);
    }
}

/// A segment wraps an HNSW index, an inverted payload index, per-point
/// payload records, the tombstone list (mirroring the HNSW tombstones), and
/// the next-id counter.
pub struct Segment {
    pub hnsw: HNSWIndex,
    pub payload_index: PayloadIndex,
    pub payloads: PayloadMap,
    pub deleted: Vec<u64>,
    pub next_id: u64,
}

impl Segment {
    /// The invariants that hold after every public operation:
    /// the parts are well-formed; the tombstone list mirrors the HNSW
    /// tombstones exactly; the inverted index holds `(field, value) -> id`
    /// exactly for live ids whose payload carries that indexable value;
    /// payloads belong to stored points; ids stay below the id counter.
    pub open spec fn wf(self) -> bool {
        &&& self.hnsw.wf()
        &&& self.payload_index.wf()
        &&& self.payloads.wf()
        &&& self.deleted@.no_duplicates()
        &&& forall|id: u64| #[trigger]
            self.deleted@.contains(id) == self.hnsw.spec_deleted(id)
        &&& forall|f: Seq<char>, v: PayloadValue, x: u64| #[trigger]
            self.payload_index.spec_contains(f, v, x) == (self.hnsw.spec_live(x) && (
            match self.payloads.spec_get(x) {
                Some(p) => spec_payload_indexes(p, f, v),
                None => false,
            }))
        &&& forall|x: u64|
            #[trigger] self.payloads.spec_get(x) is Some ==> self.hnsw.spec_contains_id(x)
        &&& forall|i: int|
            0 <= i < self.hnsw.points@.len() ==> (#[trigger] self.hnsw.points@[i]).id
                < self.next_id
        &&& self.next_id >= 1
        &&& (self.hnsw.entry_point is None ==> (forall|x: u64| !(#[trigger] self.hnsw.spec_live(
            x,
        ))))
    }

    /// A fresh segment around an empty index.
    pub fn new(hnsw: HNSWIndex) -> (r: Segment)
        requires
            hnsw.wf(),
            hnsw.points@.len() == 0,
        ensures
            r.wf(),
            r.hnsw == hnsw,
            r.next_id == 1,
            r.deleted@.len() == 0,
            r.payloads.entries@.len() == 0,
    {
        let r = Segment {
            hnsw,
            payload_index: PayloadIndex::new(),
            payloads: PayloadMap::new(),
            deleted: Vec::new(),
            next_id: 1,
        };
        proof {
            assert forall|id: u64| #[trigger]
                r.deleted@.contains(id) == r.hnsw.spec_deleted(id) by {
                if r.deleted@.contains(id) {
                    let k = choose|k: int| 0 <= k < r.deleted@.len() && r.deleted@[k] == id;
                }
            }
        }
        r
    }

    /// Immutable reference to the underlying HNSW index.
    pub fn hnsw(&self) -> (r: &HNSWIndex)
        ensures
            r == &self.hnsw,
    {
        &self.hnsw
    }

    /// Immutable reference to the point payloads.
    pub fn payloads(&self) -> (r: &PayloadMap)
        ensures
            r == &self.payloads,
    {
        &self.payloads
    }

    /// Immutable reference to the inverted payload index.
    pub fn payload_index(&self) -> (r: &PayloadIndex)
        ensures
            r == &self.payload_index,
    {
        &self.payload_index
    }

    /// Check if a point is logically deleted.
    pub fn is_deleted(&self, point_id: u64) -> (r: bool)
        ensures
            r == self.deleted@.contains(point_id),
    {
        let n = self.deleted.len();
        for k in 0..n
            invariant
                n == self.deleted@.len(),
                forall|j: int| 0 <= j < k ==> self.deleted@[j] != point_id,
        {
            if self.deleted[k] == point_id {
                return true;
            }
        }
        false
    }

    /// Get the vector for a point, if it exists and is not deleted.
    pub fn get_vector(&self, point_id: u64) -> (r: Option<&Vector>)
        requires
            self.wf(),
        ensures
            match r {
                Some(v) => self.hnsw.spec_live(point_id) && v@ == self.hnsw.spec_vector_of(
                    point_id,
                ),
                None => !self.hnsw.spec_live(point_id),
            },
    {
        if self.is_deleted(point_id) {
            proof {
                assert(self.hnsw.spec_deleted(point_id));
                if self.hnsw.spec_live(point_id) {
                    let i = choose|i: int|
                        0 <= i < self.hnsw.points@.len() && (#[trigger] self.hnsw.points@[i]).id
                            == point_id && !self.hnsw.points@[i].deleted;
                    let j = choose|j: int|
                        0 <= j < self.hnsw.points@.len() && (#[trigger] self.hnsw.points@[j]).id
                            == point_id && self.hnsw.points@[j].deleted;
                    if i < j {
                        assert(self.hnsw.points@[i].id != self.hnsw.points@[j].id);
                    } else {
                        assert(self.hnsw.points@[j].id != self.hnsw.points@[i].id);
                    }
                }
            }
            return None;
        }
        self.hnsw.get_vector(&point_id)
    }

    /// Get payload metadata for a point.
    pub fn get_payload(&self, point_id: u64) -> (r: Option<&Payload>)
        ensures
            match r {
                Some(p) => self.payloads.spec_get(point_id) == Some(*p),
                None => self.payloads.spec_get(point_id) == None::<Payload>,
            },
    {
        self.payloads.get(point_id)
    }
}

fn clone_vector(v: &Vector) -> (r: Vector)
    ensures
        r@ == v@,
{
    let mut r: Vector = Vec::new();
    let n = v.len();
    for i in 0..n
        invariant
            n == v@.len(),
            r@ == v@.subrange(0, i as int),
    {
        r.push(v[i]);
        proof {
            assert(r@ =~= v@.subrange(0, i + 1));
        }
    }
    proof {
        assert(v@.subrange(0, n as int) =~= v@);
    }
    r
}

impl Segment {
    /// Insert a new vector and optional payload under a freshly allocated
    /// id.  A vector of the wrong length is a dimension error and changes
    /// nothing; on success the id is returned, the (possibly normalized)
    /// vector is stored live, the payload (if any) is recorded and indexed,
    /// and every other point is untouched.
    pub fn insert(&mut self, vector: Vector, payload: Option<Payload>) -> (r: Result<u64, DBError>)
        requires
            old(self).wf(),
            old(self).next_id < 0xFFFF_FFFF_FFFF_FFFF,
            match payload {
                Some(p) => p.wf(),
                None => true,
            },
        ensures
            final (self).wf(),
            match r {
                Err(e) => *final (self) == *old(self) && vector@.len() != old(self).hnsw.dim && (
                match e {
                    DBError::VectorLengthMismatch { expected, actual } => expected == old(self).hnsw.dim && actual == vector@.len(),
                    _ => false,
                }),
                Ok(id) => {
                    &&& vector@.len() == old(self).hnsw.dim
                    &&& id == old(self).next_id
                    &&& final (self).next_id == old(self).next_id + 1
                    &&& final (self).hnsw.spec_live(id)
                    &&& final (self).hnsw.spec_vector_of(id) == crate::metric::spec_maybe_normalize(
                        old(self).hnsw.metric,
                        vector@,
                    )
                    &&& final (self).payloads.spec_get(id) == payload
                    &&& forall|x: u64|
                        x != id ==> #[trigger] final (self).payloads.spec_get(x) == old(self).payloads.spec_get(x)
                    &&& forall|x: u64|
                        x != id ==> #[trigger] final (self).hnsw.spec_live(x) == old(self).hnsw.spec_live(x)
                    &&& final (self).deleted@ == old(self).deleted@
                    &&& final (self).hnsw.same_params(old(self).hnsw)
                },
            },
    {
        let point_id = self.next_id;
        proof {
            assert(!self.hnsw.spec_contains_id(point_id)) by {
                if self.hnsw.spec_contains_id(point_id) {
                    let i = choose|i: int|
                        0 <= i < self.hnsw.points@.len() && (#[trigger] self.hnsw.points@[i]).id
                            == point_id;
                }
            }
        }
        let ghost pre_hnsw = self.hnsw;
        match self.hnsw.insert(point_id, clone_vector(&vector)) {
            Ok(()) => {},
            Err(e) => {
                return Err(e);
            },
        }
        let ghost mid_hnsw = self.hnsw;
        proof {
            HNSWIndex::lemma_appended_point_status(pre_hnsw, mid_hnsw, point_id);
        }
        match payload {
            Some(p) => {
                let mut filter_keys: Vec<String> = Vec::new();
                let nf = p.entries.len();
                for i in 0..nf
                    invariant
                        nf == p.entries@.len(),
                {
                    if p.entries[i].1.is_indexable() {
                        filter_keys.push(p.entries[i].0.clone());
                    }
                }
                self.payload_index.insert(point_id, &p);
                proof {
                    assert(self.payloads.spec_get(point_id) == None::<Payload>) by {
                        if self.payloads.spec_get(point_id) is Some {
                            assert(pre_hnsw.spec_contains_id(point_id));
                        }
                    }
                }
                let ghost stored_p = p;
                self.payloads.insert(point_id, p);
                if filter_keys.len() > 0 {
                    let ghost pre_edges = self.hnsw;
                    let pref = match self.payloads.get(point_id) {
                        Some(pp) => pp,
                        None => {
                            proof {
                                assert(false);
                            }
                            &self.payloads.entries[0].1
                        },
                    };
                    match self.hnsw.build_filter_aware_edges(
                        point_id,
                        &vector,
                        pref,
                        &self.payload_index,
                        &self.payloads,
                        filter_keys.as_slice(),
                    ) {
                        Ok(()) => {},
                        Err(_) => {
                            proof {
                                assert(false);
                            }
                        },
                    }
                    proof {
                        HNSWIndex::lemma_core_preserved_status(pre_edges, self.hnsw);
                    }
                }
                self.next_id = self.next_id + 1;
                proof {
                    self.lemma_insert_wf(
                        *old(self),
                        pre_hnsw,
                        mid_hnsw,
                        point_id,
                        Some(stored_p),
                    );
                }
                Ok(point_id)
            },
            None => {
                self.next_id = self.next_id + 1;
                proof {
                    self.lemma_insert_wf(*old(self), pre_hnsw, mid_hnsw, point_id, None);
                }
                Ok(point_id)
            },
        }
    }

    /// Re-establishes the segment invariant after an insertion.
    proof fn lemma_insert_wf(
        self,
        pre: Segment,
        pre_hnsw: HNSWIndex,
        mid_hnsw: HNSWIndex,
        point_id: u64,
        stored: Option<Payload>,
    )
        requires
            pre.wf(),
            pre_hnsw == pre.hnsw,
            !pre_hnsw.spec_contains_id(point_id),
            point_id == pre.next_id,
            pre.next_id < 0xFFFF_FFFF_FFFF_FFFF,
            self.next_id == pre.next_id + 1,
            self.deleted == pre.deleted,
            self.hnsw.wf(),
            self.payload_index.wf(),
            self.payloads.wf(),
            self.hnsw.entry_point is Some,
            // the graph after the append (edge building preserves status)
            self.hnsw.points@.len() == pre_hnsw.points@.len() + 1,
            forall|j: int|
                0 <= j < pre_hnsw.points@.len() ==> crate::hnsw::same_point_core(
                    #[trigger] self.hnsw.points@[j],
                    pre_hnsw.points@[j],
                ),
            self.hnsw.points@[pre_hnsw.points@.len() as int].id == point_id,
            !self.hnsw.points@[pre_hnsw.points@.len() as int].deleted,
            // payload bookkeeping
            match stored {
                Some(p) => self.payloads.spec_get(point_id) == Some(p) && (forall|x: u64|
                    x != point_id ==> #[trigger] self.payloads.spec_get(x)
                        == pre.payloads.spec_get(x)) && (forall|
                    f: Seq<char>,
                    v: PayloadValue,
                    x: u64,
                |
                    #[trigger] self.payload_index.spec_contains(f, v, x) == (
                    pre.payload_index.spec_contains(f, v, x) || (x == point_id
                        && spec_payload_indexes(p, f, v)))),
                None => self.payloads == pre.payloads && self.payload_index
                    == pre.payload_index,
            },
        ensures
            self.wf(),
    {
        HNSWIndex::lemma_appended_point_status(pre_hnsw, self.hnsw, point_id);
        assert(self.hnsw.spec_live(point_id));
        // fresh id was absent everywhere
        assert(!pre.deleted@.contains(point_id)) by {
            if pre.deleted@.contains(point_id) {
                assert(pre.hnsw.spec_deleted(point_id));
                let i = choose|i: int|
                    0 <= i < pre.hnsw.points@.len() && (#[trigger] pre.hnsw.points@[i]).id
                        == point_id && pre.hnsw.points@[i].deleted;
            }
        }
        assert(pre.payloads.spec_get(point_id) == None::<Payload>) by {
            if pre.payloads.spec_get(point_id) is Some {
                assert(pre.hnsw.spec_contains_id(point_id));
            }
        }
        assert forall|id: u64| #[trigger]
            self.deleted@.contains(id) == self.hnsw.spec_deleted(id) by {
            if id != point_id {
                assert(pre.deleted@.contains(id) == pre.hnsw.spec_deleted(id));
            } else {
                assert(!self.hnsw.spec_deleted(point_id));
            }
        }
        assert forall|f: Seq<char>, v: PayloadValue, x: u64| #[trigger]
            self.payload_index.spec_contains(f, v, x) == (self.hnsw.spec_live(x) && (
        match self.payloads.spec_get(x) {
            Some(p) => spec_payload_indexes(p, f, v),
            None => false,
        })) by {
            if x != point_id {
                assert(pre.payload_index.spec_contains(f, v, x) == (pre.hnsw.spec_live(x) && (
                match pre.payloads.spec_get(x) {
                    Some(p) => spec_payload_indexes(p, f, v),
                    None => false,
                })));
            } else {
                assert(!pre.hnsw.spec_live(x));
                assert(!pre.payload_index.spec_contains(f, v, x));
            }
        }
        assert forall|x: u64|
            #[trigger] self.payloads.spec_get(x) is Some implies self.hnsw.spec_contains_id(
            x,
        ) by {
            if x != point_id {
                assert(pre.payloads.spec_get(x) is Some ==> pre.hnsw.spec_contains_id(x));
            }
        }
        assert forall|i: int|
            0 <= i < self.hnsw.points@.len() implies (#[trigger] self.hnsw.points@[i]).id
            < self.next_id by {
            if i < pre_hnsw.points@.len() {
                assert(self.hnsw.points@[i].id == pre_hnsw.points@[i].id);
            }
        }
    }
}

impl Segment {
    /// Compaction: rebuild the graph, the inverted index and the payload
    /// map from the live points only, and clear the tombstones.  Ids,
    /// payloads and (re-normalized) vectors of live points are preserved.
    pub fn purge(&mut self) -> (r: Result<(), DBError>)
        requires
            old(self).wf(),
        ensures
            final (self).wf(),
            r is Ok,
            forall|x: u64| #[trigger]
                final (self).hnsw.spec_live(x) == old(self).hnsw.spec_live(x),
            forall|x: u64| #[trigger]
                final (self).hnsw.spec_contains_id(x) == old(self).hnsw.spec_live(x),
            forall|x: u64|
                old(self).hnsw.spec_live(x) ==> #[trigger] final (self).payloads.spec_get(x)
                    == old(self).payloads.spec_get(x),
            forall|x: u64|
                old(self).hnsw.spec_live(x) ==> #[trigger] final (self).hnsw.spec_vector_of(x)
                    == crate::metric::spec_maybe_normalize(
                    old(self).hnsw.metric,
                    old(self).hnsw.spec_vector_of(x),
                ),
            final (self).deleted@.len() == 0,
            final (self).next_id == old(self).next_id,
            final (self).hnsw.same_params(old(self).hnsw),
    {
        let ghost pre = *old(self);
        let mut new_hnsw = HNSWIndex::new(
            self.hnsw.metric(),
            self.hnsw.m(),
            self.hnsw.ef(),
            self.hnsw.max_level_cap(),
            self.hnsw.dim(),
        );
        let mut new_pidx = PayloadIndex::new();
        let mut new_payloads = PayloadMap::new();
        let mut old_payloads = PayloadMap::new();
        core::mem::swap(&mut self.payloads, &mut old_payloads);
        let pairs = self.hnsw.iter_vectors();
        let n = pairs.len();
        for i in 0..n
            invariant
                pre.wf(),
                pre.hnsw == self.hnsw,
                pre.deleted == self.deleted,
                pre.next_id == self.next_id,
                n == pairs@.len(),
                pairs@.len() == pre.hnsw.points@.len(),
                forall|j: int|
                    0 <= j < pairs@.len() ==> (#[trigger] pairs@[j]).0 == pre.hnsw.points@[j].id
                        && pairs@[j].1@ == pre.hnsw.points@[j].vector@,
                new_hnsw.wf(),
                new_pidx.wf(),
                new_payloads.wf(),
                old_payloads.wf(),
                new_hnsw.same_params(pre.hnsw),
                new_hnsw.points@.len() == 0 ==> new_hnsw.current_max_level == 0,
                new_hnsw.points@.len() > 0 ==> new_hnsw.entry_point is Some,
                forall|k: int|
                    0 <= k < new_hnsw.points@.len() ==> !(#[trigger] new_hnsw.points@[k]).deleted,
                forall|x: u64| #[trigger]
                    new_hnsw.spec_contains_id(x) == (exists|j: int|
                        0 <= j < i && (#[trigger] pre.hnsw.points@[j]).id == x
                            && !pre.hnsw.points@[j].deleted),
                forall|x: u64|
                    #[trigger] new_hnsw.spec_contains_id(x) ==> new_hnsw.spec_vector_of(x)
                        == crate::metric::spec_maybe_normalize(
                        pre.hnsw.metric,
                        pre.hnsw.spec_vector_of(x),
                    ),
                forall|x: u64| #[trigger]
                    new_payloads.spec_get(x) == (if new_hnsw.spec_contains_id(x) {
                        pre.payloads.spec_get(x)
                    } else {
                        None
                    }),
                forall|x: u64| #[trigger]
                    old_payloads.spec_get(x) == (if new_hnsw.spec_contains_id(x) {
                        None
                    } else {
                        pre.payloads.spec_get(x)
                    }),
                forall|f: Seq<char>, v: PayloadValue, x: u64| #[trigger]
                    new_pidx.spec_contains(f, v, x) == (new_hnsw.spec_contains_id(x) && (
                    match pre.payloads.spec_get(x) {
                        Some(p) => spec_payload_indexes(p, f, v),
                        None => false,
                    })),
        {
            let id = pairs[i].0;
            let tombstoned = self.is_deleted(id);
            let ghost hnsw0 = new_hnsw;
            if !tombstoned {
                proof {
                    // the id is fresh in the rebuilt graph
                    assert(!new_hnsw.spec_contains_id(id)) by {
                        if new_hnsw.spec_contains_id(id) {
                            let j = choose|j: int|
                                0 <= j < i && (#[trigger] pre.hnsw.points@[j]).id == id
                                    && !pre.hnsw.points@[j].deleted;
                            assert(pre.hnsw.points@[j].id != pre.hnsw.points@[i as int].id);
                        }
                    }
                    assert(pairs@[i as int].1@.len() == pre.hnsw.dim);
                }
                match new_hnsw.insert(id, clone_vector(&pairs[i].1)) {
                    Ok(()) => {},
                    Err(_) => {
                        proof {
                            assert(false);
                        }
                        return Ok(());
                    },
                }
                proof {
                    HNSWIndex::lemma_appended_point_status(hnsw0, new_hnsw, id);
                    assert(pre.hnsw.spec_idx_of(id) == i as int) by {
                        pre.hnsw.lemma_idx_of_at(i as int);
                    }
                }
                match old_payloads.take(id) {
                    Some(p) => {
                        proof {
                            assert(p.wf());
                        }
                        let mut filter_keys: Vec<String> = Vec::new();
                        let nf = p.entries.len();
                        for t in 0..nf
                            invariant
                                nf == p.entries@.len(),
                        {
                            if p.entries[t].1.is_indexable() {
                                filter_keys.push(p.entries[t].0.clone());
                            }
                        }
                        new_pidx.insert(id, &p);
                        new_payloads.insert(id, p);
                        if filter_keys.len() > 0 {
                            let ghost hnsw1 = new_hnsw;
                            let pref = match new_payloads.get(id) {
                                Some(pp) => pp,
                                None => {
                                    proof {
                                        assert(false);
                                    }
                                    &new_payloads.entries[0].1
                                },
                            };
                            match new_hnsw.build_filter_aware_edges(
                                id,
                                &pairs[i].1,
                                pref,
                                &new_pidx,
                                &new_payloads,
                                filter_keys.as_slice(),
                            ) {
                                Ok(()) => {},
                                Err(_) => {
                                    proof {
                                        assert(false);
                                    }
                                },
                            }
                            proof {
                                HNSWIndex::lemma_core_preserved_status(hnsw1, new_hnsw);
                            }
                        }
                    },
                    None => {},
                }
                proof {
                    assert forall|x: u64| #[trigger]
                        new_hnsw.spec_contains_id(x) == (exists|j: int|
                            0 <= j < i + 1 && (#[trigger] pre.hnsw.points@[j]).id == x
                                && !pre.hnsw.points@[j].deleted) by {
                        if x == id {
                            assert(pre.hnsw.points@[i as int].id == id);
                            assert(!pre.hnsw.points@[i as int].deleted) by {
                                if pre.hnsw.points@[i as int].deleted {
                                    assert(pre.hnsw.spec_deleted(id));
                                    assert(pre.deleted@.contains(id));
                                }
                            }
                            assert(new_hnsw.spec_live(id));
                        } else {
                            assert(new_hnsw.spec_contains_id(x) == hnsw0.spec_contains_id(x));
                            assert forall|j: int|
                                0 <= j < i + 1 && (#[trigger] pre.hnsw.points@[j]).id == x
                                    && !pre.hnsw.points@[j].deleted implies j < i by {
                                if j == i {
                                    assert(pre.hnsw.points@[i as int].id == id);
                                }
                            }
                        }
                    }
                }
            } else {
                proof {
                    assert(pre.hnsw.spec_deleted(id));
                    assert(pre.hnsw.points@[i as int].deleted) by {
                        let j = choose|j: int|
                            0 <= j < pre.hnsw.points@.len() && (#[trigger] pre.hnsw.points@[j]).id
                                == id && pre.hnsw.points@[j].deleted;
                        if j != i {
                            if j < i {
                                assert(pre.hnsw.points@[j].id != pre.hnsw.points@[i as int].id);
                            } else {
                                assert(pre.hnsw.points@[i as int].id != pre.hnsw.points@[j].id);
                            }
                        }
                    }
                    assert forall|x: u64| #[trigger]
                        new_hnsw.spec_contains_id(x) == (exists|j: int|
                            0 <= j < i + 1 && (#[trigger] pre.hnsw.points@[j]).id == x
                                && !pre.hnsw.points@[j].deleted) by {
                        assert forall|j: int|
                            0 <= j < i + 1 && (#[trigger] pre.hnsw.points@[j]).id == x
                                && !pre.hnsw.points@[j].deleted implies j < i by {}
                    }
                }
            }
        }
        self.hnsw = new_hnsw;
        self.payload_index = new_pidx;
        self.payloads = new_payloads;
        self.deleted = Vec::new();
        proof {
            assert forall|x: u64| #[trigger]
                self.hnsw.spec_contains_id(x) == pre.hnsw.spec_live(x) by {
                if pre.hnsw.spec_live(x) {
                    let j = choose|j: int|
                        0 <= j < pre.hnsw.points@.len() && (#[trigger] pre.hnsw.points@[j]).id
                            == x && !pre.hnsw.points@[j].deleted;
                }
            }
            assert forall|x: u64| #[trigger]
                self.hnsw.spec_live(x) == pre.hnsw.spec_live(x) by {
                if self.hnsw.spec_live(x) {
                    assert(self.hnsw.spec_contains_id(x));
                }
                if self.hnsw.spec_contains_id(x) {
                    let k = choose|k: int|
                        0 <= k < self.hnsw.points@.len() && (#[trigger] self.hnsw.points@[k]).id
                            == x;
                    assert(!self.hnsw.points@[k].deleted);
                }
            }
            assert forall|id2: u64| #[trigger]
                self.deleted@.contains(id2) == self.hnsw.spec_deleted(id2) by {
                if self.hnsw.spec_deleted(id2) {
                    let k = choose|k: int|
                        0 <= k < self.hnsw.points@.len() && (#[trigger] self.hnsw.points@[k]).id
                            == id2 && self.hnsw.points@[k].deleted;
                }
            }
            assert forall|x: u64| pre.hnsw.spec_live(x) implies #[trigger] self.hnsw.spec_vector_of(
                x,
            ) == crate::metric::spec_maybe_normalize(
                pre.hnsw.metric,
                pre.hnsw.spec_vector_of(x),
            ) by {
                assert(self.hnsw.spec_contains_id(x));
            }
            assert forall|x: u64|
                #[trigger] self.payloads.spec_get(x) is Some implies self.hnsw.spec_contains_id(
                x,
            ) by {}
            assert(self.hnsw.entry_point is None ==> (forall|x: u64| !(
            #[trigger] self.hnsw.spec_live(x)))) by {
                if self.hnsw.entry_point is None {
                    assert(self.hnsw.points@.len() == 0);
                }
            }
            assert forall|i2: int|
                0 <= i2 < self.hnsw.points@.len() implies (#[trigger] self.hnsw.points@[i2]).id
                < self.next_id by {
                let x = self.hnsw.points@[i2].id;
                self.hnsw.lemma_idx_of_at(i2);
                assert(self.hnsw.spec_contains_id(x));
                let j = choose|j: int|
                    0 <= j < pre.hnsw.points@.len() && (#[trigger] pre.hnsw.points@[j]).id == x
                        && !pre.hnsw.points@[j].deleted;
            }
            assert(self.wf());
        }
        Ok(())
    }

    /// Logical deletion: a no-op on an absent or already deleted id;
    /// otherwise the id leaves the inverted index and is tombstoned, and
    /// when at least `MIN_DELETIONS_BEFORE_PURGE` deletions have
    /// accumulated and make up at least a quarter of the stored points,
    /// compaction runs.
    pub fn delete(&mut self, point_id: u64) -> (r: Result<(), DBError>)
        requires
            old(self).wf(),
        ensures
            final (self).wf(),
            r is Ok,
            !final (self).hnsw.spec_live(point_id),
            forall|x: u64|
                x != point_id ==> #[trigger] final (self).hnsw.spec_live(x) == old(self).hnsw.spec_live(x),
            forall|x: u64|
                x != point_id && old(self).hnsw.spec_live(x) ==> #[trigger] final (self).payloads.spec_get(x) == old(self).payloads.spec_get(x),
            forall|x: u64|
                x != point_id && old(self).hnsw.spec_live(x) ==> (#[trigger] final (self).hnsw.spec_vector_of(x) == old(self).hnsw.spec_vector_of(x) || final (self).hnsw.spec_vector_of(x) == crate::metric::spec_maybe_normalize(
                    old(self).hnsw.metric,
                    old(self).hnsw.spec_vector_of(x),
                )),
            final (self).next_id == old(self).next_id,
            final (self).hnsw.same_params(old(self).hnsw),
            (old(self).deleted@.contains(point_id) || !old(self).hnsw.spec_contains_id(point_id))
                ==> *final (self) == *old(self),
            // the reference compaction trigger: with at least
            // MIN_DELETIONS_BEFORE_PURGE tombstones making up at least a
            // quarter of the stored points, compaction empties the list;
            // otherwise the tombstone is simply appended
            !(old(self).deleted@.contains(point_id) || !old(self).hnsw.spec_contains_id(point_id))
                ==> ({
                let dc = old(self).deleted@.len() + 1;
                let tot = old(self).hnsw.points@.len();
                &&& ((dc >= MIN_DELETIONS_BEFORE_PURGE && 4 * dc >= tot) ==> final (self).deleted@.len() == 0)
                &&& (!(dc >= MIN_DELETIONS_BEFORE_PURGE && 4 * dc >= tot) ==> final (self).deleted@ == old(self).deleted@.push(point_id))
            }),
    {
        if self.is_deleted(point_id) {
            return Ok(());
        }
        if !self.hnsw.contains(&point_id) {
            return Ok(());
        }
        let ghost pre = *old(self);
        match self.payloads.get(point_id) {
            Some(p) => {
                proof {
                    crate::payload::lemma_get_pm_found_wf(self.payloads.entries@, point_id, *p);
                }
                self.payload_index.remove(point_id, p);
            },
            None => {},
        }
        self.deleted.push(point_id);
        let ghost hnsw0 = self.hnsw;
        self.hnsw.mark_deleted(point_id);
        proof {
            assert(self.hnsw.wf());
            assert forall|id2: u64| #[trigger]
                self.deleted@.contains(id2) == self.hnsw.spec_deleted(id2) by {
                if id2 == point_id {
                    assert(self.deleted@.last() == point_id);
                    assert(self.deleted@.contains(point_id));
                    assert(self.hnsw.spec_deleted(point_id)) by {
                        let k = pre.hnsw.spec_idx_of(point_id);
                        assert(0 <= k < pre.hnsw.points@.len() && pre.hnsw.points@[k].id
                            == point_id) by {
                            let w = choose|w: int|
                                0 <= w < pre.hnsw.points@.len() && (
                                #[trigger] pre.hnsw.points@[w]).id == point_id;
                        }
                        assert(self.hnsw.points@[k].deleted);
                    }
                } else {
                    assert(self.deleted@.contains(id2) == pre.deleted@.contains(id2)) by {
                        if self.deleted@.contains(id2) {
                            let k = choose|k: int|
                                0 <= k < self.deleted@.len() && self.deleted@[k] == id2;
                            assert(k < pre.deleted@.len());
                            assert(pre.deleted@[k] == id2);
                        }
                        if pre.deleted@.contains(id2) {
                            let k = choose|k: int|
                                0 <= k < pre.deleted@.len() && pre.deleted@[k] == id2;
                            assert(self.deleted@[k] == id2);
                        }
                    }
                    assert(self.hnsw.spec_deleted(id2) == pre.hnsw.spec_deleted(id2)) by {
                        if pre.hnsw.spec_deleted(id2) {
                            let k = choose|k: int|
                                0 <= k < pre.hnsw.points@.len() && (
                                #[trigger] pre.hnsw.points@[k]).id == id2
                                    && pre.hnsw.points@[k].deleted;
                            assert(self.hnsw.points@[k].deleted && self.hnsw.points@[k].id == id2);
                        }
                        if self.hnsw.spec_deleted(id2) {
                            let k = choose|k: int|
                                0 <= k < self.hnsw.points@.len() && (
                                #[trigger] self.hnsw.points@[k]).id == id2
                                    && self.hnsw.points@[k].deleted;
                            assert(pre.hnsw.points@[k].id == id2);
                            assert(pre.hnsw.points@[k].deleted || pre.hnsw.points@[k].id
                                == point_id);
                        }
                    }
                }
            }
            assert(self.deleted@.no_duplicates()) by {
                assert(!pre.deleted@.contains(point_id));
                assert forall|a: int, b: int|
                    0 <= a < b < self.deleted@.len() implies self.deleted@[a] != self.deleted@[b]
                    by {
                    if b == self.deleted@.len() - 1 {
                        if pre.deleted@[a] == point_id {
                            assert(pre.deleted@.contains(point_id));
                        }
                    }
                }
            }
            assert forall|x: u64| #[trigger]
                self.hnsw.spec_live(x) == (pre.hnsw.spec_live(x) && x != point_id) by {
                if pre.hnsw.spec_live(x) && x != point_id {
                    let k = choose|k: int|
                        0 <= k < pre.hnsw.points@.len() && (#[trigger] pre.hnsw.points@[k]).id
                            == x && !pre.hnsw.points@[k].deleted;
                    assert(self.hnsw.points@[k].id == x && !self.hnsw.points@[k].deleted);
                }
                if self.hnsw.spec_live(x) {
                    let k = choose|k: int|
                        0 <= k < self.hnsw.points@.len() && (#[trigger] self.hnsw.points@[k]).id
                            == x && !self.hnsw.points@[k].deleted;
                    assert(pre.hnsw.points@[k].id == x && !pre.hnsw.points@[k].deleted);
                    assert(x != point_id);
                }
            }
            assert forall|f: Seq<char>, v: PayloadValue, x: u64| #[trigger]
                self.payload_index.spec_contains(f, v, x) == (self.hnsw.spec_live(x) && (
            match self.payloads.spec_get(x) {
                Some(p) => spec_payload_indexes(p, f, v),
                None => false,
            })) by {
                if x != point_id {
                    assert(pre.payload_index.spec_contains(f, v, x) == (pre.hnsw.spec_live(x) && (
                    match pre.payloads.spec_get(x) {
                        Some(p) => spec_payload_indexes(p, f, v),
                        None => false,
                    })));
                }
            }
            assert forall|x: u64|
                #[trigger] self.payloads.spec_get(x) is Some implies self.hnsw.spec_contains_id(
                x,
            ) by {
                if self.payloads.spec_get(x) is Some {
                    assert(pre.hnsw.spec_contains_id(x));
                    let k = choose|k: int|
                        0 <= k < pre.hnsw.points@.len() && (#[trigger] pre.hnsw.points@[k]).id
                            == x;
                    assert(self.hnsw.points@[k].id == x);
                }
            }
            assert(self.hnsw.entry_point is None ==> (forall|x: u64| !(
            #[trigger] self.hnsw.spec_live(x)))) by {
                if self.hnsw.entry_point is None {
                    match pre.hnsw.entry_point {
                        None => {
                            assert forall|x: u64| !(#[trigger] self.hnsw.spec_live(x)) by {
                                assert(!pre.hnsw.spec_live(x));
                            }
                        },
                        Some(e) => {
                            assert forall|x: u64| !(#[trigger] self.hnsw.spec_live(x)) by {
                                if self.hnsw.spec_live(x) {
                                    let k = choose|k: int|
                                        0 <= k < self.hnsw.points@.len() && (
                                        #[trigger] self.hnsw.points@[k]).id == x
                                            && !self.hnsw.points@[k].deleted;
                                }
                            }
                        },
                    }
                }
            }
            assert(self.wf());
            assert forall|x: u64|
                x != point_id && pre.hnsw.spec_contains_id(x) implies #[trigger] self.hnsw.spec_vector_of(
                x,
            ) == pre.hnsw.spec_vector_of(x) by {
                let i = pre.hnsw.spec_idx_of(x);
                assert(0 <= i < pre.hnsw.points@.len() && pre.hnsw.points@[i].id == x) by {
                    let w = choose|w: int|
                        0 <= w < pre.hnsw.points@.len() && (#[trigger] pre.hnsw.points@[w]).id
                            == x;
                }
                let i2 = self.hnsw.spec_idx_of(x);
                assert(0 <= i2 < self.hnsw.points@.len() && self.hnsw.points@[i2].id == x) by {
                    assert(self.hnsw.points@[i].id == x);
                }
                if i != i2 {
                    if i < i2 {
                        assert(pre.hnsw.points@[i].id != pre.hnsw.points@[i2].id);
                        assert(pre.hnsw.points@[i2].id == self.hnsw.points@[i2].id);
                    } else {
                        assert(pre.hnsw.points@[i2].id != pre.hnsw.points@[i].id);
                        assert(pre.hnsw.points@[i2].id == self.hnsw.points@[i2].id);
                    }
                }
            }
        }
        let deleted_count = self.deleted.len();
        let total_count = self.hnsw.len();
        if deleted_count >= MIN_DELETIONS_BEFORE_PURGE && (deleted_count as u128) * 4 >= (
        total_count as u128) {
            match self.purge() {
                Ok(()) => {},
                Err(_) => {
                    proof {
                        assert(false);
                    }
                },
            }
            proof {
                assert(!self.hnsw.spec_live(point_id));
            }
        }
        Ok(())
    }
}

/// Any duplicate-free sequence of values, each contained in a list, is no
/// longer than the list.
proof fn lemma_distinct_contained_bounded(l: Seq<u64>, ids: Seq<u64>)
    requires
        ids.no_duplicates(),
        forall|k: int| 0 <= k < ids.len() ==> l.contains(#[trigger] ids[k]),
    ensures
        ids.len() <= l.len(),
    decreases ids.len(),
{
    if ids.len() > 0 {
        let last = ids.last();
        let w = choose|w: int| 0 <= w < l.len() && l[w] == last;
        let l2 = l.remove(w);
        let ids2 = ids.drop_last();
        assert forall|k: int| 0 <= k < ids2.len() implies l2.contains(#[trigger] ids2[k]) by {
            assert(ids2[k] == ids[k]);
            assert(l.contains(ids[k]));
            let w2 = choose|w2: int| 0 <= w2 < l.len() && l[w2] == ids[k];
            assert(ids[k] != last);
            assert(w2 != w);
            if w2 < w {
                assert(l2[w2] == l[w2]);
            } else {
                assert(l2[w2 - 1] == l[w2]);
            }
        }
        lemma_distinct_contained_bounded(l2, ids2);
    }
}

impl Segment {
    /// The tombstone list is no longer than the point store, with equality
    /// exactly when every stored point is tombstoned.
    proof fn lemma_deleted_count(self)
        requires
            self.wf(),
        ensures
            self.deleted@.len() <= self.hnsw.points@.len(),
            self.deleted@.len() == self.hnsw.points@.len() ==> forall|x: u64|
                !(#[trigger] self.hnsw.spec_live(x)),
            (forall|x: u64| !(#[trigger] self.hnsw.spec_live(x))) ==> self.deleted@.len()
                == self.hnsw.points@.len(),
    {
        let pts = self.hnsw.points@;
        assert forall|k: int| 0 <= k < self.deleted@.len() implies spec_has_flagged(
            pts,
            #[trigger] self.deleted@[k],
            true,
        ) by {
            assert(self.deleted@.contains(self.deleted@[k]));
            assert(self.hnsw.spec_deleted(self.deleted@[k]));
        }
        lemma_distinct_flagged_ids_bounded(pts, self.deleted@, true);
        lemma_count_flag_le(pts, true);
        if self.deleted@.len() == pts.len() {
            assert(spec_count_flag(pts, true) == pts.len());
            lemma_count_flag_full(pts, true);
            assert forall|x: u64| !(#[trigger] self.hnsw.spec_live(x)) by {
                if self.hnsw.spec_live(x) {
                    let i = choose|i: int|
                        0 <= i < pts.len() && (#[trigger] pts[i]).id == x && !pts[i].deleted;
                }
            }
        }
        if forall|x: u64| !(#[trigger] self.hnsw.spec_live(x)) {
            let pids = Seq::new(pts.len(), |i: int| pts[i].id);
            assert(pids.no_duplicates()) by {
                assert forall|a: int, b: int|
                    0 <= a < b < pids.len() implies pids[a] != pids[b] by {
                    assert(pts[a].id != pts[b].id);
                }
            }
            assert forall|k: int| 0 <= k < pids.len() implies self.deleted@.contains(
                #[trigger] pids[k],
            ) by {
                assert(pts[k].id == pids[k]);
                assert(pts[k].deleted) by {
                    if !pts[k].deleted {
                        assert(self.hnsw.spec_live(pids[k]));
                    }
                }
                assert(self.hnsw.spec_deleted(pids[k]));
            }
            lemma_distinct_contained_bounded(self.deleted@, pids);
        }
    }

    /// A live id is never in the tombstone list.
    proof fn lemma_live_not_tombstoned(self, x: u64)
        requires
            self.wf(),
            self.hnsw.spec_live(x),
        ensures
            !self.deleted@.contains(x),
    {
        if self.deleted@.contains(x) {
            assert(self.hnsw.spec_deleted(x));
            let i = choose|i: int|
                0 <= i < self.hnsw.points@.len() && (#[trigger] self.hnsw.points@[i]).id == x
                    && !self.hnsw.points@[i].deleted;
            let j = choose|j: int|
                0 <= j < self.hnsw.points@.len() && (#[trigger] self.hnsw.points@[j]).id == x
                    && self.hnsw.points@[j].deleted;
            if i < j {
                assert(self.hnsw.points@[i].id != self.hnsw.points@[j].id);
            } else {
                assert(self.hnsw.points@[j].id != self.hnsw.points@[i].id);
            }
        }
    }

    /// Keep, in order, the candidates that are not tombstoned and satisfy
    /// the filter, up to `top_k` of them.  The result is exactly
    /// `spec_filter_take` of the candidate list: the first `top_k`
    /// untombstoned, filter-passing candidates, in order.
    pub fn take_filtered(
        &self,
        cands: &Vec<ScoredPoint>,
        top_k: usize,
        filter: Option<&Filter>,
    ) -> (r: Vec<ScoredPoint>)
        requires
            results_sorted(cands@),
            ids_distinct(cands@),
        ensures
            r@ == spec_filter_take(
                cands@,
                self.deleted@,
                self.payloads,
                spec_opt_filter(filter),
                top_k as nat,
            ),
            results_sorted(r@),
            ids_distinct(r@),
            r@.len() <= top_k,
            forall|k: int| 0 <= k < r@.len() ==> cands@.contains(#[trigger] r@[k]),
            forall|k: int|
                0 <= k < r@.len() ==> !self.deleted@.contains((#[trigger] r@[k]).id) && (
                match filter {
                    Some(f) => spec_passes(*f, self.payloads, r@[k].id),
                    None => true,
                }),
    {
        let ghost dd = self.deleted@;
        let ghost pp = self.payloads;
        let ghost ff = spec_opt_filter(filter);
        let ghost whole = spec_filter_take(cands@, dd, pp, ff, top_k as nat);
        let mut out: Vec<ScoredPoint> = Vec::new();
        let ghost mut src: Seq<int> = Seq::empty();
        let n = cands.len();
        let mut i: usize = 0;
        proof {
            assert(cands@.skip(0) =~= cands@);
            assert(out@ + spec_filter_take(cands@, dd, pp, ff, top_k as nat) =~= whole);
        }
        while i < n
            invariant_except_break
                n == cands@.len(),
                i <= n,
                results_sorted(cands@),
                ids_distinct(cands@),
                out@.len() <= top_k,
                src.len() == out@.len(),
                dd == self.deleted@,
                pp == self.payloads,
                ff == spec_opt_filter(filter),
                whole == spec_filter_take(cands@, dd, pp, ff, top_k as nat),
                whole == out@ + spec_filter_take(
                    cands@.skip(i as int),
                    dd,
                    pp,
                    ff,
                    (top_k - out@.len()) as nat,
                ),
                forall|k: int|
                    0 <= k < src.len() ==> 0 <= #[trigger] src[k] < i && cands@[src[k]]
                        == out@[k],
                forall|a: int, b: int| 0 <= a < b < src.len() ==> src[a] < src[b],
                forall|k: int|
                    0 <= k < out@.len() ==> !self.deleted@.contains((#[trigger] out@[k]).id) && (
                    match filter {
                        Some(f) => spec_passes(*f, self.payloads, out@[k].id),
                        None => true,
                    }),
            ensures
                out@ == whole,
                src.len() == out@.len(),
                forall|k: int|
                    0 <= k < src.len() ==> 0 <= #[trigger] src[k] < cands@.len() && cands@[src[k]]
                        == out@[k],
                forall|a: int, b: int| 0 <= a < b < src.len() ==> src[a] < src[b],
                forall|k: int|
                    0 <= k < out@.len() ==> !self.deleted@.contains((#[trigger] out@[k]).id) && (
                    match filter {
                        Some(f) => spec_passes(*f, self.payloads, out@[k].id),
                        None => true,
                    }),
            decreases n - i,
        {
            if out.len() >= top_k {
                proof {
                    assert(spec_filter_take(cands@.skip(i as int), dd, pp, ff, 0nat)
                        =~= Seq::<ScoredPoint>::empty());
                    assert(out@ + Seq::<ScoredPoint>::empty() =~= out@);
                }
                break ;
            }
            let sp = cands[i];
            let tomb = self.is_deleted(sp.id);
            let keep = if tomb {
                false
            } else {
                crate::in_place::passes(filter, &self.payloads, sp.id)
            };
            proof {
                assert(cands@.skip(i as int)[0] == cands@[i as int]);
                assert(cands@.skip(i as int).skip(1) =~= cands@.skip(i + 1));
                assert(keep == spec_kept(dd, pp, ff, sp.id));
            }
            if keep {
                let ghost out0 = out@;
                out.push(sp);
                proof {
                    src = src.push(i as int);
                    assert(out@ =~= out0 + seq![sp]);
                    let rest = spec_filter_take(
                        cands@.skip(i + 1),
                        dd,
                        pp,
                        ff,
                        (top_k - out@.len()) as nat,
                    );
                    assert(spec_filter_take(
                        cands@.skip(i as int),
                        dd,
                        pp,
                        ff,
                        (top_k - out0.len()) as nat,
                    ) == seq![sp] + rest);
                    assert(out0 + (seq![sp] + rest) =~= (out0 + seq![sp]) + rest);
                }
            }
            i = i + 1;
        }
        proof {
            assert(out@ == whole);
            assert forall|k1: int, k2: int|
                0 <= k1 < k2 < out@.len() implies (#[trigger] out@[k1]).sort_key <= (
            #[trigger] out@[k2]).sort_key && out@[k1].id != out@[k2].id by {
                assert(cands@[src[k1]] == out@[k1] && cands@[src[k2]] == out@[k2]);
                assert(src[k1] < src[k2]);
            }
            assert forall|k: int| 0 <= k < out@.len() implies cands@.contains(
                #[trigger] out@[k],
            ) by {
                assert(cands@[src[k]] == out@[k]);
            }
            assert(out@.len() <= top_k) by {
                lemma_filter_take_len(cands@, dd, pp, ff, top_k as nat);
            }
        }
        out
    }

    /// Unfiltered search straight on the HNSW index.
    pub fn search_unfiltered(&self, query: &Vector, top_k: usize) -> (r: Result<
        Vec<ScoredPoint>,
        DBError,
    >)
        requires
            self.wf(),
        ensures
            match r {
                Ok(res) => {
                    &&& (self.hnsw.entry_point is None ==> res@.len() == 0)
                    &&& (self.hnsw.entry_point is Some ==> query@.len() == self.hnsw.dim
                        && results_sorted(res@) && res@.len() <= top_k && ids_distinct(res@)
                        && self.hnsw.spec_results_valid(
                        crate::metric::spec_maybe_normalize(self.hnsw.metric, query@),
                        res@,
                    ))
                },
                Err(e) => self.hnsw.entry_point is Some && query@.len() != self.hnsw.dim && (
                match e {
                    DBError::VectorLengthMismatch { expected, actual } => expected
                        == self.hnsw.dim && actual == query@.len(),
                    _ => false,
                }),
            },
    {
        self.hnsw.search(query, top_k)
    }

    /// Search: an error when no live points remain, a dimension error on a
    /// wrong-length query; otherwise the best `top_k` live points by sort
    /// key, oversampled by 2 then filtered against the tombstone list.
    pub fn search(&self, query: &Vector, top_k: usize) -> (r: Result<Vec<ScoredPoint>, DBError>)
        requires
            self.wf(),
            top_k <= usize::MAX / 2,
        ensures
            match r {
                Ok(res) => {
                    &&& results_sorted(res@)
                    &&& res@.len() <= top_k
                    &&& ids_distinct(res@)
                    &&& forall|k: int|
                        0 <= k < res@.len() ==> self.hnsw.spec_live((#[trigger] res@[k]).id)
                            && !self.deleted@.contains(res@[k].id)
                    &&& self.hnsw.spec_results_valid(
                        crate::metric::spec_maybe_normalize(self.hnsw.metric, query@),
                        res@,
                    )
                },
                Err(e) => match e {
                    DBError::SearchError(_) => forall|x: u64| !(#[trigger] self.hnsw.spec_live(x)),
                    DBError::VectorLengthMismatch { expected, actual } => expected
                        == self.hnsw.dim && actual == query@.len() && query@.len()
                        != self.hnsw.dim,
                    _ => false,
                },
            },
            (forall|x: u64| !(#[trigger] self.hnsw.spec_live(x))) ==> r is Err,
            match r {
                Ok(res) => (top_k >= 1 ==> res@.len() >= 1) && (exists|cands: Seq<ScoredPoint>|
                    {
                        &&& #[trigger] results_sorted(cands)
                        &&& ids_distinct(cands)
                        &&& self.hnsw.spec_results_valid(
                            crate::metric::spec_maybe_normalize(self.hnsw.metric, query@),
                            cands,
                        )
                        &&& (top_k >= 1 ==> cands.len() >= 1)
                        &&& res@ == spec_filter_take(
                            cands,
                            self.deleted@,
                            self.payloads,
                            None::<Filter>,
                            top_k as nat,
                        )
                    }),
                Err(_) => true,
            },
    {
        proof {
            self.lemma_deleted_count();
        }
        let total = self.hnsw.len();
        let dlen = self.deleted.len();
        if total - dlen == 0 {
            let msg = String::from_str("No active points available to search.");
            return Err(DBError::SearchError(msg));
        }
        proof {
            if forall|x: u64| !(#[trigger] self.hnsw.spec_live(x)) {
                assert(false);
            }
            assert(self.hnsw.entry_point is Some) by {
                if self.hnsw.entry_point is None {
                    assert(forall|x: u64| !(#[trigger] self.hnsw.spec_live(x)));
                }
            }
        }
        let candidates = match self.hnsw.search(query, top_k * 2) {
            Ok(c) => c,
            Err(e) => {
                return Err(e);
            },
        };
        let res = self.take_filtered(&candidates, top_k, None);
        proof {
            assert forall|k: int| 0 <= k < candidates@.len() implies spec_kept(
                self.deleted@,
                self.payloads,
                None::<Filter>,
                (#[trigger] candidates@[k]).id,
            ) by {
                assert(self.hnsw.spec_live(candidates@[k].id));
                self.lemma_live_not_tombstoned(candidates@[k].id);
            }
            lemma_filter_take_all_kept(
                candidates@,
                self.deleted@,
                self.payloads,
                None::<Filter>,
                top_k as nat,
            );
            assert(res@ == spec_filter_take(
                candidates@,
                self.deleted@,
                self.payloads,
                None::<Filter>,
                top_k as nat,
            ));
            if top_k >= 1 {
                assert(candidates@.len() >= 1);
                assert(res@.len() >= 1);
            }
        }
        proof {
            assert forall|k: int| 0 <= k < res@.len() implies self.hnsw.spec_live(
                (#[trigger] res@[k]).id,
            ) && res@[k].raw_score == crate::metric::spec_distance(
                self.hnsw.metric,
                crate::metric::spec_maybe_normalize(self.hnsw.metric, query@),
                self.hnsw.spec_vector_of(res@[k].id),
            ) && res@[k].sort_key == crate::metric::spec_sort_key(
                self.hnsw.metric,
                res@[k].raw_score,
            ) by {
                assert(candidates@.contains(res@[k]));
                let j = choose|j: int| 0 <= j < candidates@.len() && candidates@[j] == res@[k];
                assert(candidates@[j] == res@[k]);
            }
        }
        Ok(res)
    }

    /// Vector search with logical payload post-filtering: oversample by 4,
    /// then drop tombstoned and predicate-failing points.  Every returned
    /// id satisfies the predicate.
    pub fn post_filter(&self, query: &Vector, top_k: usize, filter: Option<&Filter>) -> (r: Result<
        Vec<ScoredPoint>,
        DBError,
    >)
        requires
            self.wf(),
            top_k <= usize::MAX / 4,
        ensures
            match r {
                Ok(res) => {
                    &&& results_sorted(res@)
                    &&& res@.len() <= top_k
                    &&& ids_distinct(res@)
                    &&& forall|k: int|
                        0 <= k < res@.len() ==> self.hnsw.spec_live((#[trigger] res@[k]).id)
                            && !self.deleted@.contains(res@[k].id) && (match filter {
                            Some(f) => spec_passes(*f, self.payloads, res@[k].id),
                            None => true,
                        })
                    &&& self.hnsw.spec_results_valid(
                        crate::metric::spec_maybe_normalize(self.hnsw.metric, query@),
                        res@,
                    )
                },
                Err(e) => match e {
                    DBError::SearchError(_) => forall|x: u64| !(#[trigger] self.hnsw.spec_live(x)),
                    DBError::VectorLengthMismatch { expected, actual } => expected
                        == self.hnsw.dim && actual == query@.len() && query@.len()
                        != self.hnsw.dim,
                    _ => false,
                },
            },
            match r {
                Ok(res) => exists|cands: Seq<ScoredPoint>|
                    {
                        &&& #[trigger] results_sorted(cands)
                        &&& ids_distinct(cands)
                        &&& self.hnsw.spec_results_valid(
                            crate::metric::spec_maybe_normalize(self.hnsw.metric, query@),
                            cands,
                        )
                        &&& (top_k >= 1 ==> cands.len() >= 1)
                        &&& res@ == spec_filter_take(
                            cands,
                            self.deleted@,
                            self.payloads,
                            spec_opt_filter(filter),
                            top_k as nat,
                        )
                    },
                Err(_) => true,
            },
    {
        proof {
            self.lemma_deleted_count();
        }
        let total = self.hnsw.len();
        let dlen = self.deleted.len();
        if total - dlen == 0 {
            let msg = String::from_str("No active points available to search.");
            return Err(DBError::SearchError(msg));
        }
        proof {
            if forall|x: u64| !(#[trigger] self.hnsw.spec_live(x)) {
                assert(false);
            }
            assert(self.hnsw.entry_point is Some) by {
                if self.hnsw.entry_point is None {
                    assert(forall|x: u64| !(#[trigger] self.hnsw.spec_live(x)));
                }
            }
        }
        let candidates = match self.hnsw.search(query, top_k * 4) {
            Ok(c) => c,
            Err(e) => {
                return Err(e);
            },
        };
        let res = self.take_filtered(&candidates, top_k, filter);
        proof {
            if top_k >= 1 {
                assert(candidates@.len() >= 1);
            }
            assert(results_sorted(candidates@));
        }
        proof {
            assert forall|k: int| 0 <= k < res@.len() implies self.hnsw.spec_live(
                (#[trigger] res@[k]).id,
            ) && res@[k].raw_score == crate::metric::spec_distance(
                self.hnsw.metric,
                crate::metric::spec_maybe_normalize(self.hnsw.metric, query@),
                self.hnsw.spec_vector_of(res@[k].id),
            ) && res@[k].sort_key == crate::metric::spec_sort_key(
                self.hnsw.metric,
                res@[k].raw_score,
            ) by {
                assert(candidates@.contains(res@[k]));
                let j = choose|j: int| 0 <= j < candidates@.len() && candidates@[j] == res@[k];
                assert(candidates@[j] == res@[k]);
            }
        }
        Ok(res)
    }

    /// In-place filtered search; see `in_place_filtered_search`.  Every
    /// returned id is live, untombstoned and satisfies the filter.
    pub fn search_with_filter(&self, query: &Vector, top_k: usize, filter: Option<&Filter>) -> (r:
        Result<Vec<ScoredPoint>, DBError>)
        requires
            self.wf(),
        ensures
            match r {
                Ok(res) => {
                    &&& results_sorted(res@)
                    &&& res@.len() <= top_k
                    &&& ids_distinct(res@)
                    &&& forall|k: int|
                        0 <= k < res@.len() ==> self.hnsw.spec_live((#[trigger] res@[k]).id)
                            && !self.deleted@.contains(res@[k].id) && (match filter {
                            Some(f) => spec_passes(*f, self.payloads, res@[k].id),
                            None => true,
                        })
                    &&& self.hnsw.spec_results_valid(query@, res@)
                    &&& (match self.hnsw.entry_point {
                        Some(e) => (top_k >= 1 && (match filter {
                            Some(f) => spec_passes(
                                *f,
                                self.payloads,
                                self.hnsw.points@[e as int].id,
                            ),
                            None => true,
                        })) ==> res@.len() >= 1,
                        None => true,
                    })
                },
                Err(e) => query@.len() != self.hnsw.dim && (match e {
                    DBError::VectorLengthMismatch { expected, actual } => expected
                        == self.hnsw.dim && actual == query@.len(),
                    _ => false,
                }),
            },
    {
        proof {
            match self.hnsw.entry_point {
                Some(e) => {
                    let eid = self.hnsw.points@[e as int].id;
                    assert(self.hnsw.spec_live(eid));
                    self.lemma_live_not_tombstoned(eid);
                },
                None => {},
            }
        }
        in_place_filtered_search(
            query,
            top_k,
            &self.hnsw,
            &self.payloads,
            &self.payload_index,
            filter,
            &self.deleted,
        )
    }
}

impl Segment {
    /// Inverted-index consistency: for every live id and every indexable
    /// (field, value) its payload carries, the inverted index files the id
    /// under that pair - and under no other pair.
    pub proof fn lemma_inverted_index_consistent(
        self,
        f: Seq<char>,
        v: PayloadValue,
        x: u64,
    )
        requires
            self.wf(),
        ensures
            self.payload_index.spec_contains(f, v, x) == (self.hnsw.spec_live(x) && (
            match self.payloads.spec_get(x) {
                Some(p) => spec_payload_indexes(p, f, v),
                None => false,
            })),
    {
    }
}

/// Top-K bound, second half: a duplicate-free list of results naming live
/// points can never be longer than the number of live points.
pub proof fn lemma_results_bounded_by_live(hnsw: HNSWIndex, rs: Seq<ScoredPoint>)
    requires
        hnsw.wf(),
        ids_distinct(rs),
        forall|k: int| 0 <= k < rs.len() ==> hnsw.spec_live((#[trigger] rs[k]).id),
    ensures
        rs.len() <= spec_count_flag(hnsw.points@, false),
{
    let ids = Seq::new(rs.len(), |k: int| rs[k].id);
    assert(ids.no_duplicates()) by {
        assert forall|a: int, b: int| 0 <= a < b < ids.len() implies ids[a] != ids[b] by {
            assert(rs[a].id != rs[b].id);
        }
    }
    assert forall|k: int| 0 <= k < ids.len() implies spec_has_flagged(
        hnsw.points@,
        #[trigger] ids[k],
        false,
    ) by {
        assert(hnsw.spec_live(rs[k].id));
        let j = choose|j: int|
            0 <= j < hnsw.points@.len() && (#[trigger] hnsw.points@[j]).id == rs[k].id
                && !hnsw.points@[j].deleted;
    }
    lemma_distinct_flagged_ids_bounded(hnsw.points@, ids, false);
}

} // verus!
