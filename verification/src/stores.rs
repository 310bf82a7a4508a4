//! Inverted payload index: maps (field name, scalar value) to the set of
//! point ids whose payload carries exactly that value at that field.
//! List-typed values are never indexed.

use vstd::prelude::*;
use vstd::string::StringExecFns;
use crate::payload::{
    spec_is_indexable, spec_value_eq, value_eq, Payload, PayloadValue,
    lemma_get_seq_push,
};

verus! {

/// One (field, value) pair and the ids filed under it.
pub struct IndexEntry {
    pub field: String,
    pub value: PayloadValue,
    pub ids: Vec<u64>,
}

/// The entry answers lookups for field name `f` and value `v`.
pub open spec fn spec_pair_match(e: IndexEntry, f: Seq<char>, v: PayloadValue) -> bool {
    e.field@ == f && spec_value_eq(e.value, v)
}

/// First-match lookup of the ids filed under `(f, v)`.
pub open spec fn spec_find_ids(s: Seq<IndexEntry>, f: Seq<char>, v: PayloadValue) -> Option<
    Seq<u64>,
>
    decreases s.len(),
{
    if s.len() == 0 {
        None
    } else if spec_pair_match(s[0], f, v) {
        Some(s[0].ids@)
    } else {
        spec_find_ids(s.skip(1), f, v)
    }
}

/// Inverted index: a list of (field, value) entries with pairwise distinct
/// pairs.
pub struct PayloadIndex {
    pub entries: Vec<IndexEntry>,
}

/// Structural value equality is symmetric and transitive (it compares
/// contents).
pub proof fn lemma_value_eq_sym_trans(a: PayloadValue, b: PayloadValue, c: PayloadValue)
    ensures
        spec_value_eq(a, b) == spec_value_eq(b, a),
        spec_value_eq(a, b) && spec_value_eq(b, c) ==> spec_value_eq(a, c),
{
}

proof fn lemma_find_ids_absent(s: Seq<IndexEntry>, f: Seq<char>, v: PayloadValue)
    requires
        forall|j: int| 0 <= j < s.len() ==> !spec_pair_match(#[trigger] s[j], f, v),
    ensures
        spec_find_ids(s, f, v) == None::<Seq<u64>>,
    decreases s.len(),
{
    if s.len() > 0 {
        lemma_find_ids_absent(s.skip(1), f, v);
    }
}

proof fn lemma_find_ids_none_absent(s: Seq<IndexEntry>, f: Seq<char>, v: PayloadValue)
    requires
        spec_find_ids(s, f, v) == None::<Seq<u64>>,
    ensures
        forall|j: int| 0 <= j < s.len() ==> !spec_pair_match(#[trigger] s[j], f, v),
    decreases s.len(),
{
    if s.len() > 0 {
        lemma_find_ids_none_absent(s.skip(1), f, v);
        assert forall|j: int| 0 <= j < s.len() implies !spec_pair_match(#[trigger] s[j], f, v) by {
            if j > 0 {
                assert(s.skip(1)[j - 1] == s[j]);
            }
        }
    }
}

proof fn lemma_find_ids_exists_some(s: Seq<IndexEntry>, f: Seq<char>, v: PayloadValue)
    requires
        exists|j: int| 0 <= j < s.len() && spec_pair_match(#[trigger] s[j], f, v),
    ensures
        spec_find_ids(s, f, v) is Some,
{
    if spec_find_ids(s, f, v) is None {
        lemma_find_ids_none_absent(s, f, v);
        let j = choose|j: int| 0 <= j < s.len() && spec_pair_match(#[trigger] s[j], f, v);
    }
}

proof fn lemma_find_ids_push(s: Seq<IndexEntry>, e: IndexEntry, f: Seq<char>, v: PayloadValue)
    ensures
        spec_find_ids(s.push(e), f, v) == (if spec_find_ids(s, f, v) is Some {
            spec_find_ids(s, f, v)
        } else if spec_pair_match(e, f, v) {
            Some(e.ids@)
        } else {
            None
        }),
    decreases s.len(),
{
    if s.len() == 0 {
        assert(s.push(e)[0] == e);
        assert(s.push(e).skip(1) =~= Seq::<IndexEntry>::empty());
        assert(spec_find_ids(s.push(e).skip(1), f, v) == None::<Seq<u64>>);
    } else {
        assert(s.push(e)[0] == s[0]);
        assert(s.push(e).skip(1) =~= s.skip(1).push(e));
        lemma_find_ids_push(s.skip(1), e, f, v);
    }
}

proof fn lemma_find_ids_update(
    s: Seq<IndexEntry>,
    i: int,
    e2: IndexEntry,
    f: Seq<char>,
    v: PayloadValue,
)
    requires
        0 <= i < s.len(),
        e2.field@ == s[i].field@,
        e2.value == s[i].value,
        forall|j: int| 0 <= j < i ==> !spec_pair_match(#[trigger] s[j], s[i].field@, s[i].value),
    ensures
        spec_find_ids(s.update(i, e2), f, v) == (if spec_pair_match(s[i], f, v) {
            Some(e2.ids@)
        } else {
            spec_find_ids(s, f, v)
        }),
    decreases s.len(),
{
    if i == 0 {
        assert(s.update(0, e2)[0] == e2);
        assert(s.update(0, e2).skip(1) =~= s.skip(1));
    } else {
        assert(s.update(i, e2)[0] == s[0]);
        assert(s.update(i, e2).skip(1) =~= s.skip(1).update(i - 1, e2));
        assert(forall|j: int|
            0 <= j < i - 1 ==> !spec_pair_match(
                #[trigger] s.skip(1)[j],
                s.skip(1)[i - 1].field@,
                s.skip(1)[i - 1].value,
            ));
        lemma_find_ids_update(s.skip(1), i - 1, e2, f, v);
        if spec_pair_match(s[0], f, v) {
            // The updated entry keeps its pair, and entry 0 does not match
            // the pair of entry i, so lookups for (f, v) still stop at 0.
            assert(!spec_pair_match(s[0], s[i].field@, s[i].value));
        }
    }
}

proof fn lemma_find_ids_remove(s: Seq<IndexEntry>, i: int, f: Seq<char>, v: PayloadValue)
    requires
        0 <= i < s.len(),
        forall|j: int|
            0 <= j < s.len() && j != i ==> !spec_pair_match(
                #[trigger] s[j],
                s[i].field@,
                s[i].value,
            ),
    ensures
        spec_find_ids(s.remove(i), f, v) == (if spec_pair_match(s[i], f, v) {
            None
        } else {
            spec_find_ids(s, f, v)
        }),
    decreases s.len(),
{
    if i == 0 {
        assert(s.remove(0) =~= s.skip(1));
        if spec_pair_match(s[0], f, v) {
            assert forall|j: int| 0 <= j < s.skip(1).len() implies !spec_pair_match(
                #[trigger] s.skip(1)[j],
                f,
                v,
            ) by {
                assert(s.skip(1)[j] == s[j + 1]);
                lemma_value_eq_sym_trans(s[j + 1].value, v, s[0].value);
                lemma_value_eq_sym_trans(s[0].value, v, s[j + 1].value);
                lemma_value_eq_sym_trans(v, s[0].value, s[j + 1].value);
            }
            lemma_find_ids_absent(s.skip(1), f, v);
        }
    } else {
        assert(s.remove(i)[0] == s[0]);
        assert(s.remove(i).skip(1) =~= s.skip(1).remove(i - 1));
        assert(forall|j: int|
            0 <= j < s.skip(1).len() && j != i - 1 ==> !spec_pair_match(
                #[trigger] s.skip(1)[j],
                s.skip(1)[i - 1].field@,
                s.skip(1)[i - 1].value,
            ));
        lemma_find_ids_remove(s.skip(1), i - 1, f, v);
        if spec_pair_match(s[0], f, v) {
            assert(!spec_pair_match(s[0], s[i].field@, s[i].value));
        }
    }
}

impl PayloadIndex {
    /// Pairwise distinct (field, value) pairs, and distinct ids within each
    /// entry.
    pub open spec fn wf(self) -> bool {
        &&& forall|i: int, j: int|
            0 <= i < j < self.entries@.len() ==> !spec_pair_match(
                #[trigger] self.entries@[j],
                (#[trigger] self.entries@[i]).field@,
                self.entries@[i].value,
            )
        &&& forall|i: int|
            0 <= i < self.entries@.len() ==> (#[trigger] self.entries@[i]).ids@.no_duplicates()
    }

    /// The ids filed under `(f, v)`, if that pair is present.
    pub open spec fn spec_ids(self, f: Seq<char>, v: PayloadValue) -> Option<Seq<u64>> {
        spec_find_ids(self.entries@, f, v)
    }

    /// `x` is filed under `(f, v)`.
    pub open spec fn spec_contains(self, f: Seq<char>, v: PayloadValue, x: u64) -> bool {
        match spec_find_ids(self.entries@, f, v) {
            Some(ids) => ids.contains(x),
            None => false,
        }
    }

    pub fn new() -> (r: PayloadIndex)
        ensures
            r.wf(),
            r.entries@.len() == 0,
            forall|f: Seq<char>, v: PayloadValue, x: u64| !r.spec_contains(f, v, x),
            forall|f: Seq<char>, v: PayloadValue| r.spec_ids(f, v) == None::<Seq<u64>>,
    {
        PayloadIndex { entries: Vec::new() }
    }

    /// Index of the entry holding `(key, value)`, if any.
    fn find_entry(&self, key: &str, value: &PayloadValue) -> (r: Option<usize>)
        ensures
            match r {
                Some(i) => i < self.entries@.len() && spec_pair_match(
                    self.entries@[i as int],
                    key@,
                    *value,
                ) && self.spec_ids(key@, *value) == Some(self.entries@[i as int].ids@) && (forall|
                    j: int,
                |
                    0 <= j < i ==> !spec_pair_match(#[trigger] self.entries@[j], key@, *value)),
                None => self.spec_ids(key@, *value) == None::<Seq<u64>>,
            },
    {
        let n = self.entries.len();
        proof {
            assert(self.entries@.skip(0) =~= self.entries@);
        }
        for i in 0..n
            invariant
                n == self.entries@.len(),
                spec_find_ids(self.entries@, key@, *value) == spec_find_ids(
                    self.entries@.skip(i as int),
                    key@,
                    *value,
                ),
                forall|j: int|
                    0 <= j < i ==> !spec_pair_match(#[trigger] self.entries@[j], key@, *value),
        {
            let fields_equal = {
                let bs = String::from_str(key);
                self.entries[i].field == bs
            };
            let hit = fields_equal && value_eq(&self.entries[i].value, value);
            if hit {
                return Some(i);
            }
            proof {
                assert(self.entries@.skip(i as int).skip(1) =~= self.entries@.skip(i + 1));
            }
        }
        None
    }

    /// Add `point_id` under `(key, value)`; no-op when already present.
    fn add_id(&mut self, key: &str, value: &PayloadValue, point_id: u64)
        requires
            old(self).wf(),
        ensures
            final (self).wf(),
            forall|f: Seq<char>, v: PayloadValue, x: u64|
                #[trigger] final (self).spec_contains(f, v, x) == (old(self).spec_contains(f, v, x)
                    || (x == point_id && f == key@ && spec_value_eq(*value, v))),
            forall|f: Seq<char>, v: PayloadValue|
                #[trigger] final (self).spec_ids(f, v) is Some <==> (old(self).spec_ids(f, v)
                    is Some || (f == key@ && spec_value_eq(*value, v))),
    {
        let ghost s0 = self.entries@;
        match self.find_entry(key, value) {
            Some(i) => {
                proof {
                    assert forall|f: Seq<char>, v: PayloadValue|
                        f == key@ && spec_value_eq(*value, v) implies spec_find_ids(s0, f, v)
                        == Some(s0[i as int].ids@) by {
                        lemma_value_eq_sym_trans(s0[i as int].value, *value, v);
                        assert(spec_pair_match(s0[i as int], f, v));
                        assert forall|j: int| 0 <= j < i implies !spec_pair_match(
                            #[trigger] s0[j],
                            f,
                            v,
                        ) by {
                            lemma_value_eq_sym_trans(*value, v, s0[j].value);
                            lemma_value_eq_sym_trans(s0[j].value, v, *value);
                        }
                        lemma_find_ids_at_first_match(s0, i as int, f, v);
                    }
                }
                let mut already = false;
                let m = self.entries[i].ids.len();
                for t in 0..m
                    invariant
                        m == self.entries@[i as int].ids@.len(),
                        i < self.entries@.len(),
                        already == (exists|u: int|
                            0 <= u < t && self.entries@[i as int].ids@[u] == point_id),
                {
                    if self.entries[i].ids[t] == point_id {
                        already = true;
                    }
                }
                if already {
                    proof {
                        assert(s0[i as int].ids@.contains(point_id));
                        assert forall|f: Seq<char>, v: PayloadValue|
                            #[trigger] self.spec_ids(f, v) is Some <==> (old(self).spec_ids(f, v)
                                is Some || (f == key@ && spec_value_eq(*value, v))) by {}
                    }
                    return ;
                }
                let ghost old_ids = self.entries@[i as int].ids@;
                let mut entry = self.entries.remove(i);
                entry.ids.push(point_id);
                let ghost e2 = entry;
                self.entries.insert(i, entry);
                proof {
                    assert(self.entries@ =~= s0.update(i as int, e2));
                    assert(e2.ids@ == old_ids.push(point_id));
                    assert(!old_ids.contains(point_id));
                    assert forall|f: Seq<char>, v: PayloadValue, x: u64| #[trigger]
                        self.spec_contains(f, v, x) == (old(self).spec_contains(f, v, x) || (x
                        == point_id && f == key@ && spec_value_eq(*value, v))) by {
                        lemma_find_ids_update(s0, i as int, e2, f, v);
                        if spec_pair_match(s0[i as int], f, v) {
                            assert(e2.ids@.contains(x) == (old_ids.contains(x) || x == point_id))
                                by {
                                if old_ids.contains(x) {
                                    let k = choose|k: int|
                                        0 <= k < old_ids.len() && old_ids[k] == x;
                                    assert(e2.ids@[k] == x);
                                }
                                if x == point_id {
                                    assert(e2.ids@[old_ids.len() as int] == x);
                                }
                                if e2.ids@.contains(x) {
                                    let k = choose|k: int|
                                        0 <= k < e2.ids@.len() && e2.ids@[k] == x;
                                    if k < old_ids.len() {
                                        assert(old_ids[k] == x);
                                    }
                                }
                            }
                            lemma_value_eq_sym_trans(s0[i as int].value, *value, v);
                            lemma_value_eq_sym_trans(*value, s0[i as int].value, v);
                        } else {
                            if x == point_id && f == key@ && spec_value_eq(*value, v) {
                                lemma_value_eq_sym_trans(s0[i as int].value, *value, v);
                            }
                        }
                    }
                    assert(self.wf()) by {
                        assert forall|a: int, b: int|
                            0 <= a < b < self.entries@.len() implies !spec_pair_match(
                            #[trigger] self.entries@[b],
                            (#[trigger] self.entries@[a]).field@,
                            self.entries@[a].value,
                        ) by {
                            assert(self.entries@[a].field@ == s0[a].field@ && self.entries@[a].value
                                == s0[a].value);
                            assert(self.entries@[b].field@ == s0[b].field@ && self.entries@[b].value
                                == s0[b].value);
                        }
                        assert forall|a: int|
                            0 <= a < self.entries@.len() implies (
                        #[trigger] self.entries@[a]).ids@.no_duplicates() by {
                            if a == i {
                                assert forall|u: int, w: int|
                                    0 <= u < w < e2.ids@.len() implies e2.ids@[u] != e2.ids@[w] by {
                                    if w == old_ids.len() {
                                        if old_ids[u] == point_id {
                                            assert(old_ids.contains(point_id));
                                        }
                                    }
                                }
                            }
                        }
                    }
                    assert forall|f: Seq<char>, v: PayloadValue|
                        #[trigger] self.spec_ids(f, v) is Some <==> (old(self).spec_ids(f, v)
                            is Some || (f == key@ && spec_value_eq(*value, v))) by {
                        lemma_find_ids_update(s0, i as int, e2, f, v);
                        if spec_pair_match(s0[i as int], f, v) {
                            lemma_find_ids_exists_some(s0, f, v);
                        }
                        if f == key@ && spec_value_eq(*value, v) {
                            lemma_value_eq_sym_trans(s0[i as int].value, *value, v);
                            assert(spec_pair_match(s0[i as int], f, v));
                        }
                    }
                }
            },
            None => {
                let mut ids0: Vec<u64> = Vec::new();
                ids0.push(point_id);
                let entry = IndexEntry {
                    field: String::from_str(key),
                    value: value.clone_value(),
                    ids: ids0,
                };
                let ghost ge = entry;
                self.entries.push(entry);
                proof {
                    lemma_find_ids_none_absent(s0, key@, *value);
                    assert forall|f: Seq<char>, v: PayloadValue, x: u64| #[trigger]
                        self.spec_contains(f, v, x) == (old(self).spec_contains(f, v, x) || (x
                        == point_id && f == key@ && spec_value_eq(*value, v))) by {
                        lemma_find_ids_push(s0, ge, f, v);
                        if spec_find_ids(s0, f, v) is Some {
                            if f == key@ && spec_value_eq(*value, v) {
                                lemma_find_ids_some_exists(s0, f, v);
                                let j = choose|j: int|
                                    0 <= j < s0.len() && spec_pair_match(s0[j], f, v);
                                lemma_value_eq_sym_trans(s0[j].value, v, *value);
                                lemma_value_eq_sym_trans(*value, v, s0[j].value);
                                assert(spec_pair_match(s0[j], key@, *value));
                                assert(false);
                            }
                        } else {
                            assert(ge.ids@.len() == 1 && ge.ids@[0] == point_id);
                            assert(ge.ids@.contains(x) == (x == point_id)) by {
                                if x == point_id {
                                    assert(ge.ids@[0] == x);
                                }
                                if ge.ids@.contains(x) {
                                    let k = choose|k: int|
                                        0 <= k < ge.ids@.len() && ge.ids@[k] == x;
                                    assert(k == 0);
                                }
                            }
                            if spec_pair_match(ge, f, v) {
                                lemma_value_eq_sym_trans(*value, ge.value, v);
                                lemma_value_eq_sym_trans(ge.value, *value, v);
                                assert(f == key@ && spec_value_eq(*value, v));
                            } else {
                                if f == key@ && spec_value_eq(*value, v) {
                                    lemma_value_eq_sym_trans(ge.value, *value, v);
                                    assert(spec_pair_match(ge, f, v));
                                }
                            }
                        }
                    }
                    assert(self.wf()) by {
                        assert forall|a: int, b: int|
                            0 <= a < b < self.entries@.len() implies !spec_pair_match(
                            #[trigger] self.entries@[b],
                            (#[trigger] self.entries@[a]).field@,
                            self.entries@[a].value,
                        ) by {
                            if b == self.entries@.len() - 1 {
                                if spec_pair_match(ge, s0[a].field@, s0[a].value) {
                                    lemma_value_eq_sym_trans(*value, ge.value, s0[a].value);
                                    lemma_value_eq_sym_trans(s0[a].value, *value, *value);
                                    lemma_value_eq_sym_trans(*value, s0[a].value, *value);
                                    assert(spec_value_eq(s0[a].value, *value));
                                    assert(spec_pair_match(s0[a], key@, *value));
                                }
                            }
                        }
                        assert(ge.ids@.no_duplicates());
                    }
                    assert forall|f: Seq<char>, v: PayloadValue|
                        #[trigger] self.spec_ids(f, v) is Some <==> (old(self).spec_ids(f, v)
                            is Some || (f == key@ && spec_value_eq(*value, v))) by {
                        lemma_find_ids_push(s0, ge, f, v);
                        if spec_pair_match(ge, f, v) {
                            lemma_value_eq_sym_trans(*value, ge.value, v);
                            lemma_value_eq_sym_trans(ge.value, *value, v);
                        }
                        if f == key@ && spec_value_eq(*value, v) {
                            lemma_value_eq_sym_trans(ge.value, *value, v);
                            assert(spec_pair_match(ge, f, v));
                        }
                    }
                }
            },
        }
    }
}

proof fn lemma_find_ids_some_exists(s: Seq<IndexEntry>, f: Seq<char>, v: PayloadValue)
    requires
        spec_find_ids(s, f, v) is Some,
    ensures
        exists|j: int| 0 <= j < s.len() && spec_pair_match(#[trigger] s[j], f, v),
    decreases s.len(),
{
    if s.len() > 0 {
        if spec_pair_match(s[0], f, v) {
        } else {
            lemma_find_ids_some_exists(s.skip(1), f, v);
            let j = choose|j: int| 0 <= j < s.skip(1).len() && spec_pair_match(s.skip(1)[j], f, v);
            assert(s.skip(1)[j] == s[j + 1]);
        }
    }
}

/// The payload files `id` under `(f, v)`: its field `f` holds an indexable
/// value structurally equal to `v`.
pub open spec fn spec_payload_indexes(p: Payload, f: Seq<char>, v: PayloadValue) -> bool {
    match p.spec_get(f) {
        Some(pv) => spec_is_indexable(pv) && spec_value_eq(pv, v),
        None => false,
    }
}

/// The same, over a prefix of the payload's entries.
pub open spec fn spec_entries_index(
    s: Seq<(String, PayloadValue)>,
    f: Seq<char>,
    v: PayloadValue,
) -> bool {
    match crate::payload::spec_get_seq(s, f) {
        Some(pv) => spec_is_indexable(pv) && spec_value_eq(pv, v),
        None => false,
    }
}

proof fn lemma_remove_pos_contains(ids: Seq<u64>, pos: int, x: u64)
    requires
        0 <= pos < ids.len(),
        ids.no_duplicates(),
    ensures
        ids.remove(pos).contains(x) == (ids.contains(x) && x != ids[pos]),
        ids.remove(pos).no_duplicates(),
{
    let r = ids.remove(pos);
    if r.contains(x) {
        let k = choose|k: int| 0 <= k < r.len() && r[k] == x;
        if k < pos {
            assert(ids[k] == x);
        } else {
            assert(ids[k + 1] == x);
        }
        assert(ids.contains(x));
        assert(x != ids[pos]);
    }
    if ids.contains(x) && x != ids[pos] {
        let k = choose|k: int| 0 <= k < ids.len() && ids[k] == x;
        if k < pos {
            assert(r[k] == x);
        } else {
            assert(r[k - 1] == x);
        }
        assert(r.contains(x));
    }
    assert forall|a: int, b: int| 0 <= a < b < r.len() implies r[a] != r[b] by {
        let ia: int = if a < pos { a } else { a + 1 };
        let ib: int = if b < pos { b } else { b + 1 };
        assert(r[a] == ids[ia] && r[b] == ids[ib]);
    }
}

impl PayloadIndex {
    /// Remove `point_id` from under `(key, value)`; drops the entry when its
    /// id set becomes empty.
    fn remove_id(&mut self, key: &str, value: &PayloadValue, point_id: u64)
        requires
            old(self).wf(),
        ensures
            final (self).wf(),
            forall|f: Seq<char>, v: PayloadValue, x: u64|
                #[trigger] final (self).spec_contains(f, v, x) == (old(self).spec_contains(f, v, x)
                    && !(x == point_id && f == key@ && spec_value_eq(*value, v))),
            forall|f: Seq<char>, v: PayloadValue|
                #[trigger] final (self).spec_ids(f, v) is Some <==> (old(self).spec_ids(f, v)
                    is Some && !(f == key@ && spec_value_eq(*value, v) && old(self).spec_ids(f, v)
                    == Some(seq![point_id]))),
            forall|f: Seq<char>, v: PayloadValue|
                !(f == key@ && spec_value_eq(*value, v)) ==> #[trigger] final (self).spec_ids(f, v)
                    == old(self).spec_ids(f, v),
    {
        let ghost s0 = self.entries@;
        match self.find_entry(key, value) {
            Some(i) => {
                proof {
                    assert forall|f: Seq<char>, v: PayloadValue|
                        f == key@ && spec_value_eq(*value, v) implies spec_pair_match(
                        s0[i as int],
                        f,
                        v,
                    ) && spec_find_ids(s0, f, v) == Some(s0[i as int].ids@) by {
                        lemma_value_eq_sym_trans(s0[i as int].value, *value, v);
                        assert forall|j: int| 0 <= j < i implies !spec_pair_match(
                            #[trigger] s0[j],
                            f,
                            v,
                        ) by {
                            lemma_value_eq_sym_trans(*value, v, s0[j].value);
                            lemma_value_eq_sym_trans(s0[j].value, v, *value);
                        }
                        lemma_find_ids_at_first_match(s0, i as int, f, v);
                    }
                }
                let mut pos_opt: Option<usize> = None;
                let m = self.entries[i].ids.len();
                for t in 0..m
                    invariant
                        m == self.entries@[i as int].ids@.len(),
                        i < self.entries@.len(),
                        match pos_opt {
                            Some(q) => q < m && self.entries@[i as int].ids@[q as int] == point_id,
                            None => forall|u: int|
                                0 <= u < t ==> self.entries@[i as int].ids@[u] != point_id,
                        },
                {
                    if self.entries[i].ids[t] == point_id {
                        if pos_opt.is_none() {
                            pos_opt = Some(t);
                        }
                    }
                }
                match pos_opt {
                    None => {
                        proof {
                            assert(!s0[i as int].ids@.contains(point_id));
                            assert forall|f: Seq<char>, v: PayloadValue, x: u64| #[trigger]
                                self.spec_contains(f, v, x) == (old(self).spec_contains(f, v, x)
                                && !(x == point_id && f == key@ && spec_value_eq(*value, v))) by {
                                if x == point_id && f == key@ && spec_value_eq(*value, v) {
                                    assert(spec_find_ids(s0, f, v) == Some(s0[i as int].ids@));
                                }
                            }
                            assert forall|f: Seq<char>, v: PayloadValue|
                                #[trigger] self.spec_ids(f, v) is Some <==> (old(self).spec_ids(
                                f,
                                v,
                            ) is Some && !(f == key@ && spec_value_eq(*value, v) && old(
                                self,
                            ).spec_ids(f, v) == Some(seq![point_id]))) by {
                                if f == key@ && spec_value_eq(*value, v) {
                                    assert(spec_find_ids(s0, f, v) == Some(s0[i as int].ids@));
                                    if s0[i as int].ids@ == seq![point_id] {
                                        assert(seq![point_id][0] == point_id);
                                        assert(s0[i as int].ids@.contains(point_id));
                                    }
                                }
                            }
                        }
                    },
                    Some(pos) => {
                        let ghost old_ids = self.entries@[i as int].ids@;
                        let mut entry = self.entries.remove(i);
                        entry.ids.remove(pos);
                        if entry.ids.len() == 0 {
                            proof {
                                let ghost rem = old_ids.remove(pos as int);
                                assert(self.entries@ =~= s0.remove(i as int));
                                lemma_remove_pos_contains(old_ids, pos as int, point_id);
                                assert forall|f: Seq<char>, v: PayloadValue, x: u64| #[trigger]
                                    self.spec_contains(f, v, x) == (old(self).spec_contains(
                                    f,
                                    v,
                                    x,
                                ) && !(x == point_id && f == key@ && spec_value_eq(*value, v)))
                                    by {
                                    lemma_find_ids_remove(s0, i as int, f, v);
                                    if spec_pair_match(s0[i as int], f, v) {
                                        lemma_value_eq_sym_trans(s0[i as int].value, *value, v);
                                        lemma_value_eq_sym_trans(*value, s0[i as int].value, v);
                                        assert(old_ids.len() == 1);
                                        assert(old_ids[0] == point_id);
                                        assert forall|x2: u64|
                                            old_ids.contains(x2) implies x2 == point_id by {
                                            let k = choose|k: int|
                                                0 <= k < old_ids.len() && old_ids[k] == x2;
                                            assert(k == 0);
                                        }
                                    } else {
                                        if x == point_id && f == key@ && spec_value_eq(
                                            *value,
                                            v,
                                        ) {
                                            lemma_value_eq_sym_trans(
                                                s0[i as int].value,
                                                *value,
                                                v,
                                            );
                                        }
                                    }
                                }
                                assert(self.wf()) by {
                                    assert forall|a: int, b: int|
                                        0 <= a < b < self.entries@.len() implies !spec_pair_match(
                                        #[trigger] self.entries@[b],
                                        (#[trigger] self.entries@[a]).field@,
                                        self.entries@[a].value,
                                    ) by {
                                        let ia: int = if a < i {
                                            a
                                        } else {
                                            a + 1
                                        };
                                        let ib: int = if b < i {
                                            b
                                        } else {
                                            b + 1
                                        };
                                        assert(self.entries@[a] == s0[ia] && self.entries@[b]
                                            == s0[ib]);
                                    }
                                    assert forall|a: int|
                                        0 <= a < self.entries@.len() implies (
                                    #[trigger] self.entries@[a]).ids@.no_duplicates() by {
                                        let ia: int = if a < i {
                                            a
                                        } else {
                                            a + 1
                                        };
                                        assert(self.entries@[a] == s0[ia]);
                                    }
                                }
                                assert forall|f: Seq<char>, v: PayloadValue|
                                    #[trigger] self.spec_ids(f, v) is Some <==> (old(
                                    self,
                                ).spec_ids(f, v) is Some && !(f == key@ && spec_value_eq(
                                    *value,
                                    v,
                                ) && old(self).spec_ids(f, v) == Some(seq![point_id]))) by {
                                    lemma_find_ids_remove(s0, i as int, f, v);
                                    if spec_pair_match(s0[i as int], f, v) {
                                        lemma_value_eq_sym_trans(s0[i as int].value, *value, v);
                                        lemma_value_eq_sym_trans(*value, s0[i as int].value, v);
                                        assert(f == key@ && spec_value_eq(*value, v));
                                        assert(spec_find_ids(s0, f, v) == Some(old_ids));
                                        assert(old_ids.len() == 1 && old_ids[0] == point_id);
                                        assert(old_ids =~= seq![point_id]);
                                    } else {
                                        if f == key@ && spec_value_eq(*value, v) {
                                            lemma_value_eq_sym_trans(
                                                s0[i as int].value,
                                                *value,
                                                v,
                                            );
                                        }
                                    }
                                }
                                assert forall|f: Seq<char>, v: PayloadValue|
                                    !(f == key@ && spec_value_eq(*value, v)) implies #[trigger]
                                    self.spec_ids(f, v) == old(self).spec_ids(f, v) by {
                                    lemma_find_ids_remove(s0, i as int, f, v);
                                    if spec_pair_match(s0[i as int], f, v) {
                                        lemma_value_eq_sym_trans(s0[i as int].value, *value, v);
                                        lemma_value_eq_sym_trans(*value, s0[i as int].value, v);
                                    }
                                }
                            }
                        } else {
                            let ghost e2 = entry;
                            self.entries.insert(i, entry);
                            proof {
                                assert(self.entries@ =~= s0.update(i as int, e2));
                                assert(e2.ids@ == old_ids.remove(pos as int));
                                lemma_remove_pos_contains(old_ids, pos as int, point_id);
                                assert forall|f: Seq<char>, v: PayloadValue, x: u64| #[trigger]
                                    self.spec_contains(f, v, x) == (old(self).spec_contains(
                                    f,
                                    v,
                                    x,
                                ) && !(x == point_id && f == key@ && spec_value_eq(*value, v)))
                                    by {
                                    lemma_find_ids_update(s0, i as int, e2, f, v);
                                    if spec_pair_match(s0[i as int], f, v) {
                                        lemma_value_eq_sym_trans(s0[i as int].value, *value, v);
                                        lemma_value_eq_sym_trans(*value, s0[i as int].value, v);
                                        assert(forall|x2: u64|
                                            e2.ids@.contains(x2) == (old_ids.contains(x2) && x2
                                                != point_id)) by {
                                            assert forall|x2: u64| true implies #[trigger] e2.ids@.contains(x2)
                                                == (old_ids.contains(x2) && x2 != point_id) by {
                                                lemma_remove_pos_contains(
                                                    old_ids,
                                                    pos as int,
                                                    x2,
                                                );
                                            }
                                        }
                                    } else {
                                        if x == point_id && f == key@ && spec_value_eq(
                                            *value,
                                            v,
                                        ) {
                                            lemma_value_eq_sym_trans(
                                                s0[i as int].value,
                                                *value,
                                                v,
                                            );
                                        }
                                    }
                                }
                                assert(self.wf()) by {
                                    assert forall|a: int, b: int|
                                        0 <= a < b < self.entries@.len() implies !spec_pair_match(
                                        #[trigger] self.entries@[b],
                                        (#[trigger] self.entries@[a]).field@,
                                        self.entries@[a].value,
                                    ) by {
                                        assert(self.entries@[a].field@ == s0[a].field@
                                            && self.entries@[a].value == s0[a].value);
                                        assert(self.entries@[b].field@ == s0[b].field@
                                            && self.entries@[b].value == s0[b].value);
                                    }
                                }
                                assert forall|f: Seq<char>, v: PayloadValue|
                                    #[trigger] self.spec_ids(f, v) is Some <==> (old(
                                    self,
                                ).spec_ids(f, v) is Some && !(f == key@ && spec_value_eq(
                                    *value,
                                    v,
                                ) && old(self).spec_ids(f, v) == Some(seq![point_id]))) by {
                                    lemma_find_ids_update(s0, i as int, e2, f, v);
                                    if spec_pair_match(s0[i as int], f, v) {
                                        lemma_value_eq_sym_trans(*value, s0[i as int].value, v);
                                        lemma_value_eq_sym_trans(s0[i as int].value, *value, v);
                                        assert(f == key@ && spec_value_eq(*value, v));
                                        assert(spec_find_ids(s0, f, v) == Some(old_ids));
                                        if old_ids == seq![point_id] {
                                            assert(old_ids.len() == 1);
                                        }
                                    } else {
                                        if f == key@ && spec_value_eq(*value, v) {
                                            lemma_value_eq_sym_trans(
                                                s0[i as int].value,
                                                *value,
                                                v,
                                            );
                                        }
                                    }
                                }
                                assert forall|f: Seq<char>, v: PayloadValue|
                                    !(f == key@ && spec_value_eq(*value, v)) implies #[trigger]
                                    self.spec_ids(f, v) == old(self).spec_ids(f, v) by {
                                    lemma_find_ids_update(s0, i as int, e2, f, v);
                                    if spec_pair_match(s0[i as int], f, v) {
                                        lemma_value_eq_sym_trans(s0[i as int].value, *value, v);
                                        lemma_value_eq_sym_trans(*value, s0[i as int].value, v);
                                    }
                                }
                            }
                        }
                    },
                }
            },
            None => {
                proof {
                    assert forall|f: Seq<char>, v: PayloadValue, x: u64| #[trigger]
                        self.spec_contains(f, v, x) == (old(self).spec_contains(f, v, x) && !(x
                        == point_id && f == key@ && spec_value_eq(*value, v))) by {
                        if x == point_id && f == key@ && spec_value_eq(*value, v) {
                            if spec_find_ids(s0, f, v) is Some {
                                lemma_find_ids_some_exists(s0, f, v);
                                let j = choose|j: int|
                                    0 <= j < s0.len() && spec_pair_match(s0[j], f, v);
                                lemma_value_eq_sym_trans(s0[j].value, v, *value);
                                lemma_value_eq_sym_trans(*value, v, s0[j].value);
                                assert(spec_pair_match(s0[j], key@, *value));
                                lemma_find_ids_none_absent(s0, key@, *value);
                                assert(false);
                            }
                        }
                    }
                    assert forall|f: Seq<char>, v: PayloadValue|
                        #[trigger] self.spec_ids(f, v) is Some <==> (old(self).spec_ids(f, v)
                            is Some && !(f == key@ && spec_value_eq(*value, v) && old(
                            self,
                        ).spec_ids(f, v) == Some(seq![point_id]))) by {
                        if f == key@ && spec_value_eq(*value, v) && spec_find_ids(s0, f, v)
                            is Some {
                            lemma_find_ids_some_exists(s0, f, v);
                            let j = choose|j: int|
                                0 <= j < s0.len() && spec_pair_match(s0[j], f, v);
                            lemma_value_eq_sym_trans(s0[j].value, v, *value);
                            lemma_value_eq_sym_trans(*value, v, s0[j].value);
                            assert(spec_pair_match(s0[j], key@, *value));
                            lemma_find_ids_none_absent(s0, key@, *value);
                            assert(false);
                        }
                    }
                }
            },
        }
    }

    /// Indexes the payload of a given point: files the id under every
    /// (field, scalar value) pair of the payload.
    pub fn insert(&mut self, point_id: u64, payload: &Payload)
        requires
            old(self).wf(),
            payload.wf(),
        ensures
            final (self).wf(),
            forall|f: Seq<char>, v: PayloadValue, x: u64|
                #[trigger] final (self).spec_contains(f, v, x) == (old(self).spec_contains(f, v, x)
                    || (x == point_id && spec_payload_indexes(*payload, f, v))),
            forall|f: Seq<char>, v: PayloadValue|
                #[trigger] final (self).spec_ids(f, v) is Some <==> (old(self).spec_ids(f, v)
                    is Some || spec_payload_indexes(*payload, f, v)),
    {
        let ghost pp = payload.entries@;
        let n = payload.entries.len();
        proof {
            assert(pp.subrange(0, 0) =~= Seq::<(String, PayloadValue)>::empty());
        }
        for i in 0..n
            invariant
                self.wf(),
                payload.wf(),
                n == pp.len(),
                pp == payload.entries@,
                forall|f: Seq<char>, v: PayloadValue, x: u64|
                    #[trigger] self.spec_contains(f, v, x) == (old(self).spec_contains(f, v, x)
                        || (x == point_id && spec_entries_index(pp.subrange(0, i as int), f, v))),
                forall|f: Seq<char>, v: PayloadValue|
                    #[trigger] self.spec_ids(f, v) is Some <==> (old(self).spec_ids(f, v) is Some
                        || spec_entries_index(pp.subrange(0, i as int), f, v)),
        {
            let ghost prefix = pp.subrange(0, i as int);
            proof {
                assert(pp.subrange(0, i + 1) =~= prefix.push(pp[i as int]));
                assert forall|j: int| 0 <= j < prefix.len() implies (#[trigger] prefix[j]).0@
                    != pp[i as int].0@ by {
                    assert(prefix[j] == pp[j]);
                }
                crate::payload::lemma_get_seq_absent(prefix, pp[i as int].0@);
            }
            let indexable = payload.entries[i].1.is_indexable();
            if indexable {
                let (k, v) = (&payload.entries[i].0, &payload.entries[i].1);
                self.add_id(k.as_str(), v, point_id);
            }
            proof {
                let ghost prefix2 = pp.subrange(0, i + 1);
                assert forall|f: Seq<char>, v2: PayloadValue| true implies #[trigger]
                    spec_entries_index(prefix2, f, v2) == (spec_entries_index(prefix, f, v2) || (
                spec_is_indexable(pp[i as int].1) && f == pp[i as int].0@ && spec_value_eq(
                    pp[i as int].1,
                    v2,
                ))) by {
                    lemma_get_seq_push(prefix, pp[i as int], f);
                }
            }
        }
        proof {
            assert(pp.subrange(0, n as int) =~= pp);
        }
    }

    /// Removes a point's payload from the index: the id leaves every
    /// (field, scalar value) pair of the payload; emptied entries are
    /// dropped.
    pub fn remove(&mut self, point_id: u64, payload: &Payload)
        requires
            old(self).wf(),
            payload.wf(),
        ensures
            final (self).wf(),
            forall|f: Seq<char>, v: PayloadValue, x: u64|
                #[trigger] final (self).spec_contains(f, v, x) == (old(self).spec_contains(f, v, x)
                    && !(x == point_id && spec_payload_indexes(*payload, f, v))),
            forall|f: Seq<char>, v: PayloadValue|
                #[trigger] final (self).spec_ids(f, v) is Some <==> (old(self).spec_ids(f, v)
                    is Some && !(spec_payload_indexes(*payload, f, v) && old(self).spec_ids(f, v)
                    == Some(seq![point_id]))),
    {
        let ghost pp = payload.entries@;
        let n = payload.entries.len();
        proof {
            assert(pp.subrange(0, 0) =~= Seq::<(String, PayloadValue)>::empty());
        }
        for i in 0..n
            invariant
                self.wf(),
                payload.wf(),
                n == pp.len(),
                pp == payload.entries@,
                forall|f: Seq<char>, v: PayloadValue, x: u64|
                    #[trigger] self.spec_contains(f, v, x) == (old(self).spec_contains(f, v, x)
                        && !(x == point_id && spec_entries_index(pp.subrange(0, i as int), f, v))),
                forall|f: Seq<char>, v: PayloadValue|
                    #[trigger] self.spec_ids(f, v) is Some <==> (old(self).spec_ids(f, v) is Some
                        && !(spec_entries_index(pp.subrange(0, i as int), f, v) && old(
                        self,
                    ).spec_ids(f, v) == Some(seq![point_id]))),
                forall|f: Seq<char>, v: PayloadValue|
                    !spec_entries_index(pp.subrange(0, i as int), f, v) ==> #[trigger] self.spec_ids(
                        f,
                        v,
                    ) == old(self).spec_ids(f, v),
        {
            let ghost prefix = pp.subrange(0, i as int);
            proof {
                assert(pp.subrange(0, i + 1) =~= prefix.push(pp[i as int]));
                assert forall|j: int| 0 <= j < prefix.len() implies (#[trigger] prefix[j]).0@
                    != pp[i as int].0@ by {
                    assert(prefix[j] == pp[j]);
                }
                crate::payload::lemma_get_seq_absent(prefix, pp[i as int].0@);
            }
            let indexable = payload.entries[i].1.is_indexable();
            if indexable {
                let (k, v) = (&payload.entries[i].0, &payload.entries[i].1);
                self.remove_id(k.as_str(), v, point_id);
            }
            proof {
                let ghost prefix2 = pp.subrange(0, i + 1);
                assert forall|f: Seq<char>, v2: PayloadValue| true implies #[trigger]
                    spec_entries_index(prefix2, f, v2) == (spec_entries_index(prefix, f, v2) || (
                spec_is_indexable(pp[i as int].1) && f == pp[i as int].0@ && spec_value_eq(
                    pp[i as int].1,
                    v2,
                ))) by {
                    lemma_get_seq_push(prefix, pp[i as int], f);
                }
            }
        }
        proof {
            assert(pp.subrange(0, n as int) =~= pp);
        }
    }

    /// Returns the ids that match exactly this key-value pair, or nothing
    /// when the value is not indexable or the pair is absent.
    pub fn query_exact(&self, key: &str, value: &PayloadValue) -> (r: Option<&Vec<u64>>)
        ensures
            match r {
                Some(ids) => spec_is_indexable(*value) && self.spec_ids(key@, *value) == Some(
                    ids@,
                ),
                None => !spec_is_indexable(*value) || self.spec_ids(key@, *value) == None::<
                    Seq<u64>,
                >,
            },
    {
        if !value.is_indexable() {
            return None;
        }
        match self.find_entry(key, value) {
            Some(i) => Some(&self.entries[i].ids),
            None => None,
        }
    }

    /// Returns all point ids that have any value for the given key, or
    /// nothing when the field was never indexed.
    pub fn all_for_key(&self, key: &str) -> (r: Option<Vec<u64>>)
        ensures
            match r {
                Some(ids) => (exists|j: int|
                    0 <= j < self.entries@.len() && (#[trigger] self.entries@[j]).field@ == key@)
                    && ids@.no_duplicates() && (forall|x: u64|
                    #[trigger] ids@.contains(x) == (exists|j: int|
                        0 <= j < self.entries@.len() && (#[trigger] self.entries@[j]).field@
                            == key@ && self.entries@[j].ids@.contains(x))),
                None => forall|j: int|
                    0 <= j < self.entries@.len() ==> (#[trigger] self.entries@[j]).field@ != key@,
            },
    {
        let mut found = false;
        let mut out: Vec<u64> = Vec::new();
        let n = self.entries.len();
        for i in 0..n
            invariant
                n == self.entries@.len(),
                found == (exists|j: int|
                    0 <= j < i && (#[trigger] self.entries@[j]).field@ == key@),
                out@.no_duplicates(),
                forall|x: u64|
                    #[trigger] out@.contains(x) == (exists|j: int|
                        0 <= j < i && (#[trigger] self.entries@[j]).field@ == key@
                            && self.entries@[j].ids@.contains(x)),
        {
            let field_hit = {
                let bs = String::from_str(key);
                self.entries[i].field == bs
            };
            if field_hit {
                found = true;
                let m = self.entries[i].ids.len();
                for t in 0..m
                    invariant
                        n == self.entries@.len(),
                        i < n,
                        m == self.entries@[i as int].ids@.len(),
                        self.entries@[i as int].field@ == key@,
                        out@.no_duplicates(),
                        forall|x: u64|
                            #[trigger] out@.contains(x) == ((exists|j: int|
                                0 <= j < i && (#[trigger] self.entries@[j]).field@ == key@
                                    && self.entries@[j].ids@.contains(x)) || (exists|u: int|
                                0 <= u < t && self.entries@[i as int].ids@[u] == x)),
                {
                    let id = self.entries[i].ids[t];
                    let mut present = false;
                    let w = out.len();
                    for q in 0..w
                        invariant
                            w == out@.len(),
                            present == (exists|u: int| 0 <= u < q && out@[u] == id),
                    {
                        if out[q] == id {
                            present = true;
                        }
                    }
                    proof {
                        if present {
                            assert(out@.contains(id));
                        } else {
                            assert(!out@.contains(id)) by {
                                if out@.contains(id) {
                                    let u = choose|u: int|
                                        0 <= u < out@.len() && out@[u] == id;
                                    assert(exists|u2: int| 0 <= u2 < w && out@[u2] == id);
                                }
                            }
                        }
                    }
                    if !present {
                        let ghost out0 = out@;
                        out.push(id);
                        proof {
                            assert forall|x: u64| true implies #[trigger] out@.contains(x) == (
                            out0.contains(x) || x == id) by {
                                if out0.contains(x) {
                                    let k2 = choose|k2: int|
                                        0 <= k2 < out0.len() && out0[k2] == x;
                                    assert(out@[k2] == x);
                                }
                                if x == id {
                                    assert(out@[out0.len() as int] == x);
                                }
                                if out@.contains(x) {
                                    let k2 = choose|k2: int|
                                        0 <= k2 < out@.len() && out@[k2] == x;
                                    if k2 < out0.len() {
                                        assert(out0[k2] == x);
                                    }
                                }
                            }
                            assert(out@.no_duplicates()) by {
                                assert forall|a: int, b: int|
                                    0 <= a < b < out@.len() implies out@[a] != out@[b] by {
                                    if b == out0.len() {
                                        if out0[a] == id {
                                            assert(out0.contains(id));
                                        }
                                    }
                                }
                            }
                            assert(self.entries@[i as int].ids@[t as int] == id);
                        }
                    }
                }
                proof {
                    assert forall|x: u64| true implies ((exists|u: int|
                        0 <= u < m && self.entries@[i as int].ids@[u] == x)
                        == self.entries@[i as int].ids@.contains(x)) by {}
                }
            } else {
            }
        }
        if found {
            Some(out)
        } else {
            None
        }
    }
}

/// When the first match sits at index `i`, the lookup returns its ids.
proof fn lemma_find_ids_at_first_match(s: Seq<IndexEntry>, i: int, f: Seq<char>, v: PayloadValue)
    requires
        0 <= i < s.len(),
        spec_pair_match(s[i], f, v),
        forall|j: int| 0 <= j < i ==> !spec_pair_match(#[trigger] s[j], f, v),
    ensures
        spec_find_ids(s, f, v) == Some(s[i].ids@),
    decreases i,
{
    if i > 0 {
        assert(s.skip(1)[i - 1] == s[i]);
        assert(forall|j: int|
            0 <= j < i - 1 ==> !spec_pair_match(#[trigger] s.skip(1)[j], f, v));
        lemma_find_ids_at_first_match(s.skip(1), i - 1, f, v);
    }
}

} // verus!
