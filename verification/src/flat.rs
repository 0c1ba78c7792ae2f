//! Exact nearest-neighbour search by scanning every stored vector.
use vstd::prelude::*;
use crate::buffer::{BufferView, SoABuffer};
use crate::error::ParsecError;
use crate::types::{distance_key, lemma_order_key_ranking, order_key, DistanceMetric, VectorId};

verus! {

/// A scored vector of a search: its id and its distance to the query, as
/// the bit pattern of an `f32`.
#[derive(Debug, Clone, Copy)]
pub struct SearchResult {
    pub id: VectorId,
    pub distance: u32,
}

/// The distances of `rs` never decrease, in the order of `order_key`.
pub open spec fn sorted_by_distance(rs: Seq<SearchResult>) -> bool {
    forall|a: int, b: int|
        0 <= a < b < rs.len() ==> order_key(#[trigger] rs[a].distance) <= order_key(
            #[trigger] rs[b].distance,
        )
}

/// `d` is a value that the distance function `f` returned for the query
/// `query`, a vector whose coordinates are `v`, and `metric`.
pub open spec fn returned_distance<F: Fn(&[u32], &[u32], DistanceMetric) -> u32>(
    f: F,
    query: &[u32],
    v: Seq<u32>,
    metric: DistanceMetric,
    d: u32,
) -> bool {
    exists|s: &[u32]| s@ == v && #[trigger] f.ensures((query, s, metric), d)
}

/// `res` is a top-`k` selection among the candidates `(ids[j], ds[j])`:
/// the entries `sel` of the candidates, `min(k, n)` of them, without
/// repetition, nearest first, and no candidate left out is nearer than
/// the last one taken.
pub open spec fn selects_top_k(
    res: Seq<SearchResult>,
    ids: Seq<u64>,
    ds: Seq<u32>,
    k: nat,
    sel: Seq<int>,
) -> bool {
    &&& ids.len() == ds.len()
    &&& res.len() == if k < ids.len() { k } else { ids.len() }
    &&& sel.len() == res.len()
    &&& sel.no_duplicates()
    &&& forall|t: int|
        0 <= t < sel.len() ==> 0 <= #[trigger] sel[t] < ids.len() && res[t] == (SearchResult {
            id: ids[sel[t]],
            distance: ds[sel[t]],
        })
    &&& sorted_by_distance(res)
    &&& forall|j: int|
        0 <= j < ids.len() && !sel.contains(j) ==> order_key(#[trigger] ds[j]) >= order_key(
            res.last().distance,
        )
}

/// Inserts `r` into the sorted `v` after every entry that is not farther.
pub(crate) fn insert_sorted(v: &mut Vec<SearchResult>, r: SearchResult) -> (p: usize)
    requires
        sorted_by_distance(old(v)@),
    ensures
        p <= old(v)@.len(),
        final(v)@ == old(v)@.insert(p as int, r),
        sorted_by_distance(final(v)@),
{
    let mut p: usize = 0;
    let key = distance_key(r.distance);
    while p < v.len() && distance_key(v[p].distance) <= key
        invariant
            p <= v@.len(),
            forall|t: int| 0 <= t < p ==> order_key(#[trigger] v@[t].distance) <= key,
            key == order_key(r.distance),
        decreases v@.len() - p,
    {
        p = p + 1;
    }
    let ghost before = v@;
    v.insert(p, r);
    proof {
        assert forall|a: int, b: int| 0 <= a < b < v@.len() implies order_key(
            #[trigger] v@[a].distance,
        ) <= order_key(#[trigger] v@[b].distance) by {
            if a < p && b < p {
                assert(v@[a] == before[a] && v@[b] == before[b]);
            } else if a < p && b == p {
            } else if a < p {
                assert(v@[a] == before[a] && v@[b] == before[b - 1]);
            } else if a == p {
                assert(v@[b] == before[b - 1]);
                assert(p < before.len());
                assert(order_key(before[p as int].distance) > key);
                assert(order_key(before[p as int].distance) <= order_key(before[b - 1].distance));
            } else {
                assert(v@[a] == before[a - 1] && v@[b] == before[b - 1]);
            }
        }
    }
    p
}

/// An index that answers queries by comparing the query with every stored
/// vector.
pub struct FlatIndex {
    buffer: SoABuffer,
    metric: DistanceMetric,
}

impl FlatIndex {
    pub closed spec fn wf(&self) -> bool {
        self.buffer.wf()
    }

    /// The stored vectors and their ids.
    pub closed spec fn contents(&self) -> BufferView {
        self.buffer@
    }

    /// The metric of the index.
    pub closed spec fn spec_metric(&self) -> DistanceMetric {
        self.metric
    }

    /// An empty index for vectors of `dimension` coordinates.
    pub fn new(dimension: usize, capacity: usize, metric: DistanceMetric) -> (idx: Self)
        ensures
            idx.wf(),
            idx.spec_metric() == metric,
            idx.contents() == (BufferView {
                dimension: dimension as nat,
                ids: Seq::empty(),
                vectors: Seq::empty(),
            }),
    {
        FlatIndex { buffer: SoABuffer::new(dimension, capacity), metric }
    }

    /// The metric of the index.
    pub fn metric(&self) -> (m: DistanceMetric)
        ensures
            m == self.spec_metric(),
    {
        self.metric
    }

    /// Stores `vector` under `id`; a vector of another dimension is refused
    /// and leaves the index unchanged.
    pub fn insert(&mut self, id: VectorId, vector: &[u32]) -> (r: Result<(), ParsecError>)
        requires
            old(self).wf(),
        ensures
            final(self).wf(),
            final(self).spec_metric() == old(self).spec_metric(),
            vector@.len() != old(self).contents().dimension ==> {
                &&& r == Err::<(), ParsecError>(
                    ParsecError::DimensionMismatch {
                        expected: old(self).contents().dimension as usize,
                        found: vector@.len() as usize,
                    },
                )
                &&& final(self).contents() == old(self).contents()
            },
            vector@.len() == old(self).contents().dimension ==> {
                &&& r is Ok
                &&& final(self).contents() == old(self).contents().inserted(id, vector@)
            },
    {
        self.buffer.insert(id, vector)
    }

    /// The `k` stored vectors nearest to `query`, nearest first, with their
    /// distances; `distance` computes the distance between two vectors
    /// under a metric, and is asked once for every stored vector.
    pub fn search<F: Fn(&[u32], &[u32], DistanceMetric) -> u32>(
        &self,
        query: &[u32],
        k: usize,
        distance: &F,
    ) -> (res: Vec<SearchResult>)
        requires
            self.wf(),
            forall|a: &[u32], b: &[u32], m: DistanceMetric| #[trigger] distance.requires((a, b, m)),
        ensures
            k == 0 ==> res@.len() == 0,
            k > 0 ==> exists|ds: Seq<u32>, sel: Seq<int>|
                {
                    &&& ds.len() == self.contents().len()
                    &&& forall|j: int|
                        0 <= j < ds.len() ==> returned_distance(
                            *distance,
                            query,
                            self.contents().vectors[j],
                            self.spec_metric(),
                            #[trigger] ds[j],
                        )
                    &&& selects_top_k(res@, self.contents().ids, ds, k as nat, sel)
                },
    {
        let n = self.buffer.len();
        let ghost ids = self.buffer@.ids;
        let ghost vecs = self.buffer@.vectors;
        let mut top: Vec<SearchResult> = Vec::new();
        let ghost mut ds: Seq<u32> = Seq::empty();
        let ghost mut sel: Seq<int> = Seq::empty();
        if n == 0 || k == 0 {
            proof {
                if k > 0 {
                    assert(ds.len() == self.contents().len());
                    assert(ids == self.contents().ids);
                    assert(selects_top_k(top@, ids, ds, k as nat, sel));
                }
            }
            return top;
        }
        let mut i: usize = 0;
        while i < n
            invariant
                self.wf(),
                n == self.contents().len(),
                ids == self.contents().ids,
                vecs == self.contents().vectors,
                forall|a: &[u32], b: &[u32], m: DistanceMetric| #[trigger] distance.requires((a, b, m)),
                0 <= i <= n,
                ds.len() == i,
                forall|j: int|
                    0 <= j < i ==> returned_distance(
                        *distance,
                        query,
                        vecs[j],
                        self.spec_metric(),
                        #[trigger] ds[j],
                    ),
                top@.len() == if k < i { k as nat } else { i as nat },
                sorted_by_distance(top@),
                sel.len() == top@.len(),
                sel.no_duplicates(),
                forall|t: int|
                    0 <= t < sel.len() ==> 0 <= #[trigger] sel[t] < i && top@[t] == (SearchResult {
                        id: ids[sel[t]],
                        distance: ds[sel[t]],
                    }),
                k > 0,
                forall|j: int|
                    0 <= j < i && !sel.contains(j) ==> order_key(#[trigger] ds[j])
                        >= order_key(top@.last().distance),
            decreases n - i,
        {
            let v = self.buffer.get_vector(i).unwrap();
            let id = self.buffer.get_id(i).unwrap();
            let d = distance(query, v, self.metric);
            let ghost old_ds = ds;
            let ghost old_sel = sel;
            let ghost old_top = top@;
            proof {
                ds = ds.push(d);
                assert(returned_distance(*distance, query, vecs[i as int], self.spec_metric(), ds[i as int]));
                assert forall|j: int| 0 <= j < i + 1 implies returned_distance(
                    *distance,
                    query,
                    vecs[j],
                    self.spec_metric(),
                    #[trigger] ds[j],
                ) by {
                    if j < i {
                        assert(ds[j] == old_ds[j]);
                    }
                }
            }
            let r = SearchResult { id, distance: d };
            if top.len() < k {
                let p = insert_sorted(&mut top, r);
                proof {
                    sel = sel.insert(p as int, i as int);
                    assert forall|t: int| 0 <= t < sel.len() implies 0 <= #[trigger] sel[t] < i + 1
                        && top@[t] == (SearchResult { id: ids[sel[t]], distance: ds[sel[t]] }) by {
                        if t < p {
                            assert(sel[t] == old_sel[t]);
                        } else if t > p {
                            assert(sel[t] == old_sel[t - 1]);
                        }
                    }
                    lemma_insert_fresh(old_sel, p as int, i as int);
                    assert forall|j: int| 0 <= j < i + 1 && !sel.contains(j) implies order_key(
                        #[trigger] ds[j],
                    ) >= order_key(top@.last().distance) by {
                        if j < i {
                            assert(old_sel.contains(j)) by {
                                if !old_sel.contains(j) {
                                    // every earlier candidate was taken while fewer than k were held
                                    assert(old_top.len() == i);
                                    assert(old_sel.len() == i);
                                    lemma_all_taken(old_sel, i as int, j);
                                }
                            }
                            let t = choose|t: int| 0 <= t < old_sel.len() && old_sel[t] == j;
                            if t < p {
                                assert(sel[t] == j);
                            } else {
                                assert(sel[t + 1] == j);
                            }
                        } else {
                            assert(sel[p as int] == j);
                        }
                    }
                }
            } else if distance_key(d) < distance_key(top[top.len() - 1].distance) {
                let ghost worst = top@.last();
                let ghost evicted = sel.last();
                top.pop();
                proof {
                    sel = sel.drop_last();
                }
                let ghost mid_top = top@;
                let ghost mid_sel = sel;
                let p = insert_sorted(&mut top, r);
                proof {
                    sel = sel.insert(p as int, i as int);
                    assert forall|t: int| 0 <= t < top@.len() implies order_key(
                        #[trigger] top@[t].distance,
                    ) <= order_key(worst.distance) by {
                        if t < p {
                            assert(top@[t] == old_top[t]);
                        } else if t > p {
                            assert(top@[t] == old_top[t - 1]);
                        }
                    }
                    assert forall|t: int| 0 <= t < sel.len() implies 0 <= #[trigger] sel[t] < i + 1
                        && top@[t] == (SearchResult { id: ids[sel[t]], distance: ds[sel[t]] }) by {
                        if t < p {
                            assert(sel[t] == old_sel[t]);
                        } else if t > p {
                            assert(sel[t] == old_sel[t - 1]);
                        }
                    }
                    assert(!mid_sel.contains(i as int)) by {
                        if mid_sel.contains(i as int) {
                            let t = choose|t: int| 0 <= t < mid_sel.len() && mid_sel[t] == i as int;
                            assert(mid_sel[t] == old_sel[t]);
                        }
                    }
                    assert(mid_sel.no_duplicates()) by {
                        assert forall|a: int, b: int| 0 <= a < b < mid_sel.len() implies mid_sel[a] != mid_sel[b] by {
                            assert(mid_sel[a] == old_sel[a] && mid_sel[b] == old_sel[b]);
                        }
                    }
                    lemma_insert_fresh(mid_sel, p as int, i as int);
                    assert(old_sel[old_sel.len() - 1] == evicted);
                    assert(ds[evicted] == worst.distance);
                    assert forall|j: int| 0 <= j < i + 1 && !sel.contains(j) implies order_key(
                        #[trigger] ds[j],
                    ) >= order_key(top@.last().distance) by {
                        assert(order_key(top@.last().distance) <= order_key(worst.distance));
                        if j == i {
                            assert(sel[p as int] == j);
                        } else if j == evicted {
                        } else {
                            assert(!old_sel.contains(j)) by {
                                if old_sel.contains(j) {
                                    let t = choose|t: int| 0 <= t < old_sel.len() && old_sel[t] == j;
                                    assert(t != old_sel.len() - 1);
                                    if t < p {
                                        assert(sel[t] == j);
                                    } else {
                                        assert(sel[t + 1] == j);
                                    }
                                }
                            }
                        }
                    }
                }
            } else {
                proof {
                    assert forall|j: int| 0 <= j < i + 1 && !sel.contains(j) implies order_key(
                        #[trigger] ds[j],
                    ) >= order_key(top@.last().distance) by {
                        if j == i {
                            assert(ds[j] == d);
                        }
                    }
                }
            }
            i = i + 1;
        }
        proof {
            assert(selects_top_k(top@, ids, ds, k as nat, sel));
        }
        top
    }
}

/// Inserting an index that is not yet taken keeps the taken indices
/// distinct.
proof fn lemma_insert_fresh(s: Seq<int>, p: int, x: int)
    requires
        s.no_duplicates(),
        0 <= p <= s.len(),
        !s.contains(x),
    ensures
        s.insert(p, x).no_duplicates(),
{
    let r = s.insert(p, x);
    assert forall|a: int, b: int| 0 <= a < b < r.len() implies r[a] != r[b] by {
        if a < p && b < p {
        } else if a < p && b == p {
        } else if a < p {
            assert(r[b] == s[b - 1]);
        } else if a == p {
            assert(r[b] == s[b - 1]);
        } else {
            assert(r[a] == s[a - 1] && r[b] == s[b - 1]);
        }
    }
}

/// When `i` distinct indices below `i` are taken, every index below `i` is.
proof fn lemma_all_taken(sel: Seq<int>, i: int, j: int)
    requires
        sel.len() == i,
        sel.no_duplicates(),
        forall|t: int| 0 <= t < sel.len() ==> 0 <= #[trigger] sel[t] < i,
        0 <= j < i,
    ensures
        sel.contains(j),
{
    let s = sel.to_set();
    assert(s.len() == i) by {
        sel.unique_seq_to_set();
    }
    let full = Set::new(|x: int| 0 <= x < i);
    assert(s.subset_of(full)) by {
        assert forall|x: int| s.contains(x) implies full.contains(x) by {
            let t = choose|t: int| 0 <= t < sel.len() && sel[t] == x;
        }
    }
    assert(full =~= vstd::set_lib::set_int_range(0, i));
    vstd::set_lib::lemma_int_range(0, i);
    if !sel.contains(j) {
        assert(!s.contains(j));
        assert(s.subset_of(full.remove(j)));
        vstd::set_lib::lemma_len_subset(s, full.remove(j));
    }
}

/// At the first position where two top-`k` selections over the same
/// distances (up to the reordering `perm`) differ, the first does not rank
/// nearer than the second.
proof fn lemma_top_k_not_nearer(
    res1: Seq<SearchResult>,
    ids1: Seq<u64>,
    ds1: Seq<u32>,
    sel1: Seq<int>,
    res2: Seq<SearchResult>,
    ids2: Seq<u64>,
    ds2: Seq<u32>,
    sel2: Seq<int>,
    k: nat,
    perm: Seq<int>,
    i: int,
)
    requires
        selects_top_k(res1, ids1, ds1, k, sel1),
        selects_top_k(res2, ids2, ds2, k, sel2),
        ds1.len() == ds2.len(),
        perm.len() == ds1.len(),
        forall|t: int| 0 <= t < ds1.len() ==> 0 <= #[trigger] perm[t] < ds2.len() && ds2[perm[t]] == ds1[t],
        forall|a: int, b: int| 0 <= a < ds1.len() && 0 <= b < ds1.len() && a != b ==> #[trigger] perm[a] != #[trigger] perm[b],
        0 <= i < res1.len(),
        forall|u: int| 0 <= u < i ==> #[trigger] res1[u].distance == res2[u].distance,
    ensures
        order_key(res1[i].distance) >= order_key(res2[i].distance),
{
    let n = ds1.len() as int;
    let v = order_key(res1[i].distance);
    if v < order_key(res2[i].distance) {
        let s1 = Set::new(|t: int| 0 <= t < n && order_key(ds1[t]) <= v);
        let s2 = Set::new(|t: int| 0 <= t < n && order_key(ds2[t]) <= v);
        let range = vstd::set_lib::set_int_range(0, n);
        vstd::set_lib::lemma_int_range(0, n);
        vstd::set_lib::lemma_len_subset(s1, range);
        vstd::set_lib::lemma_len_subset(s2, range);
        // the first `i + 1` entries of the first selection lie in `s1`
        let taken1 = sel1.subrange(0, i + 1);
        assert(taken1.no_duplicates()) by {
            assert forall|a: int, b: int| 0 <= a < taken1.len() && 0 <= b < taken1.len() && a != b implies taken1[a] != taken1[b] by {
                assert(taken1[a] == sel1[a] && taken1[b] == sel1[b]);
            }
        }
        taken1.unique_seq_to_set();
        assert(taken1.to_set().subset_of(s1)) by {
            assert forall|t: int| taken1.to_set().contains(t) implies s1.contains(t) by {
                let u = choose|u: int| 0 <= u < taken1.len() && taken1[u] == t;
                assert(taken1[u] == sel1[u]);
                assert(0 <= sel1[u] < ids1.len());
                assert(res1[u].distance == ds1[sel1[u]]);
                if u < i {
                    assert(order_key(res1[u].distance) <= order_key(res1[i].distance));
                }
            }
        }
        vstd::set_lib::lemma_len_subset(taken1.to_set(), s1);
        // `perm` carries `s1` into `s2` without merging entries
        let pf = |t: int| perm[t];
        let img = s1.map(pf);
        assert(vstd::relations::injective_on(pf, s1));
        vstd::set_lib::lemma_map_size(s1, img, pf);
        assert(img.subset_of(s2)) by {
            assert forall|j: int| img.contains(j) implies s2.contains(j) by {
                let t = choose|t: int| s1.contains(t) && j == pf(t);
                assert(ds2[perm[t]] == ds1[t]);
            }
        }
        vstd::set_lib::lemma_len_subset(img, s2);
        // `s2` lies among the first `i` entries of the second selection
        let taken2 = sel2.subrange(0, i);
        assert(taken2.no_duplicates()) by {
            assert forall|a: int, b: int| 0 <= a < taken2.len() && 0 <= b < taken2.len() && a != b implies taken2[a] != taken2[b] by {
                assert(taken2[a] == sel2[a] && taken2[b] == sel2[b]);
            }
        }
        taken2.unique_seq_to_set();
        assert(s2.subset_of(taken2.to_set())) by {
            assert forall|j: int| s2.contains(j) implies taken2.to_set().contains(j) by {
                if sel2.contains(j) {
                    let u = choose|u: int| 0 <= u < sel2.len() && sel2[u] == j;
                    assert(res2[u].distance == ds2[sel2[u]]);
                    if u >= i {
                        if u > i {
                            assert(order_key(res2[i].distance) <= order_key(res2[u].distance));
                        }
                        assert(false);
                    }
                    assert(taken2[u] == j);
                } else {
                    let last = res2.len() - 1;
                    if last > i {
                        assert(order_key(res2[i].distance) <= order_key(res2[last].distance));
                    }
                    assert(order_key(ds2[j]) >= order_key(res2.last().distance));
                    assert(false);
                }
            }
        }
        vstd::set_lib::lemma_len_subset(s2, taken2.to_set());
        assert(false);
    }
}

/// Law: two top-`k` selections over the same candidate distances, listed
/// in another order (`perm` takes each position of `ds1` to the position
/// of `ds2` that holds the same distance, no two to the same), have the
/// same length and the same distances, position by position; they can
/// differ only in which of equally distant candidates they name.
pub proof fn lemma_top_k_distances_agree(
    res1: Seq<SearchResult>,
    ids1: Seq<u64>,
    ds1: Seq<u32>,
    sel1: Seq<int>,
    res2: Seq<SearchResult>,
    ids2: Seq<u64>,
    ds2: Seq<u32>,
    sel2: Seq<int>,
    k: nat,
    perm: Seq<int>,
)
    requires
        selects_top_k(res1, ids1, ds1, k, sel1),
        selects_top_k(res2, ids2, ds2, k, sel2),
        ds1.len() == ds2.len(),
        perm.len() == ds1.len(),
        forall|t: int| 0 <= t < ds1.len() ==> 0 <= #[trigger] perm[t] < ds2.len() && ds2[perm[t]] == ds1[t],
        forall|a: int, b: int| 0 <= a < ds1.len() && 0 <= b < ds1.len() && a != b ==> #[trigger] perm[a] != #[trigger] perm[b],
    ensures
        res1.len() == res2.len(),
        forall|i: int| 0 <= i < res1.len() ==> #[trigger] res1[i].distance == res2[i].distance,
{
    let n = ds1.len() as int;
    // `perm` reaches every position, so it can be turned around
    let range = vstd::set_lib::set_int_range(0, n);
    vstd::set_lib::lemma_int_range(0, n);
    let pf = |t: int| perm[t];
    let img = range.map(pf);
    assert(vstd::relations::injective_on(pf, range));
    vstd::set_lib::lemma_map_size(range, img, pf);
    assert(img.subset_of(range));
    assert(img =~= range) by {
        assert forall|j: int| range.contains(j) implies img.contains(j) by {
            if !img.contains(j) {
                vstd::set_lib::lemma_len_subset(img, range.remove(j));
            }
        }
    }
    let inv = Seq::new(n as nat, |j: int| choose|t: int| 0 <= t < n && perm[t] == j);
    assert forall|j: int| 0 <= j < n implies 0 <= #[trigger] inv[j] < n && perm[inv[j]] == j by {
        assert(img.contains(j));
    }
    assert forall|j: int| 0 <= j < n implies 0 <= #[trigger] inv[j] < ds1.len() && ds1[inv[j]] == ds2[j] by {
        assert(perm[inv[j]] == j);
    }
    assert forall|a: int, b: int| 0 <= a < n && 0 <= b < n && a != b implies #[trigger] inv[a] != #[trigger] inv[b] by {
        assert(perm[inv[a]] == a && perm[inv[b]] == b);
    }
    lemma_top_k_agree_upto(res1, ids1, ds1, sel1, res2, ids2, ds2, sel2, k, perm, inv, res1.len() as int);
}

/// The two selections agree on their first `i` distances.
proof fn lemma_top_k_agree_upto(
    res1: Seq<SearchResult>,
    ids1: Seq<u64>,
    ds1: Seq<u32>,
    sel1: Seq<int>,
    res2: Seq<SearchResult>,
    ids2: Seq<u64>,
    ds2: Seq<u32>,
    sel2: Seq<int>,
    k: nat,
    perm: Seq<int>,
    inv: Seq<int>,
    i: int,
)
    requires
        selects_top_k(res1, ids1, ds1, k, sel1),
        selects_top_k(res2, ids2, ds2, k, sel2),
        ds1.len() == ds2.len(),
        perm.len() == ds1.len(),
        inv.len() == ds1.len(),
        forall|t: int| 0 <= t < ds1.len() ==> 0 <= #[trigger] perm[t] < ds2.len() && ds2[perm[t]] == ds1[t],
        forall|a: int, b: int| 0 <= a < ds1.len() && 0 <= b < ds1.len() && a != b ==> #[trigger] perm[a] != #[trigger] perm[b],
        forall|j: int| 0 <= j < ds2.len() ==> 0 <= #[trigger] inv[j] < ds1.len() && ds1[inv[j]] == ds2[j],
        forall|a: int, b: int| 0 <= a < ds2.len() && 0 <= b < ds2.len() && a != b ==> #[trigger] inv[a] != #[trigger] inv[b],
        0 <= i <= res1.len(),
    ensures
        forall|u: int| 0 <= u < i ==> #[trigger] res1[u].distance == res2[u].distance,
    decreases i,
{
    if i > 0 {
        lemma_top_k_agree_upto(res1, ids1, ds1, sel1, res2, ids2, ds2, sel2, k, perm, inv, i - 1);
        lemma_top_k_not_nearer(res1, ids1, ds1, sel1, res2, ids2, ds2, sel2, k, perm, i - 1);
        lemma_top_k_not_nearer(res2, ids2, ds2, sel2, res1, ids1, ds1, sel1, k, inv, i - 1);
        lemma_order_key_ranking(res1[i - 1].distance, res2[i - 1].distance);
    }
}

} // verus!
