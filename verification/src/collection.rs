use vstd::prelude::*;
use crate::error::Error;
use crate::record::{Metadata, MetaView, Record, RecordView};
use crate::vector::{dist2, distance2, Vector};

verus! {

/// The distance metric of a collection. Only the Euclidean metric is
/// offered; distances are reported as exact squared Euclidean distances,
/// which rank results exactly as Euclidean distances do, since the square
/// root is monotonic.
#[derive(Clone, Copy, Debug, PartialEq, Eq, Structural)]
pub enum Distance {
    Euclidean,
}

/// Collection configuration: the distance metric and, optionally, the
/// expected vector dimension. Without one, the dimension is inferred from
/// the first inserted record.
#[derive(Clone, Copy, Debug)]
pub struct Config {
    pub distance: Distance,
    pub dimension: Option<usize>,
}

impl Default for Config {
    /// The default configuration: Euclidean metric, dimension inferred
    /// from the first inserted record.
    fn default() -> (c: Config)
        ensures
            c.distance == Distance::Euclidean,
            c.dimension is None,
    {
        Config { distance: Distance::Euclidean, dimension: None }
    }
}

/// One ranked answer of a nearest-neighbour search: the record's id, its
/// exact squared Euclidean distance from the query, and its metadata.
pub struct SearchResult {
    pub id: u64,
    pub distance: u128,
    pub data: Metadata,
}

impl Clone for SearchResult {
    fn clone(&self) -> (r: Self)
        ensures
            r.id == self.id,
            r.distance == self.distance,
            r.data@ == self.data@,
    {
        SearchResult { id: self.id, distance: self.distance, data: self.data.clone() }
    }
}

/// An in-memory index of records: a configuration and the stored records
/// keyed by their assigned ids. Ids come from a monotonic counter and are
/// never reused, even after a record is gone.
pub struct Collection {
    pub config: Config,
    pub items: Vec<(u64, Record)>,
    pub next_id: u64,
}

/// The mathematical value of a `Collection`.
pub struct CollectionView {
    pub config: Config,
    pub items: Seq<(u64, RecordView)>,
    pub next_id: u64,
}

/// The values of a sequence of stored items.
pub open spec fn items_view(s: Seq<(u64, Record)>) -> Seq<(u64, RecordView)> {
    s.map_values(|p: (u64, Record)| (p.0, p.1@))
}

impl View for Collection {
    type V = CollectionView;

    open spec fn view(&self) -> CollectionView {
        CollectionView {
            config: self.config,
            items: items_view(self.items@),
            next_id: self.next_id,
        }
    }
}

/// The sequence of record values of a batch handed to `insert_many`.
pub open spec fn recs_view(rs: Seq<Record>) -> Seq<RecordView> {
    rs.map_values(|r: Record| r@)
}

/// The collection's established dimension: the configured one if any,
/// otherwise the dimension of the first stored record, otherwise none.
pub open spec fn spec_dim(v: CollectionView) -> Option<int> {
    match v.config.dimension {
        Some(d) => Some(d as int),
        None => if v.items.len() == 0 {
            None
        } else {
            Some(v.items[0].1.vector.len() as int)
        },
    }
}

/// Well-formedness of a collection value: ids strictly ascend (so listing
/// order is id order), every id is below the counter, and every stored
/// vector has the established dimension.
pub open spec fn collection_inv(v: CollectionView) -> bool {
    &&& forall|i: int, j: int|
        0 <= i < j < v.items.len() ==> (#[trigger] v.items[i]).0 < (#[trigger] v.items[j]).0
    &&& forall|i: int| 0 <= i < v.items.len() ==> (#[trigger] v.items[i]).0 < v.next_id
    &&& forall|i: int|
        0 <= i < v.items.len() ==> (#[trigger] v.items[i]).1.vector.len() == spec_dim(
            v,
        ).unwrap()
}

/// The dimension every vector of the batch must have for the batch to be
/// accepted: the collection's established dimension, or for a collection
/// without one, the dimension of the batch's first vector.
pub open spec fn batch_dim(v: CollectionView, recs: Seq<RecordView>) -> Option<int> {
    match spec_dim(v) {
        Some(d) => Some(d),
        None => if recs.len() == 0 {
            None
        } else {
            Some(recs[0].vector.len() as int)
        },
    }
}

/// Whether a batch is dimensionally consistent with the collection.
pub open spec fn batch_ok(v: CollectionView, recs: Seq<RecordView>) -> bool {
    forall|i: int|
        0 <= i < recs.len() ==> (#[trigger] recs[i]).vector.len() == batch_dim(v, recs).unwrap()
}

/// The items appended by an accepted batch: each record of the batch,
/// keyed by the next free ids in order.
pub open spec fn appended_items(base: u64, recs: Seq<RecordView>) -> Seq<(u64, RecordView)> {
    Seq::new(recs.len(), |i: int| ((base + i) as u64, recs[i]))
}

impl Collection {
    /// Well-formedness; constructors establish it and methods keep it.
    pub open spec fn wf(&self) -> bool {
        collection_inv(self@)
    }

    /// Create an empty collection with the given configuration.
    pub fn new(config: &Config) -> (c: Collection)
        ensures
            c@.config == *config,
            c@.items == Seq::<(u64, RecordView)>::empty(),
            c@.next_id == 0,
            c.wf(),
    {
        let c = Collection { config: *config, items: Vec::new(), next_id: 0 };
        proof {
            assert(c@.items =~= Seq::<(u64, RecordView)>::empty());
        }
        c
    }

    /// The number of stored records.
    pub fn len(&self) -> (n: usize)
        ensures
            n == self@.items.len(),
    {
        self.items.len()
    }

    /// Insert a batch of records, assigning each the next id in turn.
    /// The whole batch is rejected, and the collection left unchanged, if
    /// any vector's dimension disagrees with the established (or, for a
    /// fresh collection, the batch's own first) dimension.
    pub fn insert_many(&mut self, records: &Vec<Record>) -> (res: Result<Vec<u64>, Error>)
        requires
            old(self).wf(),
            old(self).next_id + records@.len() <= u64::MAX,
        ensures
            final(self).wf(),
            final(self)@.config == old(self)@.config,
            match res {
                Ok(ids) => {
                    &&& batch_ok(old(self)@, recs_view(records@))
                    &&& ids@.len() == records@.len()
                    &&& forall|i: int|
                        0 <= i < ids@.len() ==> ids@[i] == old(self)@.next_id + i
                    &&& final(self)@.items == old(self)@.items + appended_items(
                        old(self)@.next_id,
                        recs_view(records@),
                    )
                    &&& final(self)@.next_id == old(self)@.next_id + records@.len()
                },
                Err(e) => {
                    &&& e == Error::DimensionMismatch
                    &&& !batch_ok(old(self)@, recs_view(records@))
                    &&& final(self)@ == old(self)@
                },
            },
    {
        let ghost pre = self@;
        let ghost rv = recs_view(records@);
        if records.len() == 0 {
            proof {
                assert(pre.items + appended_items(pre.next_id, rv) =~= pre.items);
            }
            return Ok(Vec::new());
        }
        let d: usize = match self.config.dimension {
            Some(dim) => dim,
            None => if self.items.len() > 0 {
                self.items[0].1.vector.0.len()
            } else {
                records[0].vector.0.len()
            },
        };
        proof {
            assert(rv[0] == records@[0]@);
            assert(d as int == batch_dim(pre, rv).unwrap());
        }
        let mut i: usize = 0;
        while i < records.len()
            invariant
                i <= records@.len(),
                rv == recs_view(records@),
                d as int == batch_dim(pre, rv).unwrap(),
                pre == self@,
                pre == old(self)@,
                old(self).wf(),
                forall|j: int| 0 <= j < i ==> (#[trigger] rv[j]).vector.len() == d,
            decreases records@.len() - i,
        {
            proof {
                assert(rv[i as int] == records@[i as int]@);
            }
            if records[i].vector.0.len() != d {
                proof {
                    assert(!batch_ok(pre, rv));
                }
                return Err(Error::DimensionMismatch);
            }
            i = i + 1;
        }
        proof {
            assert(batch_ok(pre, rv));
        }
        let ghost base = self.next_id;
        let mut ids: Vec<u64> = Vec::new();
        let mut i: usize = 0;
        while i < records.len()
            invariant
                i <= records@.len(),
                rv == recs_view(records@),
                self.config == old(self).config,
                self.next_id == base + i,
                base + records@.len() <= u64::MAX,
                ids@.len() == i,
                forall|j: int| 0 <= j < i ==> ids@[j] == base + j,
                self@.items == pre.items + appended_items(base, rv.take(i as int)),
                pre.items == old(self)@.items,
                base == old(self)@.next_id,
                pre.config == old(self)@.config,
            decreases records@.len() - i,
        {
            let ghost items_before = self@.items;
            let rec = records[i].clone();
            ids.push(self.next_id);
            let id = self.next_id;
            self.items.push((id, rec));
            self.next_id = self.next_id + 1;
            proof {
                assert(self@.items =~= items_before.push((id, records@[i as int]@)));
                assert(rv[i as int] == records@[i as int]@);
                assert(appended_items(base, rv.take(i + 1)) =~= appended_items(
                    base,
                    rv.take(i as int),
                ).push((id, rv[i as int])));
                assert(self@.items =~= pre.items + appended_items(base, rv.take(i + 1)));
            }
            i = i + 1;
        }
        proof {
            assert(rv.take(rv.len() as int) =~= rv);
            assert(self@.items =~= pre.items + appended_items(base, rv));
            lemma_insert_keeps_inv(pre, rv, self@);
        }
        Ok(ids)
    }

    /// A full snapshot of the stored records' ids and metadata, in
    /// ascending id order.
    pub fn list(&self) -> (r: Vec<(u64, Metadata)>)
        requires
            self.wf(),
        ensures
            r@.len() == self@.items.len(),
            forall|i: int|
                0 <= i < r@.len() ==> (#[trigger] r@[i]).0 == self@.items[i].0 && r@[i].1@
                    == self@.items[i].1.data,
    {
        let mut r: Vec<(u64, Metadata)> = Vec::new();
        let mut i: usize = 0;
        while i < self.items.len()
            invariant
                i <= self@.items.len(),
                self@.items.len() == self.items@.len(),
                r@.len() == i,
                forall|j: int|
                    0 <= j < i ==> (#[trigger] r@[j]).0 == self@.items[j].0 && r@[j].1@
                        == self@.items[j].1.data,
            decreases self.items@.len() - i,
        {
            let id = self.items[i].0;
            let data = self.items[i].1.data.clone();
            r.push((id, data));
            i = i + 1;
        }
        r
    }
}

/// Lexicographic "at most" on result keys: closer first, ties broken by
/// ascending id for determinism.
pub open spec fn key_le(d1: int, i1: u64, d2: int, i2: u64) -> bool {
    d1 < d2 || (d1 == d2 && i1 <= i2)
}

/// Result `e` reports record `j` of collection `v` for query `q`: the
/// record's id and metadata, and its exact squared distance from `q`.
pub open spec fn match_at(v: CollectionView, q: Seq<i32>, e: SearchResult, j: int) -> bool {
    &&& v.items[j].0 == e.id
    &&& e.distance as int == dist2(q, v.items[j].1.vector)
    &&& e.data@ == v.items[j].1.data
}

/// Result `e` reports one of the first `n` records of the collection.
pub open spec fn reports_some(
    v: CollectionView,
    q: Seq<i32>,
    e: SearchResult,
    n: int,
) -> bool {
    exists|j: int| 0 <= j < n && #[trigger] match_at(v, q, e, j)
}

/// Record `j` is reported by some element of `out` or of `rest`.
pub open spec fn covered(
    v: CollectionView,
    q: Seq<i32>,
    out: Seq<SearchResult>,
    rest: Seq<SearchResult>,
    j: int,
) -> bool {
    (exists|a: int| 0 <= a < out.len() && match_at(v, q, #[trigger] out[a], j)) || (exists|t: int|
        0 <= t < rest.len() && match_at(v, q, #[trigger] rest[t], j))
}

/// Some result of `out` carries the id `id`.
pub open spec fn represented(out: Seq<SearchResult>, id: u64) -> bool {
    exists|a: int| 0 <= a < out.len() && (#[trigger] out[a]).id == id
}

/// What a successful search yields: one result per record up to `k`,
/// sorted by ascending key (distance, then id), each reporting a distinct
/// stored record exactly, and no unreported record closer than any
/// reported one.
pub open spec fn search_ok(v: CollectionView, q: Seq<i32>, k: int, out: Seq<SearchResult>) -> bool {
    &&& (spec_dim(v) is Some ==> q.len() == spec_dim(v).unwrap())
    &&& out.len() == (if k < v.items.len() {
        k
    } else {
        v.items.len() as int
    })
    &&& forall|a: int, b: int|
        0 <= a < b < out.len() ==> key_le(
            (#[trigger] out[a]).distance as int,
            out[a].id,
            (#[trigger] out[b]).distance as int,
            out[b].id,
        )
    &&& forall|a: int, b: int|
        0 <= a < b < out.len() ==> (#[trigger] out[a]).id != (#[trigger] out[b]).id
    &&& forall|a: int|
        0 <= a < out.len() ==> reports_some(v, q, #[trigger] out[a], v.items.len() as int)
    &&& forall|j: int, a: int|
        0 <= j < v.items.len() && 0 <= a < out.len() && !represented(
            out,
            (#[trigger] v.items[j]).0,
        ) ==> key_le(
            (#[trigger] out[a]).distance as int,
            out[a].id,
            dist2(q, v.items[j].1.vector),
            v.items[j].0,
        )
}

/// A vector already stored in the collection is its own nearest
/// neighbour: a search for it with `k == 1` yields one result, at
/// distance zero.
pub proof fn lemma_self_query_hits_zero(
    v: CollectionView,
    q: Seq<i32>,
    out: Seq<SearchResult>,
    j: int,
)
    requires
        collection_inv(v),
        search_ok(v, q, 1, out),
        0 <= j < v.items.len(),
        v.items[j].1.vector == q,
    ensures
        out.len() == 1,
        out[0].distance == 0,
{
    crate::vector::lemma_dist2_self_zero(q);
    assert(dist2(q, v.items[j].1.vector) == 0);
    assert(out.len() == 1);
    if represented(out, v.items[j].0) {
        assert(reports_some(v, q, out[0], v.items.len() as int));
        let jj = choose|jj: int|
            0 <= jj < v.items.len() && #[trigger] match_at(v, q, out[0], jj);
        assert(v.items[jj].0 == out[0].id);
        let a = choose|a: int| 0 <= a < out.len() && (#[trigger] out[a]).id == v.items[j].0;
        assert(a == 0);
        assert(v.items[jj].0 == v.items[j].0);
        assert(jj == j) by {
            if jj < j {
                assert(v.items[jj].0 < v.items[j].0);
            } else if j < jj {
                assert(v.items[j].0 < v.items[jj].0);
            }
        }
        assert(out[0].distance as int == dist2(q, v.items[j].1.vector));
    } else {
        assert(key_le(
            out[0].distance as int,
            out[0].id,
            dist2(q, v.items[j].1.vector),
            v.items[j].0,
        ));
    }
}

/// The index of a result whose key is no greater than any other's.
fn min_index(v: &Vec<SearchResult>) -> (m: usize)
    requires
        v@.len() > 0,
    ensures
        m < v@.len(),
        forall|t: int|
            0 <= t < v@.len() ==> key_le(
                v@[m as int].distance as int,
                v@[m as int].id,
                (#[trigger] v@[t]).distance as int,
                v@[t].id,
            ),
{
    let mut m: usize = 0;
    let mut i: usize = 1;
    while i < v.len()
        invariant
            m < i,
            i <= v@.len(),
            forall|t: int|
                0 <= t < i ==> key_le(
                    v@[m as int].distance as int,
                    v@[m as int].id,
                    (#[trigger] v@[t]).distance as int,
                    v@[t].id,
                ),
        decreases v@.len() - i,
    {
        if v[i].distance < v[m].distance || (v[i].distance == v[m].distance && v[i].id < v[m].id) {
            m = i;
        }
        i = i + 1;
    }
    m
}

impl Collection {
    /// The `k` stored records closest to `query`, closest first, ties
    /// broken by ascending id. A collection holding fewer than `k`
    /// records yields all of them; `k == 0` yields none. Rejected only
    /// when the collection has an established dimension and the query's
    /// length differs from it.
    pub fn search(&self, query: &Vector, k: usize) -> (res: Result<Vec<SearchResult>, Error>)
        requires
            self.wf(),
        ensures
            match res {
                Err(e) => {
                    &&& e == Error::DimensionMismatch
                    &&& spec_dim(self@) is Some
                    &&& query@.len() != spec_dim(self@).unwrap()
                },
                Ok(out) => search_ok(self@, query@, k as int, out@),
            },
    {
        let ghost v = self@;
        let ghost q = query@;
        let qlen = query.0.len();
        match self.config.dimension {
            Some(d) => {
                if qlen != d {
                    return Err(Error::DimensionMismatch);
                }
            },
            None => {
                if self.items.len() > 0 {
                    let d = self.items[0].1.vector.0.len();
                    proof {
                        assert(v.items[0] == items_view(self.items@)[0]);
                    }
                    if qlen != d {
                        return Err(Error::DimensionMismatch);
                    }
                }
            },
        }
        proof {
            assert(v.items.len() > 0 ==> q.len() == spec_dim(v).unwrap());
        }
        let ghost n = self@.items.len() as int;
        let mut rest: Vec<SearchResult> = Vec::new();
        let mut i: usize = 0;
        while i < self.items.len()
            invariant
                self.wf(),
                v == self@,
                q == query@,
                n == v.items.len() as int,
                q.len() == query.0@.len(),
                v.items.len() > 0 ==> q.len() == spec_dim(v).unwrap(),
                i <= v.items.len(),
                rest@.len() == i,
                forall|t: int| 0 <= t < i ==> match_at(v, q, #[trigger] rest@[t], t),
            decreases v.items.len() - i,
        {
            proof {
                assert(v.items[i as int] == items_view(self.items@)[i as int]);
            }
            let entry = &self.items[i];
            let d = distance2(query, &entry.1.vector);
            rest.push(SearchResult { id: entry.0, distance: d, data: entry.1.data.clone() });
            i = i + 1;
        }
        proof {
            assert forall|t: int, u: int| 0 <= t < u < rest@.len() implies (
            #[trigger] rest@[t]).id != (#[trigger] rest@[u]).id by {
                assert(match_at(v, q, rest@[t], t));
                assert(match_at(v, q, rest@[u], u));
                assert(v.items[t].0 < v.items[u].0);
            }
        }
        let mut out: Vec<SearchResult> = Vec::new();
        proof {
            assert forall|t: int| 0 <= t < rest@.len() implies reports_some(
                v,
                q,
                #[trigger] rest@[t],
                n,
            ) by {
                assert(match_at(v, q, rest@[t], t));
            }
            assert forall|j: int| 0 <= j < n implies covered(v, q, out@, rest@, j) by {
                assert(match_at(v, q, rest@[j], j));
            }
        }
        while rest.len() > 0
            invariant
                out@.len() + rest@.len() == n,
                0 <= n,
                forall|a: int|
                    0 <= a < out@.len() ==> reports_some(v, q, #[trigger] out@[a], n),
                forall|t: int|
                    0 <= t < rest@.len() ==> reports_some(v, q, #[trigger] rest@[t], n),
                forall|j: int| 0 <= j < n ==> covered(v, q, out@, rest@, j),
                forall|a: int, b: int|
                    0 <= a < b < out@.len() ==> (#[trigger] out@[a]).id != (#[trigger] out@[b]).id,
                forall|a: int, t: int|
                    0 <= a < out@.len() && 0 <= t < rest@.len() ==> (#[trigger] out@[a]).id != (
                    #[trigger] rest@[t]).id,
                forall|t: int, u: int|
                    0 <= t < u < rest@.len() ==> (#[trigger] rest@[t]).id != (
                    #[trigger] rest@[u]).id,
                forall|a: int, b: int|
                    0 <= a < b < out@.len() ==> key_le(
                        (#[trigger] out@[a]).distance as int,
                        out@[a].id,
                        (#[trigger] out@[b]).distance as int,
                        out@[b].id,
                    ),
                forall|a: int, t: int|
                    0 <= a < out@.len() && 0 <= t < rest@.len() ==> key_le(
                        (#[trigger] out@[a]).distance as int,
                        out@[a].id,
                        (#[trigger] rest@[t]).distance as int,
                        rest@[t].id,
                    ),
            decreases rest@.len(),
        {
            let ghost old_out = out@;
            let ghost old_rest = rest@;
            let m = min_index(&rest);
            let e = rest.remove(m);
            out.push(e);
            proof {
                let mi = m as int;
                assert(e == old_rest[mi]);
                assert(out@ =~= old_out.push(e));
                assert forall|t: int| 0 <= t < rest@.len() implies rest@[t] == (if t < mi {
                    old_rest[t]
                } else {
                    old_rest[t + 1]
                }) by {
                    assert(rest@ == old_rest.remove(mi));
                }
                assert forall|a: int| 0 <= a < out@.len() implies reports_some(
                    v,
                    q,
                    #[trigger] out@[a],
                    n,
                ) by {
                    if a < old_out.len() {
                        assert(out@[a] == old_out[a]);
                        assert(reports_some(v, q, old_out[a], n));
                    } else {
                        assert(out@[a] == old_rest[mi]);
                        assert(reports_some(v, q, old_rest[mi], n));
                    }
                }
                assert forall|t: int| 0 <= t < rest@.len() implies reports_some(
                    v,
                    q,
                    #[trigger] rest@[t],
                    n,
                ) by {
                    if t < mi {
                        assert(rest@[t] == old_rest[t]);
                        assert(reports_some(v, q, old_rest[t], n));
                    } else {
                        let w = old_rest[t + 1];
                        assert(rest@[t] == w);
                        assert(reports_some(v, q, w, n));
                    }
                }
                assert forall|j: int| 0 <= j < n implies covered(v, q, out@, rest@, j) by {
                    assert(covered(v, q, old_out, old_rest, j));
                    if exists|a: int| 0 <= a < old_out.len() && match_at(v, q, #[trigger] old_out[a], j) {
                        let a = choose|a: int|
                            0 <= a < old_out.len() && match_at(v, q, #[trigger] old_out[a], j);
                        assert(out@[a] == old_out[a]);
                        assert(match_at(v, q, out@[a], j));
                    } else {
                        let t = choose|t: int|
                            0 <= t < old_rest.len() && match_at(v, q, #[trigger] old_rest[t], j);
                        if t == mi {
                            assert(out@[out@.len() - 1] == e);
                            assert(match_at(v, q, out@[out@.len() - 1], j));
                        } else if t < mi {
                            assert(rest@[t] == old_rest[t]);
                            assert(match_at(v, q, rest@[t], j));
                        } else {
                            assert(rest@[t - 1] == old_rest[t]);
                            assert(match_at(v, q, rest@[t - 1], j));
                        }
                    }
                }
            }
        }
        let ghost full = out@;
        let kk = if k < out.len() {
            k
        } else {
            out.len()
        };
        out.truncate(kk);
        proof {
            assert(out@ == full.subrange(0, kk as int));
            assert forall|j: int, a: int|
                0 <= j < n && 0 <= a < out@.len() && !represented(
                    out@,
                    (#[trigger] v.items[j]).0,
                ) implies key_le(
                (#[trigger] out@[a]).distance as int,
                out@[a].id,
                dist2(q, v.items[j].1.vector),
                v.items[j].0,
            ) by {
                assert(covered(v, q, full, rest@, j));
                assert(rest@.len() == 0);
                let w = choose|w: int| 0 <= w < full.len() && match_at(v, q, #[trigger] full[w], j);
                assert(match_at(v, q, full[w], j));
                if w < kk {
                    assert(out@[w] == full[w]);
                    assert(out@[w].id == v.items[j].0);
                    assert(represented(out@, v.items[j].0));
                } else {
                    assert(out@[a] == full[a]);
                    assert(key_le(
                        full[a].distance as int,
                        full[a].id,
                        full[w].distance as int,
                        full[w].id,
                    ));
                }
            }
        }
        Ok(out)
    }
}

/// An accepted batch keeps the collection well-formed: the fresh ids
/// ascend above every old id, and every appended vector has the
/// established dimension.
proof fn lemma_insert_keeps_inv(pre: CollectionView, rv: Seq<RecordView>, post: CollectionView)
    requires
        collection_inv(pre),
        batch_ok(pre, rv),
        pre.next_id + rv.len() <= u64::MAX,
        post.items == pre.items + appended_items(pre.next_id, rv),
        post.next_id == pre.next_id + rv.len(),
        post.config == pre.config,
    ensures
        collection_inv(post),
{
    let n = pre.items.len() as int;
    assert forall|i: int| 0 <= i < post.items.len() implies (#[trigger] post.items[i]).0
        < post.next_id by {
        if i < n {
            assert(post.items[i] == pre.items[i]);
        } else {
            assert(post.items[i] == appended_items(pre.next_id, rv)[i - n]);
        }
    }
    assert forall|i: int, j: int| 0 <= i < j < post.items.len() implies (#[trigger] post.items[i]).0
        < (#[trigger] post.items[j]).0 by {
        if i < n {
            assert(post.items[i] == pre.items[i]);
        } else {
            assert(post.items[i] == appended_items(pre.next_id, rv)[i - n]);
        }
        if j < n {
            assert(post.items[j] == pre.items[j]);
        } else {
            assert(post.items[j] == appended_items(pre.next_id, rv)[j - n]);
        }
    }
    if post.items.len() > 0 {
        assert(spec_dim(post) == batch_dim(pre, rv)) by {
            if pre.config.dimension is None {
                if n > 0 {
                    assert(post.items[0] == pre.items[0]);
                } else {
                    assert(post.items[0] == appended_items(pre.next_id, rv)[0]);
                }
            }
        }
        assert forall|i: int| 0 <= i < post.items.len() implies (#[trigger] post.items[i]).1.vector.len()
            == spec_dim(post).unwrap() by {
            if i < n {
                assert(post.items[i] == pre.items[i]);
                assert(pre.items[i].1.vector.len() == spec_dim(pre).unwrap());
            } else {
                assert(post.items[i] == appended_items(pre.next_id, rv)[i - n]);
                assert(rv[i - n].vector.len() == batch_dim(pre, rv).unwrap());
            }
        }
    }
}

} // verus!
