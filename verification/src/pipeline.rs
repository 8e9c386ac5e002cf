use vstd::prelude::*;
use crate::chunker::{chunk, spec_chunks};
use crate::collection::{appended_items, batch_ok, recs_view, search_ok, Collection, CollectionView,
    Config, Distance, SearchResult};
use crate::database::{has_name, stored_as, Database};
use crate::error::Error;
use crate::codec::spec_encode_bytes;
use crate::record::{data_to_record, MetaView, Record, RecordView};
use crate::vector::Vector;

verus! {

/// The record values built from positionally aligned chunks and
/// embeddings: each vector carries its chunk's text as metadata.
pub open spec fn pair_views(chunks: Seq<String>, vectors: Seq<Vector>) -> Seq<RecordView> {
    Seq::new(chunks.len(), |i: int| RecordView { vector: vectors[i]@, data: MetaView::Text(chunks[i]@) })
}

/// The value of a collection that has never been saved: empty, with the
/// default configuration.
pub open spec fn fresh_collection_view() -> CollectionView {
    CollectionView {
        config: Config { distance: Distance::Euclidean, dimension: None },
        items: Seq::empty(),
        next_id: 0,
    }
}

/// The collection value `ingest` starts from: the one saved under the
/// name, or a fresh one where nothing is saved.
pub open spec fn fetched(v: Seq<(Seq<char>, Seq<u8>)>, name: Seq<char>, c0: CollectionView) -> bool {
    if has_name(v, name) {
        stored_as(v, name, c0)
    } else {
        c0 == fresh_collection_view()
    }
}

/// Build one record per (chunk, embedding) pair, the chunk's text riding
/// along as metadata. The embedder boundary owes positional alignment:
/// sequences of different lengths are its failure.
pub fn records_from_chunks(chunks: &Vec<String>, vectors: &Vec<Vector>) -> (r: Result<
    Vec<Record>,
    Error,
>)
    ensures
        match r {
            Ok(rs) => chunks@.len() == vectors@.len() && recs_view(rs@) == pair_views(
                chunks@,
                vectors@,
            ),
            Err(e) => e == Error::EmbeddingFailure && chunks@.len() != vectors@.len(),
        },
{
    if chunks.len() != vectors.len() {
        return Err(Error::EmbeddingFailure);
    }
    let mut rs: Vec<Record> = Vec::new();
    let mut i: usize = 0;
    while i < chunks.len()
        invariant
            i <= chunks@.len(),
            chunks@.len() == vectors@.len(),
            rs@.len() == i,
            forall|t: int|
                0 <= t < i ==> (#[trigger] rs@[t])@ == pair_views(chunks@, vectors@)[t],
        decreases chunks@.len() - i,
    {
        let rec = data_to_record(&vectors[i], chunks[i].as_str());
        rs.push(rec);
        proof {
            assert(rs@[i as int]@ == pair_views(chunks@, vectors@)[i as int]);
        }
        i = i + 1;
    }
    proof {
        assert(recs_view(rs@) =~= pair_views(chunks@, vectors@));
    }
    Ok(rs)
}

/// Ingestion: pair the chunks with their embeddings, insert them as one
/// batch into the collection saved under `name` — created empty and
/// persisted first if it has never been saved — and save the result.
/// The whole batch is rejected on any dimension mismatch; an id space
/// with too little room left is refused as an unusable configuration.
pub fn ingest(db: &mut Database, name: &str, chunks: &Vec<String>, vectors: &Vec<Vector>) -> (r:
    Result<Vec<u64>, Error>)
    requires
        old(db).wf(),
    ensures
        final(db).wf(),
        match r {
            Ok(ids) => {
                &&& chunks@.len() == vectors@.len()
                &&& exists|c0: CollectionView|
                    {
                        let rv = pair_views(chunks@, vectors@);
                        let c1 = CollectionView {
                            config: c0.config,
                            items: c0.items + appended_items(c0.next_id, rv),
                            next_id: (c0.next_id + rv.len()) as u64,
                        };
                        &&& #[trigger] fetched(old(db)@, name@, c0)
                        &&& batch_ok(c0, rv)
                        &&& c0.next_id + rv.len() <= u64::MAX
                        &&& ids@.len() == rv.len()
                        &&& (forall|t: int| 0 <= t < ids@.len() ==> ids@[t] == c0.next_id + t)
                        &&& (has_name(old(db)@, name@) ==> exists|i: int|
                            0 <= i < old(db)@.len() && (#[trigger] old(db)@[i]).0 == name@
                                && final(db)@ == old(db)@.update(i, (name@, spec_encode_bytes(c1))))
                        &&& (!has_name(old(db)@, name@) ==> final(db)@ == old(db)@.push(
                            (name@, spec_encode_bytes(c1)),
                        ))
                    }
            },
            Err(e) => {
                &&& (e == Error::EmbeddingFailure || e == Error::DimensionMismatch || e
                    == Error::InvalidConfiguration)
                &&& (e == Error::EmbeddingFailure ==> chunks@.len() != vectors@.len() && final(db)@
                    == old(db)@)
                &&& (e == Error::DimensionMismatch ==> exists|c0: CollectionView|
                    #[trigger] fetched(old(db)@, name@, c0) && !batch_ok(
                        c0,
                        pair_views(chunks@, vectors@),
                    ))
                &&& (e == Error::InvalidConfiguration ==> exists|c0: CollectionView|
                    #[trigger] fetched(old(db)@, name@, c0) && c0.next_id + chunks@.len()
                        > u64::MAX)
                &&& (has_name(old(db)@, name@) ==> final(db)@ == old(db)@)
                &&& (!has_name(old(db)@, name@) && e == Error::EmbeddingFailure ==> final(db)@
                    == old(db)@)
                &&& (!has_name(old(db)@, name@) && e != Error::EmbeddingFailure ==> final(db)@
                    == old(db)@.push((name@, spec_encode_bytes(fresh_collection_view()))))
            },
        },
{
    let ghost pre = db@;
    let recs = match records_from_chunks(chunks, vectors) {
        Ok(rs) => rs,
        Err(e) => {
            return Err(e);
        },
    };
    let mut c = match db.get_collection(name) {
        Ok(c) => c,
        Err(_) => {
            let c0 = Collection::new(&Config::default());
            db.save_collection(name, &c0);
            proof {
                assert(c0@ == fresh_collection_view());
                assert(fetched(pre, name@, c0@));
            }
            c0
        },
    };
    let ghost c0v = c@;
    proof {
        assert(fetched(pre, name@, c0v));
    }
    proof {
        assert(recs_view(recs@).len() == recs@.len());
        assert(pair_views(chunks@, vectors@).len() == chunks@.len());
        assert(recs@.len() == chunks@.len());
    }
    if chunks.len() as u64 > u64::MAX - c.next_id {
        return Err(Error::InvalidConfiguration);
    }
    let ids = match c.insert_many(&recs) {
        Ok(ids) => ids,
        Err(e) => {
            return Err(e);
        },
    };
    db.save_collection(name, &c);
    proof {
        let rv = pair_views(chunks@, vectors@);
        let c1 = CollectionView {
            config: c0v.config,
            items: c0v.items + appended_items(c0v.next_id, rv),
            next_id: (c0v.next_id + rv.len()) as u64,
        };
        assert(c@ == c1);
        if has_name(pre, name@) {
            assert(final(db)@ == db@);
        } else {
            let mid = pre.push((name@, spec_encode_bytes(fresh_collection_view())));
            assert(mid[pre.len() as int].0 == name@);
            assert(has_name(mid, name@));
            assert(exists|i: int|
                0 <= i < mid.len() && (#[trigger] mid[i]).0 == name@ && db@ == mid.update(
                    i,
                    (name@, spec_encode_bytes(c1)),
                ));
            let i = choose|i: int|
                0 <= i < mid.len() && (#[trigger] mid[i]).0 == name@ && db@ == mid.update(
                    i,
                    (name@, spec_encode_bytes(c1)),
                );
            assert forall|t: int| 0 <= t < pre.len() implies (#[trigger] pre[t]).0 != name@ by {
                if pre[t].0 == name@ {
                    assert(has_name(pre, name@));
                }
            }
            assert forall|t: int| 0 <= t < pre.len() implies mid[t] == pre[t] by {}
            assert(i == pre.len() as int);
            assert(db@ =~= pre.push((name@, spec_encode_bytes(c1))));
        }
    }
    Ok(ids)
}

/// The chunk of the query text that is embedded: its first chunk at the
/// ingestion chunk size. An empty query yields no chunk and is rejected,
/// as is a chunk size of zero.
pub fn query_chunk(text: &str, size: usize) -> (r: Result<String, Error>)
    ensures
        match r {
            Ok(s) => size >= 1 && text@.len() > 0 && s@ == spec_chunks(text@, size as nat)[0],
            Err(e) => (e == Error::InvalidConfiguration && size == 0) || (e == Error::InvalidQuery
                && size >= 1 && text@.len() == 0),
        },
{
    match chunk(text, size) {
        Ok(chunks) => {
            if chunks.len() == 0 {
                proof {
                    assert(spec_chunks(text@, size as nat).len() == 0);
                    assert(text@.len() == 0);
                }
                Err(Error::InvalidQuery)
            } else {
                let s = chunks[0].clone();
                proof {
                    assert(chunks.deep_view().len() == chunks@.len());
                    if text@.len() == 0 {
                        assert(spec_chunks(text@, size as nat) == Seq::<Seq<char>>::empty());
                        assert(false);
                    }
                    assert(chunks.deep_view()[0] == chunks@[0]@);
                    assert(s@ == chunks@[0]@);
                }
                Ok(s)
            }
        },
        Err(e) => Err(e),
    }
}

/// The query flow against the store: fetch the collection saved under
/// `name` and run the nearest-neighbour search on it.
pub fn run_query(db: &Database, name: &str, query: &Vector, k: usize) -> (r: Result<
    Vec<SearchResult>,
    Error,
>)
    requires
        db.wf(),
    ensures
        match r {
            Ok(out) => exists|c0: CollectionView|
                #[trigger] stored_as(db@, name@, c0) && search_ok(c0, query@, k as int, out@),
            Err(e) => {
                ||| (e == Error::NotFound && !has_name(db@, name@))
                ||| (e == Error::DimensionMismatch && exists|c0: CollectionView|
                    #[trigger] stored_as(db@, name@, c0)
                        && crate::collection::spec_dim(c0) is Some && query@.len()
                        != crate::collection::spec_dim(c0).unwrap())
            },
        },
{
    let c = match db.get_collection(name) {
        Ok(c) => c,
        Err(e) => {
            return Err(e);
        },
    };
    c.search(query, k)
}

} // verus!
