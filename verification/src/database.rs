use vstd::prelude::*;
use vstd::pervasive::VecAdditionalExecFns;
use crate::codec::{decode_collection_bytes, encode_collection_bytes, lemma_encode_decode_bytes, spec_decode_bytes,
    spec_encode_bytes};
use crate::collection::{Collection, CollectionView};
use crate::error::Error;

verus! {

broadcast use vstd::string::group_string_axioms;

/// A named registry of persisted collections, each held as its durable
/// bytes. A retrieved collection is a disconnected copy: changes to it
/// are invisible to the registry and to other holders until it is saved
/// back, which fully replaces the prior snapshot under that name.
pub struct Database {
    pub entries: Vec<(String, Vec<u8>)>,
}

/// The values of the registry's entries: name and durable bytes.
pub open spec fn entries_view(s: Seq<(String, Vec<u8>)>) -> Seq<(Seq<char>, Seq<u8>)> {
    s.map_values(|e: (String, Vec<u8>)| (e.0@, e.1@))
}

impl View for Database {
    type V = Seq<(Seq<char>, Seq<u8>)>;

    open spec fn view(&self) -> Seq<(Seq<char>, Seq<u8>)> {
        entries_view(self.entries@)
    }
}

/// Some entry bears this collection name.
pub open spec fn has_name(v: Seq<(Seq<char>, Seq<u8>)>, name: Seq<char>) -> bool {
    exists|i: int| 0 <= i < v.len() && (#[trigger] v[i]).0 == name
}

/// The entry bearing `name` holds the durable bytes of collection value
/// `c0`.
pub open spec fn stored_as(v: Seq<(Seq<char>, Seq<u8>)>, name: Seq<char>, c0: CollectionView) -> bool {
    exists|i: int|
        0 <= i < v.len() && (#[trigger] v[i]).0 == name && spec_decode_bytes(v[i].1) == Some(c0)
}

/// Well-formedness of the registry: names are unique and every held
/// snapshot decodes to a collection.
pub open spec fn database_inv(v: Seq<(Seq<char>, Seq<u8>)>) -> bool {
    &&& forall|i: int, j: int|
        0 <= i < j < v.len() ==> (#[trigger] v[i]).0 != (#[trigger] v[j]).0
    &&& forall|i: int| 0 <= i < v.len() ==> spec_decode_bytes((#[trigger] v[i]).1) is Some
}

impl Database {
    /// Well-formedness; constructors establish it and methods keep it.
    pub open spec fn wf(&self) -> bool {
        database_inv(self@)
    }

    /// An empty registry, holding no collections.
    pub fn new() -> (db: Database)
        ensures
            db@ == Seq::<(Seq<char>, Seq<u8>)>::empty(),
            db.wf(),
    {
        let db = Database { entries: Vec::new() };
        proof {
            assert(db@ =~= Seq::<(Seq<char>, Seq<u8>)>::empty());
        }
        db
    }

    /// The number of collections currently held.
    pub fn len(&self) -> (n: usize)
        ensures
            n == self@.len(),
    {
        self.entries.len()
    }

    /// The index of the entry bearing `name`, if any.
    fn find(&self, name: &str) -> (r: Option<usize>)
        ensures
            match r {
                Some(i) => i < self@.len() && self@[i as int].0 == name@,
                None => !has_name(self@, name@),
            },
    {
        let key = name.to_string();
        let mut i: usize = 0;
        while i < self.entries.len()
            invariant
                i <= self.entries@.len(),
                self@.len() == self.entries@.len(),
                key@ == name@,
                forall|t: int| 0 <= t < i ==> (#[trigger] self@[t]).0 != name@,
            decreases self.entries@.len() - i,
        {
            proof {
                assert(self@[i as int] == entries_view(self.entries@)[i as int]);
            }
            if self.entries[i].0 == key {
                return Some(i);
            }
            i = i + 1;
        }
        None
    }

    /// An owned copy of the collection saved under `name`, rebuilt from
    /// its durable bytes; `NotFound` if no collection of that name has
    /// been saved.
    pub fn get_collection(&self, name: &str) -> (r: Result<Collection, Error>)
        requires
            self.wf(),
        ensures
            match r {
                Ok(c) => c.wf() && stored_as(self@, name@, c@),
                Err(e) => e == Error::NotFound && !has_name(self@, name@),
            },
    {
        match self.find(name) {
            Some(i) => {
                match decode_collection_bytes(&self.entries[i].1) {
                    Ok(c) => {
                        proof {
                            assert(self@[i as int] == entries_view(self.entries@)[i as int]);
                        }
                        Ok(c)
                    },
                    Err(_) => {
                        proof {
                            assert(self@[i as int] == entries_view(self.entries@)[i as int]);
                            assert(spec_decode_bytes(self@[i as int].1) is Some);
                            assert(false);
                        }
                        Err(Error::NotFound)
                    },
                }
            },
            None => Err(Error::NotFound),
        }
    }

    /// Save `collection` under `name`, fully replacing any prior snapshot
    /// of that name; this is the only durability point.
    pub fn save_collection(&mut self, name: &str, collection: &Collection)
        requires
            old(self).wf(),
            collection.wf(),
        ensures
            final(self).wf(),
            has_name(old(self)@, name@) ==> exists|i: int|
                0 <= i < old(self)@.len() && (#[trigger] old(self)@[i]).0 == name@ && final(self)@
                    == old(self)@.update(i, (name@, spec_encode_bytes(collection@))),
            !has_name(old(self)@, name@) ==> final(self)@ == old(self)@.push(
                (name@, spec_encode_bytes(collection@)),
            ),
            spec_decode_bytes(spec_encode_bytes(collection@)) == Some(collection@),
    {
        let blob = encode_collection_bytes(collection);
        proof {
            lemma_encode_decode_bytes(collection@);
        }
        let key = name.to_string();
        match self.find(name) {
            Some(i) => {
                self.entries.set(i, (key, blob));
                proof {
                    assert(self@ =~= old(self)@.update(i as int, (name@, spec_encode_bytes(collection@))));
                    assert forall|a: int, b: int|
                        0 <= a < b < self@.len() implies (#[trigger] self@[a]).0 != (
                    #[trigger] self@[b]).0 by {
                        assert(old(self)@[a].0 != old(self)@[b].0);
                    }
                }
            },
            None => {
                self.entries.push((key, blob));
                proof {
                    assert(self@ =~= old(self)@.push((name@, spec_encode_bytes(collection@))));
                    assert forall|a: int, b: int|
                        0 <= a < b < self@.len() implies (#[trigger] self@[a]).0 != (
                    #[trigger] self@[b]).0 by {
                        if b < self@.len() - 1 {
                            assert(old(self)@[a].0 != old(self)@[b].0);
                        } else {
                            assert(self@[a] == old(self)@[a]);
                            assert(!has_name(old(self)@, name@));
                        }
                    }
                }
            },
        }
    }

    /// Drop the snapshot saved under `name`; a later `get_collection`
    /// for that name fails with `NotFound`. `NotFound` if nothing is
    /// saved under the name.
    pub fn delete_collection(&mut self, name: &str) -> (r: Result<(), Error>)
        requires
            old(self).wf(),
        ensures
            final(self).wf(),
            match r {
                Ok(_) => exists|i: int|
                    0 <= i < old(self)@.len() && (#[trigger] old(self)@[i]).0 == name@
                        && final(self)@ == old(self)@.remove(i),
                Err(e) => e == Error::NotFound && !has_name(old(self)@, name@) && final(self)@
                    == old(self)@,
            },
            !has_name(final(self)@, name@),
    {
        match self.find(name) {
            Some(i) => {
                self.entries.remove(i);
                proof {
                    let pre = old(self)@;
                    assert(self@ =~= pre.remove(i as int));
                    assert forall|t: int| 0 <= t < self@.len() implies self@[t] == (if t < i as int {
                        pre[t]
                    } else {
                        pre[t + 1]
                    }) by {
                        assert(self@ == pre.remove(i as int));
                    }
                    assert forall|a: int, b: int|
                        0 <= a < b < self@.len() implies (#[trigger] self@[a]).0 != (
                    #[trigger] self@[b]).0 by {}
                    assert forall|t: int| 0 <= t < self@.len() implies self@[t].0 != name@ by {
                        if t < i as int {
                            assert(pre[t].0 != pre[i as int].0);
                        } else {
                            assert(pre[t + 1].0 != pre[i as int].0);
                        }
                    }
                }
                Ok(())
            },
            None => Err(Error::NotFound),
        }
    }
}

} // verus!
