use vstd::prelude::*;
use crate::vector::Vector;

verus! {

broadcast use vstd::string::group_string_axioms;

/// Tagged metadata attached to a stored vector: a closed set of variants,
/// at minimum the text of the chunk the vector was embedded from.
pub enum Metadata {
    Text(String),
    Integer(i64),
}

/// The mathematical value of a `Metadata`: the same tag, with text as a
/// sequence of characters.
pub enum MetaView {
    Text(Seq<char>),
    Integer(i64),
}

impl View for Metadata {
    type V = MetaView;

    open spec fn view(&self) -> MetaView {
        match self {
            Metadata::Text(s) => MetaView::Text(s@),
            Metadata::Integer(n) => MetaView::Integer(*n),
        }
    }
}

impl Clone for Metadata {
    fn clone(&self) -> (r: Self)
        ensures
            r@ == self@,
    {
        match self {
            Metadata::Text(s) => Metadata::Text(s.clone()),
            Metadata::Integer(n) => Metadata::Integer(*n),
        }
    }
}

/// The unit stored in a collection: a vector and its metadata. The id is
/// not part of the record; the collection assigns ids on insertion and
/// keys its contents by them.
pub struct Record {
    pub vector: Vector,
    pub data: Metadata,
}

/// The mathematical value of a `Record`.
pub struct RecordView {
    pub vector: Seq<i32>,
    pub data: MetaView,
}

impl View for Record {
    type V = RecordView;

    open spec fn view(&self) -> RecordView {
        RecordView { vector: self.vector@, data: self.data@ }
    }
}

impl Clone for Record {
    fn clone(&self) -> (r: Self)
        ensures
            r@ == self@,
    {
        Record { vector: self.vector.clone(), data: self.data.clone() }
    }
}

impl Record {
    /// Build a record from a vector and its metadata, copying both.
    pub fn new(vector: &Vector, data: &Metadata) -> (r: Record)
        ensures
            r@.vector == vector@,
            r@.data == data@,
    {
        Record { vector: vector.clone(), data: data.clone() }
    }
}

/// Pair an embedding with the text of the chunk it was computed from,
/// ready for insertion: the chunk text rides along as text metadata.
pub fn data_to_record(emb: &Vector, txt: &str) -> (r: Record)
    ensures
        r@.vector == emb@,
        r@.data == MetaView::Text(txt@),
{
    let data = Metadata::Text(txt.to_string());
    Record::new(emb, &data)
}

} // verus!
