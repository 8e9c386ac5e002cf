use vstd::prelude::*;

verus! {

/// The failure kinds surfaced by every fallible operation of this crate.
#[derive(Clone, Copy, Debug, PartialEq, Eq, Structural)]
pub enum Error {
    /// A configuration value is unusable, e.g. a chunk size of zero.
    InvalidConfiguration,
    /// A vector's length disagrees with the collection's established dimension.
    DimensionMismatch,
    /// No collection with the requested name has been saved.
    NotFound,
    /// The embedding boundary handed back a batch that does not line up
    /// with its input.
    EmbeddingFailure,
    /// The query text produced no chunk to embed.
    InvalidQuery,
    /// A durable snapshot could not be read back as a collection.
    PersistenceFailure,
}

} // verus!
