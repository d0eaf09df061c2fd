//! A binary serialization format with backward-compatible schema evolution.
//!
//! Every document starts with a six-byte version header. Each field of a
//! record and each variant of a tagged union carries an "introduced in"
//! version; a field introduced after the document's stamped version is
//! absent from the wire and takes its default value on decode, while a
//! variant selector from the future is rejected explicitly.

use vstd::prelude::*;

pub mod config;
pub mod errors;
pub mod gated;
pub mod helpers;
pub mod implementations;
pub mod laws;
pub mod schema;
pub mod seqs;
pub mod traits;
pub mod version;
pub mod wire;

verus! {

pub use crate::config::ReadConfig;
pub use crate::errors::ReadError;
pub use crate::errors::WriteError;
pub use crate::helpers::deserialize_slice;
pub use crate::helpers::deserialize_slice_with_config;
pub use crate::helpers::to_vec;
pub use crate::helpers::write_to_slice;
pub use crate::helpers::SliceReader;
pub use crate::helpers::SliceWriter;
pub use crate::traits::Reader;
pub use crate::traits::Serializable;
pub use crate::traits::Writer;
pub use crate::version::Version;

/// Result type returned from any write action.
pub type WriteResult<T = ()> = Result<T, crate::errors::WriteError>;

/// Result type returned from any read action.
pub type ReadResult<T = ()> = Result<T, crate::errors::ReadError>;

} // verus!
