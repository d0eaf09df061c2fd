//! The writer, reader and codec capability contracts.
//!
//! A `Writer` is an append-only byte sink and a `Reader` a sequential byte
//! source that also carries the document's version tag. `Serializable` ties
//! a type to its wire layout: `spec_enc` gives the exact bytes a value
//! produces at a given document version, and the decode contract promises
//! that any input starting with the encoding of a canonical value decodes
//! back to that value.

use crate::errors::ReadError;
use crate::errors::WriteError;
use crate::version::Version;
use vstd::prelude::*;

verus! {

/// An append-only byte sink. `write` either appends the whole slice or
/// reports `EndOfOutput` leaving the sink unchanged; partial writes are
/// never observable.
pub trait Writer {
    /// The bytes accepted so far.
    spec fn out(&self) -> Seq<u8>;

    /// The sink's fixed capacity in bytes, or `None` for an unbounded sink.
    /// A write never changes it.
    spec fn capacity(&self) -> Option<nat>;

    /// Append the whole slice, or fail without changing the sink.
    fn write(&mut self, bytes: &[u8]) -> (r: Result<(), WriteError>)
        ensures
            final(self).capacity() == old(self).capacity(),
            r matches Ok(_) ==> final(self).out() == old(self).out() + bytes@,
            r matches Err(_) ==> final(self).out() == old(self).out(),
            (match old(self).capacity() {
                Option::None => true,
                Option::Some(limit) => old(self).out().len() + bytes@.len() <= limit,
            }) ==> r matches Ok(_),
    ;
}

/// Whether the sink `w` still has room for `n` more bytes.
pub open spec fn can_fit<W: Writer + ?Sized>(w: &W, n: nat) -> bool {
    match w.capacity() {
        Option::None => true,
        Option::Some(limit) => w.out().len() + n <= limit,
    }
}

/// A sequential byte source bound to one document. It knows the document's
/// version tag and hands out bytes from the front of the remaining input;
/// short reads are never observable.
pub trait Reader<'a> {
    /// The version tag stamped on the document being read. Stable for the
    /// lifetime of the reader.
    spec fn spec_version(&self) -> Version;

    /// The bytes not yet consumed.
    spec fn rem(&self) -> Seq<u8>;

    /// Whether the reader is backed by a persistent buffer that zero-copy
    /// slices may borrow from.
    spec fn persistent(&self) -> bool;

    /// The document's version tag.
    fn version(&self) -> (v: Version)
        ensures
            v == self.spec_version(),
    ;

    /// Take exactly `n` bytes from the front, or fail with `EndOfInput`
    /// leaving the source unchanged.
    fn read(&mut self, n: usize) -> (r: Result<Vec<u8>, ReadError>)
        ensures
            final(self).spec_version() == old(self).spec_version(),
            final(self).persistent() == old(self).persistent(),
            n <= old(self).rem().len() ==> (r matches Ok(b) && b@ == old(self).rem().take(
                n as int,
            ) && final(self).rem() == old(self).rem().skip(n as int)),
            n > old(self).rem().len() ==> (r matches Err(e) && e == ReadError::EndOfInput && final(self).rem() == old(self).rem()),
    ;

    /// Borrow exactly `n` bytes from the front without copying, or fail:
    /// with `ReaderNotPersistent` when no borrowable backing buffer exists,
    /// with `EndOfInput` when fewer than `n` bytes remain. On failure the
    /// source is unchanged.
    fn read_slice(&mut self, n: usize) -> (r: Result<&'a [u8], ReadError>)
        ensures
            final(self).spec_version() == old(self).spec_version(),
            final(self).persistent() == old(self).persistent(),
            !old(self).persistent() ==> (r matches Err(e) && e == ReadError::ReaderNotPersistent
                && final(self).rem() == old(self).rem()),
            old(self).persistent() && n <= old(self).rem().len() ==> (r matches Ok(s) && s@ == old(self).rem().take(n as int) && final(self).rem() == old(self).rem().skip(n as int)),
            old(self).persistent() && n > old(self).rem().len() ==> (r matches Err(e) && e
                == ReadError::EndOfInput && final(self).rem() == old(self).rem()),
    ;
}

/// A type with a versioned wire layout.
///
/// `spec_enc` fixes the exact bytes a value's model produces at a given
/// document version. `spec_canonical` picks out the models a document
/// stamped with that version can actually carry: values whose
/// version-gated parts hold their defaults wherever the document version
/// has not reached them. Decoding promises to invert encoding on exactly
/// those models.
pub trait Serializable<'a>: DeepView + Sized {
    /// The wire bytes of the model `m` when written at document version
    /// `version`.
    spec fn spec_enc(m: <Self as DeepView>::V, version: Version) -> Seq<u8>;

    /// Whether the model `m` can be carried by a document stamped
    /// `version`: every field gated out by `version` holds its default,
    /// every variant is introduced no later than `version`, and every
    /// length fits its wire-level prefix.
    spec fn spec_canonical(m: <Self as DeepView>::V, version: Version) -> bool;

    /// The model of the default value, taken when a gated field is absent
    /// from the wire.
    spec fn spec_default() -> <Self as DeepView>::V;

    /// Whether decoding borrows from the reader's backing buffer and hence
    /// needs a persistent reader.
    spec fn needs_persistent() -> bool;

    /// The default value, synthesized for a field introduced after the
    /// document's version.
    fn default_value() -> (r: Self)
        ensures
            r.deep_view() == Self::spec_default(),
    ;

    /// Append this value's wire bytes at document version `version`.
    ///
    /// Success is owed whenever the sink has room for the whole encoding;
    /// even on failure the sink still starts with everything it held
    /// before, and its capacity is unchanged.
    fn serialize<W: Writer>(&self, version: Version, writer: &mut W) -> (r: Result<
        (),
        WriteError,
    >)
        ensures
            old(writer).out().is_prefix_of(final(writer).out()),
            final(writer).capacity() == old(writer).capacity(),
            r matches Ok(_) ==> final(writer).out() == old(writer).out() + Self::spec_enc(
                self.deep_view(),
                version,
            ),
            (match old(writer).capacity() {
                Option::None => true,
                Option::Some(limit) => old(writer).out().len() + Self::spec_enc(
                    self.deep_view(),
                    version,
                ).len() <= limit,
            }) ==> r matches Ok(_),
    ;

    /// Decode one value from the front of the reader, consuming exactly
    /// its wire bytes.
    ///
    /// Whenever the remaining input starts with the encoding of a model
    /// that is canonical at the document's version (and the reader is
    /// persistent where zero-copy demands it), the decode returns exactly
    /// that model and consumes exactly its encoding — the round-trip
    /// guarantee. On any input the decode only consumes from the front and
    /// never touches the version tag.
    fn deserialize<R: Reader<'a>>(reader: &mut R) -> (r: Result<Self, ReadError>)
        ensures
            final(reader).spec_version() == old(reader).spec_version(),
            final(reader).persistent() == old(reader).persistent(),
            final(reader).rem().len() <= old(reader).rem().len(),
            final(reader).rem() == old(reader).rem().skip(
                old(reader).rem().len() - final(reader).rem().len(),
            ),
            forall|m: <Self as DeepView>::V|
                (#[trigger] Self::spec_enc(m, old(reader).spec_version()).is_prefix_of(
                    old(reader).rem(),
                ) && Self::spec_canonical(m, old(reader).spec_version()) && (old(reader).persistent() || !Self::needs_persistent())) ==> (r matches Ok(w)
                    && w.deep_view() == m && final(reader).rem() == old(reader).rem().skip(
                    Self::spec_enc(m, old(reader).spec_version()).len() as int,
                )),
    ;
}

} // verus!
