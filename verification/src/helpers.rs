//! Slice-backed reader and writer, and the unbounded vector writer.
//!
//! Both slice-backed ends bind a fixed buffer to a cursor and bounds-check
//! every access: on insufficient room or insufficient remaining bytes they
//! fail with a typed error without moving the cursor.

use crate::config::ReadConfig;
use crate::errors::ReadError;
use crate::errors::WriteError;
use crate::gated::be2_value;
use crate::implementations::version_bytes;
use crate::seqs::lemma_prefix_take;
use crate::traits::Reader;
use crate::traits::Serializable;
use crate::traits::Writer;
use crate::version::Version;
use vstd::prelude::*;
use vstd::slice::slice_subrange;
use vstd::slice::slice_to_vec;

verus! {

/// The full wire document of model `m` stamped with `version`: the six
/// header bytes followed by the root value's encoding.
pub open spec fn spec_document<'a, T: Serializable<'a>>(
    m: <T as DeepView>::V,
    version: Version,
) -> Seq<u8> {
    version_bytes(version) + T::spec_enc(m, version)
}

/// The version tag carried by a document's six-byte header.
pub open spec fn spec_header_version(s: Seq<u8>) -> Version {
    Version {
        major: be2_value(s[0], s[1]),
        minor: be2_value(s[2], s[3]),
        patch: be2_value(s[4], s[5]),
    }
}

/// The unbounded writer: a growable byte vector accepts every write.
impl Writer for Vec<u8> {
    closed spec fn out(&self) -> Seq<u8> {
        self@
    }

    closed spec fn capacity(&self) -> Option<nat> {
        Option::None
    }

    fn write(&mut self, bytes: &[u8]) -> (r: Result<(), WriteError>) {
        let n = bytes.len();
        let mut i: usize = 0;
        while i < n
            invariant
                i <= n,
                n == bytes@.len(),
                self@ == old(self)@ + bytes@.take(i as int),
            decreases n - i,
        {
            self.push(bytes[i]);
            proof {
                assert(old(self)@ + bytes@.take(i + 1) =~= (old(self)@ + bytes@.take(i as int)).push(
                    bytes@[i as int],
                ));
            }
            i = i + 1;
        }
        proof {
            assert(bytes@.take(n as int) =~= bytes@);
        }
        Ok(())
    }
}

/// A writer bound to a fixed-size buffer. Bytes are laid down from the
/// front; a write that would run past the end of the buffer fails with
/// `EndOfOutput` and leaves buffer and cursor untouched.
pub struct SliceWriter {
    buf: Vec<u8>,
    pos: usize,
}

impl SliceWriter {
    #[verifier::type_invariant]
    spec fn inv(self) -> bool {
        self.pos <= self.buf@.len()
    }

    /// Bind a writer to the given buffer, starting at its front.
    pub fn new(buf: Vec<u8>) -> (r: SliceWriter)
        ensures
            r.out() == Seq::<u8>::empty(),
            r.capacity() == Option::Some(buf@.len()),
    {
        let r = SliceWriter { buf, pos: 0 };
        proof {
            assert(r.out() =~= Seq::<u8>::empty());
        }
        r
    }

    /// How many bytes have been written so far.
    pub fn position(&self) -> (r: usize)
        ensures
            r as nat == self.out().len(),
    {
        proof {
            use_type_invariant(&*self);
        }
        self.pos
    }

    /// Give the buffer back: the written prefix followed by whatever the
    /// untouched rest of the buffer holds.
    pub fn into_buffer(self) -> (r: Vec<u8>)
        ensures
            self.capacity() == Option::Some(r@.len()),
            self.out().len() <= r@.len(),
            r@.take(self.out().len() as int) == self.out(),
    {
        proof {
            use_type_invariant(&self);
        }
        self.buf
    }
}

impl Writer for SliceWriter {
    closed spec fn out(&self) -> Seq<u8> {
        self.buf@.take(self.pos as int)
    }

    closed spec fn capacity(&self) -> Option<nat> {
        Option::Some(self.buf@.len())
    }

    fn write(&mut self, bytes: &[u8]) -> (r: Result<(), WriteError>) {
        proof {
            use_type_invariant(&*self);
        }
        let ghost entry = *self;
        let n = bytes.len();
        if n > self.buf.len() - self.pos {
            return Err(WriteError::EndOfOutput);
        }
        let p = self.pos;
        self.pos = 0;
        let mut local: Vec<u8> = Vec::new();
        core::mem::swap(&mut local, &mut self.buf);
        let mut i: usize = 0;
        while i < n
            invariant
                i <= n,
                n == bytes@.len(),
                p + n <= usize::MAX,
                p + n <= local@.len(),
                local@.len() == entry.buf@.len(),
                local@.take(p as int) == entry.buf@.take(p as int),
                local@.subrange(p as int, p + i) == bytes@.take(i as int),
            decreases n - i,
        {
            local.set(p + i, bytes[i]);
            proof {
                assert(local@.take(p as int) =~= entry.buf@.take(p as int));
                assert(local@.subrange(p as int, p + i + 1) =~= bytes@.take(i + 1));
            }
            i = i + 1;
        }
        core::mem::swap(&mut local, &mut self.buf);
        self.pos = p + n;
        proof {
            assert(bytes@.take(n as int) =~= bytes@);
            assert forall|j: int| 0 <= j < p implies self.buf@[j] == entry.buf@[j] by {
                assert(self.buf@.take(p as int)[j] == entry.buf@.take(p as int)[j]);
            }
            assert forall|j: int| p <= j < p + n implies self.buf@[j] == bytes@[j - p] by {
                assert(self.buf@.subrange(p as int, p + n)[j - p] == bytes@.take(n as int)[j - p]);
            }
            assert(self.buf@.take(self.pos as int) =~= entry.buf@.take(entry.pos as int)
                + bytes@);
        }
        Ok(())
    }
}

/// A reader bound to a borrowed byte slice. It hands out bytes from the
/// front, fails with `EndOfInput` when fewer bytes remain than requested,
/// and supports zero-copy slice extraction from its persistent backing
/// buffer.
pub struct SliceReader<'a> {
    version: Version,
    slice: &'a [u8],
    index: usize,
}

impl<'a> SliceReader<'a> {
    #[verifier::type_invariant]
    spec fn inv(self) -> bool {
        self.index <= self.slice@.len()
    }

    /// Bind a reader to the given document body, stamped with the given
    /// version tag.
    pub fn new(version: Version, slice: &'a [u8]) -> (r: SliceReader<'a>)
        ensures
            r.spec_version() == version,
            r.rem() == slice@,
            r.persistent(),
    {
        let r = SliceReader { version, slice, index: 0 };
        proof {
            assert(r.rem() =~= slice@);
        }
        r
    }

    /// How many bytes are left to read.
    pub fn remaining(&self) -> (r: usize)
        ensures
            r == self.rem().len(),
    {
        proof {
            use_type_invariant(&*self);
        }
        self.slice.len() - self.index
    }
}

impl<'a> Reader<'a> for SliceReader<'a> {
    closed spec fn spec_version(&self) -> Version {
        self.version
    }

    closed spec fn rem(&self) -> Seq<u8> {
        self.slice@.skip(self.index as int)
    }

    closed spec fn persistent(&self) -> bool {
        true
    }

    fn version(&self) -> (v: Version) {
        self.version
    }

    fn read(&mut self, n: usize) -> (r: Result<Vec<u8>, ReadError>) {
        proof {
            use_type_invariant(&*self);
        }
        if n > self.slice.len() - self.index {
            return Err(ReadError::EndOfInput);
        }
        let s = slice_subrange(self.slice, self.index, self.index + n);
        let v = slice_to_vec(s);
        self.index = self.index + n;
        proof {
            assert(v@ =~= old(self).rem().take(n as int));
            assert(self.rem() =~= old(self).rem().skip(n as int));
        }
        Ok(v)
    }

    fn read_slice(&mut self, n: usize) -> (r: Result<&'a [u8], ReadError>) {
        proof {
            use_type_invariant(&*self);
        }
        if n > self.slice.len() - self.index {
            return Err(ReadError::EndOfInput);
        }
        let s = slice_subrange(self.slice, self.index, self.index + n);
        self.index = self.index + n;
        proof {
            assert(s@ =~= old(self).rem().take(n as int));
            assert(self.rem() =~= old(self).rem().skip(n as int));
        }
        Ok(s)
    }
}

/// Encode a whole document — the version header, then the root value —
/// into a fresh byte vector. The unbounded writer accepts every byte, so
/// this never fails.
pub fn to_vec<'a, T: Serializable<'a>>(version: Version, t: &T) -> (r: Vec<u8>)
    ensures
        r@ == spec_document::<T>(t.deep_view(), version),
{
    let mut writer: Vec<u8> = Vec::new();
    let r1 = version.serialize(version, &mut writer);
    proof {
        assert(r1 is Ok);
        assert(writer@ =~= version_bytes(version));
    }
    let r2 = t.serialize(version, &mut writer);
    proof {
        assert(r2 is Ok);
        assert(writer@ =~= spec_document::<T>(t.deep_view(), version));
    }
    writer
}

/// Encode a whole document into the front of a fixed buffer, returning how
/// many bytes were written. Succeeds exactly when the document fits in the
/// buffer; on `EndOfOutput` the buffer keeps its length, with whatever was
/// laid down before the sink ran out.
pub fn write_to_slice<'a, T: Serializable<'a>>(
    slice: &mut Vec<u8>,
    version: Version,
    t: &T,
) -> (r: Result<usize, WriteError>)
    ensures
        final(slice)@.len() == old(slice)@.len(),
        r matches Ok(n) ==> n == spec_document::<T>(t.deep_view(), version).len()
            && final(slice)@.take(n as int) == spec_document::<T>(t.deep_view(), version),
        (r matches Ok(_)) <==> spec_document::<T>(t.deep_view(), version).len()
            <= old(slice)@.len(),
{
    let mut buf: Vec<u8> = Vec::new();
    core::mem::swap(slice, &mut buf);
    let mut w = SliceWriter::new(buf);
    let r1 = version.serialize(version, &mut w);
    if let Err(e) = r1 {
        let mut restored = w.into_buffer();
        core::mem::swap(slice, &mut restored);
        return Err(e);
    }
    let r2 = t.serialize(version, &mut w);
    match r2 {
        Ok(_) => {
            let nw = w.position();
            proof {
                assert(w.out() =~= spec_document::<T>(t.deep_view(), version));
            }
            let mut done = w.into_buffer();
            core::mem::swap(slice, &mut done);
            proof {
                lemma_prefix_take(spec_document::<T>(t.deep_view(), version), slice@);
            }
            Ok(nw)
        },
        Err(e) => {
            let mut restored = w.into_buffer();
            core::mem::swap(slice, &mut restored);
            Err(e)
        },
    }
}

/// Decode a whole document under the given configuration: parse the
/// six-byte version header, bind it to a slice reader over the rest,
/// decode the root value, and — in strict mode — fail with `TrailingBytes`
/// carrying the number of unconsumed bytes if any input is left.
pub fn deserialize_slice_with_config<'a, T: Serializable<'a>>(
    slice: &'a [u8],
    config: ReadConfig,
) -> (r: Result<T, ReadError>)
    ensures
        slice@.len() < 6 ==> (r matches Err(e) && e == ReadError::EndOfInput),
        slice@.len() >= 6 ==> (forall|m: <T as DeepView>::V|
            (#[trigger] T::spec_enc(m, spec_header_version(slice@)).is_prefix_of(slice@.skip(6))
                && T::spec_canonical(m, spec_header_version(slice@))) ==> {
                let extra = slice@.skip(6).len() - T::spec_enc(
                    m,
                    spec_header_version(slice@),
                ).len();
                if config.error_on_trailing_bytes && extra > 0 {
                    r matches Err(e) && e == ReadError::TrailingBytes(extra as usize)
                } else {
                    r matches Ok(w) && w.deep_view() == m
                }
            }),
{
    if slice.len() < 6 {
        return Err(ReadError::EndOfInput);
    }
    let major: u16 = (slice[0] as u16) * 256 + (slice[1] as u16);
    let minor: u16 = (slice[2] as u16) * 256 + (slice[3] as u16);
    let patch: u16 = (slice[4] as u16) * 256 + (slice[5] as u16);
    let hv = Version { major, minor, patch };
    proof {
        assert(hv == spec_header_version(slice@));
    }
    let body = slice_subrange(slice, 6, slice.len());
    proof {
        assert(body@ =~= slice@.skip(6));
    }
    let mut reader = SliceReader::new(hv, body);
    let value = match T::deserialize(&mut reader) {
        Ok(v) => v,
        Err(e) => {
            return Err(e);
        },
    };
    let rem_len = reader.remaining();
    if config.error_on_trailing_bytes && rem_len > 0 {
        return Err(ReadError::TrailingBytes(rem_len));
    }
    Ok(value)
}

/// Decode a whole document under the lenient default configuration, which
/// ignores trailing bytes.
pub fn deserialize_slice<'a, T: Serializable<'a>>(slice: &'a [u8]) -> (r: Result<T, ReadError>)
    ensures
        slice@.len() < 6 ==> (r matches Err(e) && e == ReadError::EndOfInput),
        slice@.len() >= 6 ==> (forall|m: <T as DeepView>::V|
            (#[trigger] T::spec_enc(m, spec_header_version(slice@)).is_prefix_of(slice@.skip(6))
                && T::spec_canonical(m, spec_header_version(slice@))) ==> (r matches Ok(w)
                && w.deep_view() == m)),
{
    deserialize_slice_with_config(slice, ReadConfig::default())
}

} // verus!
