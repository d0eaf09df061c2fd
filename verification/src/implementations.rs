//! The primitive codecs: fixed-width integers, booleans, UTF-8 text, byte
//! blobs and homogeneous sequences, each with its canonical big-endian,
//! length-prefixed wire layout.

use crate::errors::ReadError;
use crate::errors::WriteError;
use crate::seqs::lemma_concat_assoc;
use crate::seqs::lemma_prefix_append;
use crate::seqs::lemma_prefix_refl;
use crate::seqs::lemma_prefix_split;
use crate::seqs::lemma_prefix_take;
use crate::seqs::lemma_prefix_trans;
use crate::seqs::lemma_skip_skip;
use crate::seqs::lemma_skip_zero;
use crate::traits::Reader;
use crate::traits::Serializable;
use crate::traits::Writer;
use crate::version::Version;
use crate::wire::be2;
use crate::wire::be2_decode;
use crate::wire::be2_vec;
use crate::wire::be4;
use crate::wire::be4_decode;
use crate::wire::be4_vec;
use crate::wire::be8;
use crate::wire::be8_decode;
use crate::wire::be8_vec;
use crate::wire::be16;
use crate::wire::be16_decode;
use crate::wire::be16_vec;
use crate::wire::i128_from_wire;
use crate::wire::i128_to_wire;
use crate::wire::i16_from_wire;
use crate::wire::i16_to_wire;
use crate::wire::i32_from_wire;
use crate::wire::i32_to_wire;
use crate::wire::i64_from_wire;
use crate::wire::i64_to_wire;
use crate::wire::i8_from_wire;
use crate::wire::i8_to_wire;
use crate::wire::lemma_be16_injective;
use crate::wire::lemma_be2_injective;
use crate::wire::lemma_be4_injective;
use crate::wire::lemma_be8_injective;
use crate::wire::lemma_i128_wire_inverse;
use crate::wire::lemma_i16_wire_inverse;
use crate::wire::lemma_i32_wire_inverse;
use crate::wire::lemma_i64_wire_inverse;
use crate::wire::lemma_i8_wire_inverse;
use crate::wire::u128_of_i128;
use crate::wire::u16_of_i16;
use crate::wire::u32_of_i32;
use crate::wire::u64_of_i64;
use crate::wire::u8_of_i8;
use vstd::prelude::*;
use vstd::utf8::decode_utf8;
use vstd::utf8::encode_utf8;
use vstd::utf8::encode_utf8_decode_utf8;
use vstd::utf8::encode_utf8_valid_utf8;
use vstd::utf8::valid_utf8;

verus! {

impl<'a> Serializable<'a> for u8 {
    open spec fn spec_enc(m: u8, version: Version) -> Seq<u8> {
        seq![m]
    }

    open spec fn spec_canonical(m: u8, version: Version) -> bool {
        true
    }

    open spec fn spec_default() -> u8 {
        0u8
    }

    open spec fn needs_persistent() -> bool {
        false
    }

    fn default_value() -> (r: u8) {
        0
    }

    fn serialize<W: Writer>(&self, version: Version, writer: &mut W) -> (r: Result<
        (),
        WriteError,
    >) {
        let mut b: Vec<u8> = Vec::new();
        b.push(*self);
        proof {
            assert(b@ =~= seq![*self]);
        }
        let res = writer.write(b.as_slice());
        proof {
            if res is Ok {
                lemma_prefix_append(old(writer).out(), seq![*self]);
            } else {
                lemma_prefix_refl(old(writer).out());
            }
        }
        res
    }

    fn deserialize<R: Reader<'a>>(reader: &mut R) -> (r: Result<u8, ReadError>) {
        let b = match reader.read(1) {
            Ok(b) => b,
            Err(e) => {
                proof {
                    lemma_skip_zero(old(reader).rem());
                }
                return Err(e);
            },
        };
        let x = b[0];
        proof {
            assert forall|m: u8|
                #[trigger] Self::spec_enc(m, old(reader).spec_version()).is_prefix_of(
                    old(reader).rem(),
                ) implies m == x by {
                lemma_prefix_take(seq![m], old(reader).rem());
                assert(seq![m][0] == old(reader).rem().take(1)[0]);
            }
        }
        Ok(x)
    }
}

impl<'a> Serializable<'a> for u16 {
    open spec fn spec_enc(m: u16, version: Version) -> Seq<u8> {
        be2(m)
    }

    open spec fn spec_canonical(m: u16, version: Version) -> bool {
        true
    }

    open spec fn spec_default() -> u16 {
        0u16
    }

    open spec fn needs_persistent() -> bool {
        false
    }

    fn default_value() -> (r: u16) {
        0
    }

    fn serialize<W: Writer>(&self, version: Version, writer: &mut W) -> (r: Result<
        (),
        WriteError,
    >) {
        let b = be2_vec(*self);
        let res = writer.write(b.as_slice());
        proof {
            if res is Ok {
                lemma_prefix_append(old(writer).out(), be2(*self));
            } else {
                lemma_prefix_refl(old(writer).out());
            }
        }
        res
    }

    fn deserialize<R: Reader<'a>>(reader: &mut R) -> (r: Result<u16, ReadError>) {
        let b = match reader.read(2) {
            Ok(b) => b,
            Err(e) => {
                proof {
                    lemma_skip_zero(old(reader).rem());
                }
                return Err(e);
            },
        };
        let x = be2_decode(&b);
        proof {
            assert forall|m: u16|
                #[trigger] be2(m).is_prefix_of(old(reader).rem()) implies m == x by {
                lemma_prefix_take(be2(m), old(reader).rem());
                lemma_be2_injective(m, x);
            }
        }
        Ok(x)
    }
}

impl<'a> Serializable<'a> for u32 {
    open spec fn spec_enc(m: u32, version: Version) -> Seq<u8> {
        be4(m)
    }

    open spec fn spec_canonical(m: u32, version: Version) -> bool {
        true
    }

    open spec fn spec_default() -> u32 {
        0u32
    }

    open spec fn needs_persistent() -> bool {
        false
    }

    fn default_value() -> (r: u32) {
        0
    }

    fn serialize<W: Writer>(&self, version: Version, writer: &mut W) -> (r: Result<
        (),
        WriteError,
    >) {
        let b = be4_vec(*self);
        let res = writer.write(b.as_slice());
        proof {
            if res is Ok {
                lemma_prefix_append(old(writer).out(), be4(*self));
            } else {
                lemma_prefix_refl(old(writer).out());
            }
        }
        res
    }

    fn deserialize<R: Reader<'a>>(reader: &mut R) -> (r: Result<u32, ReadError>) {
        let b = match reader.read(4) {
            Ok(b) => b,
            Err(e) => {
                proof {
                    lemma_skip_zero(old(reader).rem());
                }
                return Err(e);
            },
        };
        let x = be4_decode(&b);
        proof {
            assert forall|m: u32|
                #[trigger] be4(m).is_prefix_of(old(reader).rem()) implies m == x by {
                lemma_prefix_take(be4(m), old(reader).rem());
                lemma_be4_injective(m, x);
            }
        }
        Ok(x)
    }
}

impl<'a> Serializable<'a> for u64 {
    open spec fn spec_enc(m: u64, version: Version) -> Seq<u8> {
        be8(m)
    }

    open spec fn spec_canonical(m: u64, version: Version) -> bool {
        true
    }

    open spec fn spec_default() -> u64 {
        0u64
    }

    open spec fn needs_persistent() -> bool {
        false
    }

    fn default_value() -> (r: u64) {
        0
    }

    fn serialize<W: Writer>(&self, version: Version, writer: &mut W) -> (r: Result<
        (),
        WriteError,
    >) {
        let b = be8_vec(*self);
        let res = writer.write(b.as_slice());
        proof {
            if res is Ok {
                lemma_prefix_append(old(writer).out(), be8(*self));
            } else {
                lemma_prefix_refl(old(writer).out());
            }
        }
        res
    }

    fn deserialize<R: Reader<'a>>(reader: &mut R) -> (r: Result<u64, ReadError>) {
        let b = match reader.read(8) {
            Ok(b) => b,
            Err(e) => {
                proof {
                    lemma_skip_zero(old(reader).rem());
                }
                return Err(e);
            },
        };
        let x = be8_decode(&b);
        proof {
            assert forall|m: u64|
                #[trigger] be8(m).is_prefix_of(old(reader).rem()) implies m == x by {
                lemma_prefix_take(be8(m), old(reader).rem());
                lemma_be8_injective(m, x);
            }
        }
        Ok(x)
    }
}


impl<'a> Serializable<'a> for u128 {
    open spec fn spec_enc(m: u128, version: Version) -> Seq<u8> {
        be16(m)
    }

    open spec fn spec_canonical(m: u128, version: Version) -> bool {
        true
    }

    open spec fn spec_default() -> u128 {
        0u128
    }

    open spec fn needs_persistent() -> bool {
        false
    }

    fn default_value() -> (r: u128) {
        0
    }

    fn serialize<W: Writer>(&self, version: Version, writer: &mut W) -> (r: Result<
        (),
        WriteError,
    >) {
        let b = be16_vec(*self);
        let res = writer.write(b.as_slice());
        proof {
            if res is Ok {
                lemma_prefix_append(old(writer).out(), be16(*self));
            } else {
                lemma_prefix_refl(old(writer).out());
            }
        }
        res
    }

    fn deserialize<R: Reader<'a>>(reader: &mut R) -> (r: Result<u128, ReadError>) {
        let b = match reader.read(16) {
            Ok(b) => b,
            Err(e) => {
                proof {
                    lemma_skip_zero(old(reader).rem());
                }
                return Err(e);
            },
        };
        let x = be16_decode(&b);
        proof {
            assert forall|m: u128|
                #[trigger] be16(m).is_prefix_of(old(reader).rem()) implies m == x by {
                lemma_prefix_take(be16(m), old(reader).rem());
                lemma_be16_injective(m, x);
            }
        }
        Ok(x)
    }
}

impl<'a> Serializable<'a> for i16 {
    open spec fn spec_enc(m: i16, version: Version) -> Seq<u8> {
        be2(u16_of_i16(m))
    }

    open spec fn spec_canonical(m: i16, version: Version) -> bool {
        true
    }

    open spec fn spec_default() -> i16 {
        0
    }

    open spec fn needs_persistent() -> bool {
        false
    }

    fn default_value() -> (r: i16) {
        0
    }

    fn serialize<W: Writer>(&self, version: Version, writer: &mut W) -> (r: Result<
        (),
        WriteError,
    >) {
        let b = be2_vec(i16_to_wire(*self));
        let res = writer.write(b.as_slice());
        proof {
            if res is Ok {
                lemma_prefix_append(old(writer).out(), be2(u16_of_i16(*self)));
            } else {
                lemma_prefix_refl(old(writer).out());
            }
        }
        res
    }

    fn deserialize<R: Reader<'a>>(reader: &mut R) -> (r: Result<i16, ReadError>) {
        let b = match reader.read(2) {
            Ok(b) => b,
            Err(e) => {
                proof {
                    lemma_skip_zero(old(reader).rem());
                }
                return Err(e);
            },
        };
        let pattern = be2_decode(&b);
        let x = i16_from_wire(pattern);
        proof {
            assert forall|m: i16|
                #[trigger] be2(u16_of_i16(m)).is_prefix_of(old(reader).rem()) implies m == x by {
                lemma_prefix_take(be2(u16_of_i16(m)), old(reader).rem());
                lemma_be2_injective(u16_of_i16(m), pattern);
                lemma_i16_wire_inverse(m);
            }
        }
        Ok(x)
    }
}


impl<'a> Serializable<'a> for i32 {
    open spec fn spec_enc(m: i32, version: Version) -> Seq<u8> {
        be4(u32_of_i32(m))
    }

    open spec fn spec_canonical(m: i32, version: Version) -> bool {
        true
    }

    open spec fn spec_default() -> i32 {
        0
    }

    open spec fn needs_persistent() -> bool {
        false
    }

    fn default_value() -> (r: i32) {
        0
    }

    fn serialize<W: Writer>(&self, version: Version, writer: &mut W) -> (r: Result<
        (),
        WriteError,
    >) {
        let b = be4_vec(i32_to_wire(*self));
        let res = writer.write(b.as_slice());
        proof {
            if res is Ok {
                lemma_prefix_append(old(writer).out(), be4(u32_of_i32(*self)));
            } else {
                lemma_prefix_refl(old(writer).out());
            }
        }
        res
    }

    fn deserialize<R: Reader<'a>>(reader: &mut R) -> (r: Result<i32, ReadError>) {
        let b = match reader.read(4) {
            Ok(b) => b,
            Err(e) => {
                proof {
                    lemma_skip_zero(old(reader).rem());
                }
                return Err(e);
            },
        };
        let pattern = be4_decode(&b);
        let x = i32_from_wire(pattern);
        proof {
            assert forall|m: i32|
                #[trigger] be4(u32_of_i32(m)).is_prefix_of(old(reader).rem()) implies m == x by {
                lemma_prefix_take(be4(u32_of_i32(m)), old(reader).rem());
                lemma_be4_injective(u32_of_i32(m), pattern);
                lemma_i32_wire_inverse(m);
            }
        }
        Ok(x)
    }
}


impl<'a> Serializable<'a> for i64 {
    open spec fn spec_enc(m: i64, version: Version) -> Seq<u8> {
        be8(u64_of_i64(m))
    }

    open spec fn spec_canonical(m: i64, version: Version) -> bool {
        true
    }

    open spec fn spec_default() -> i64 {
        0
    }

    open spec fn needs_persistent() -> bool {
        false
    }

    fn default_value() -> (r: i64) {
        0
    }

    fn serialize<W: Writer>(&self, version: Version, writer: &mut W) -> (r: Result<
        (),
        WriteError,
    >) {
        let b = be8_vec(i64_to_wire(*self));
        let res = writer.write(b.as_slice());
        proof {
            if res is Ok {
                lemma_prefix_append(old(writer).out(), be8(u64_of_i64(*self)));
            } else {
                lemma_prefix_refl(old(writer).out());
            }
        }
        res
    }

    fn deserialize<R: Reader<'a>>(reader: &mut R) -> (r: Result<i64, ReadError>) {
        let b = match reader.read(8) {
            Ok(b) => b,
            Err(e) => {
                proof {
                    lemma_skip_zero(old(reader).rem());
                }
                return Err(e);
            },
        };
        let pattern = be8_decode(&b);
        let x = i64_from_wire(pattern);
        proof {
            assert forall|m: i64|
                #[trigger] be8(u64_of_i64(m)).is_prefix_of(old(reader).rem()) implies m == x by {
                lemma_prefix_take(be8(u64_of_i64(m)), old(reader).rem());
                lemma_be8_injective(u64_of_i64(m), pattern);
                lemma_i64_wire_inverse(m);
            }
        }
        Ok(x)
    }
}


impl<'a> Serializable<'a> for i128 {
    open spec fn spec_enc(m: i128, version: Version) -> Seq<u8> {
        be16(u128_of_i128(m))
    }

    open spec fn spec_canonical(m: i128, version: Version) -> bool {
        true
    }

    open spec fn spec_default() -> i128 {
        0
    }

    open spec fn needs_persistent() -> bool {
        false
    }

    fn default_value() -> (r: i128) {
        0
    }

    fn serialize<W: Writer>(&self, version: Version, writer: &mut W) -> (r: Result<
        (),
        WriteError,
    >) {
        let b = be16_vec(i128_to_wire(*self));
        let res = writer.write(b.as_slice());
        proof {
            if res is Ok {
                lemma_prefix_append(old(writer).out(), be16(u128_of_i128(*self)));
            } else {
                lemma_prefix_refl(old(writer).out());
            }
        }
        res
    }

    #[verifier::rlimit(30)]
    fn deserialize<R: Reader<'a>>(reader: &mut R) -> (r: Result<i128, ReadError>) {
        let b = match reader.read(16) {
            Ok(b) => b,
            Err(e) => {
                proof {
                    lemma_skip_zero(old(reader).rem());
                }
                return Err(e);
            },
        };
        let pattern = be16_decode(&b);
        let x = i128_from_wire(pattern);
        proof {
            assert forall|m: i128|
                #[trigger] be16(u128_of_i128(m)).is_prefix_of(old(reader).rem()) implies m == x by {
                lemma_prefix_take(be16(u128_of_i128(m)), old(reader).rem());
                lemma_be16_injective(u128_of_i128(m), pattern);
                lemma_i128_wire_inverse(m);
            }
        }
        Ok(x)
    }
}


impl<'a> Serializable<'a> for i8 {
    open spec fn spec_enc(m: i8, version: Version) -> Seq<u8> {
        seq![u8_of_i8(m)]
    }

    open spec fn spec_canonical(m: i8, version: Version) -> bool {
        true
    }

    open spec fn spec_default() -> i8 {
        0
    }

    open spec fn needs_persistent() -> bool {
        false
    }

    fn default_value() -> (r: i8) {
        0
    }

    fn serialize<W: Writer>(&self, version: Version, writer: &mut W) -> (r: Result<
        (),
        WriteError,
    >) {
        let mut b: Vec<u8> = Vec::new();
        b.push(i8_to_wire(*self));
        proof {
            assert(b@ =~= seq![u8_of_i8(*self)]);
        }
        let res = writer.write(b.as_slice());
        proof {
            if res is Ok {
                lemma_prefix_append(old(writer).out(), seq![u8_of_i8(*self)]);
            } else {
                lemma_prefix_refl(old(writer).out());
            }
        }
        res
    }

    fn deserialize<R: Reader<'a>>(reader: &mut R) -> (r: Result<i8, ReadError>) {
        let b = match reader.read(1) {
            Ok(b) => b,
            Err(e) => {
                proof {
                    lemma_skip_zero(old(reader).rem());
                }
                return Err(e);
            },
        };
        let x = i8_from_wire(b[0]);
        proof {
            assert forall|m: i8|
                #[trigger] Self::spec_enc(m, old(reader).spec_version()).is_prefix_of(
                    old(reader).rem(),
                ) implies m == x by {
                lemma_prefix_take(seq![u8_of_i8(m)], old(reader).rem());
                assert(seq![u8_of_i8(m)][0] == old(reader).rem().take(1)[0]);
                lemma_i8_wire_inverse(m);
            }
        }
        Ok(x)
    }
}

/// The single wire byte of a boolean: one for true, zero for false.
pub open spec fn bool_byte(m: bool) -> u8 {
    if m {
        1u8
    } else {
        0u8
    }
}

impl<'a> Serializable<'a> for bool {
    open spec fn spec_enc(m: bool, version: Version) -> Seq<u8> {
        seq![bool_byte(m)]
    }

    open spec fn spec_canonical(m: bool, version: Version) -> bool {
        true
    }

    open spec fn spec_default() -> bool {
        false
    }

    open spec fn needs_persistent() -> bool {
        false
    }

    fn default_value() -> (r: bool) {
        false
    }

    fn serialize<W: Writer>(&self, version: Version, writer: &mut W) -> (r: Result<
        (),
        WriteError,
    >) {
        let byte: u8 = if *self {
            1
        } else {
            0
        };
        let mut b: Vec<u8> = Vec::new();
        b.push(byte);
        proof {
            assert(b@ =~= seq![bool_byte(*self)]);
        }
        let res = writer.write(b.as_slice());
        proof {
            if res is Ok {
                lemma_prefix_append(old(writer).out(), seq![bool_byte(*self)]);
            } else {
                lemma_prefix_refl(old(writer).out());
            }
        }
        res
    }

    fn deserialize<R: Reader<'a>>(reader: &mut R) -> (r: Result<bool, ReadError>)
        ensures
            old(reader).rem().len() >= 1 ==> (r matches Ok(w) && w == (old(reader).rem()[0]
                == 1)),
            old(reader).rem().len() == 0 ==> (r matches Err(e) && e == ReadError::EndOfInput),
    {
        let b = match reader.read(1) {
            Ok(b) => b,
            Err(e) => {
                proof {
                    lemma_skip_zero(old(reader).rem());
                }
                return Err(e);
            },
        };
        let x = b[0] == 1;
        proof {
            assert forall|m: bool|
                #[trigger] Self::spec_enc(m, old(reader).spec_version()).is_prefix_of(
                    old(reader).rem(),
                ) implies m == x by {
                lemma_prefix_take(seq![bool_byte(m)], old(reader).rem());
                assert(seq![bool_byte(m)][0] == old(reader).rem().take(1)[0]);
            }
        }
        Ok(x)
    }
}

/// The six header bytes of a version tag: major, minor, patch, each as two
/// big-endian bytes.
pub open spec fn version_bytes(m: Version) -> Seq<u8> {
    be2(m.major) + be2(m.minor) + be2(m.patch)
}

impl<'a> Serializable<'a> for Version {
    open spec fn spec_enc(m: Version, version: Version) -> Seq<u8> {
        version_bytes(m)
    }

    open spec fn spec_canonical(m: Version, version: Version) -> bool {
        true
    }

    open spec fn spec_default() -> Version {
        Version { major: 0, minor: 0, patch: 0 }
    }

    open spec fn needs_persistent() -> bool {
        false
    }

    fn default_value() -> (r: Version) {
        Version { major: 0, minor: 0, patch: 0 }
    }

    fn serialize<W: Writer>(&self, version: Version, writer: &mut W) -> (r: Result<
        (),
        WriteError,
    >) {
        let mut b = be2_vec(self.major);
        let mut t = be2_vec(self.minor);
        b.append(&mut t);
        let mut t2 = be2_vec(self.patch);
        b.append(&mut t2);
        proof {
            assert(b@ =~= version_bytes(*self));
        }
        let res = writer.write(b.as_slice());
        proof {
            if res is Ok {
                lemma_prefix_append(old(writer).out(), version_bytes(*self));
            } else {
                lemma_prefix_refl(old(writer).out());
            }
        }
        res
    }

    fn deserialize<R: Reader<'a>>(reader: &mut R) -> (r: Result<Version, ReadError>) {
        let b = match reader.read(6) {
            Ok(b) => b,
            Err(e) => {
                proof {
                    lemma_skip_zero(old(reader).rem());
                }
                return Err(e);
            },
        };
        let mut b0: Vec<u8> = Vec::new();
        b0.push(b[0]);
        b0.push(b[1]);
        let mut b1: Vec<u8> = Vec::new();
        b1.push(b[2]);
        b1.push(b[3]);
        let mut b2: Vec<u8> = Vec::new();
        b2.push(b[4]);
        b2.push(b[5]);
        let major = be2_decode(&b0);
        let minor = be2_decode(&b1);
        let patch = be2_decode(&b2);
        let x = Version { major, minor, patch };
        proof {
            assert(version_bytes(x) =~= b@);
            assert forall|m: Version|
                #[trigger] version_bytes(m).is_prefix_of(old(reader).rem()) implies m == x by {
                lemma_prefix_take(version_bytes(m), old(reader).rem());
                assert(be2(m.major) =~= version_bytes(m).subrange(0, 2));
                assert(be2(m.minor) =~= version_bytes(m).subrange(2, 4));
                assert(be2(m.patch) =~= version_bytes(m).subrange(4, 6));
                assert(be2(x.major) =~= version_bytes(x).subrange(0, 2));
                assert(be2(x.minor) =~= version_bytes(x).subrange(2, 4));
                assert(be2(x.patch) =~= version_bytes(x).subrange(4, 6));
                lemma_be2_injective(m.major, x.major);
                lemma_be2_injective(m.minor, x.minor);
                lemma_be2_injective(m.patch, x.patch);
            }
        }
        Ok(x)
    }
}

/// The 32-bit length prefix written for a byte or element count: the count
/// truncated to 32 bits. A canonical value's count fits, so round-tripped
/// data never truncates.
pub open spec fn len_u32(n: nat) -> u32 {
    n as u32
}

/// The concatenation of the encodings of a sequence of element models, in
/// order.
pub open spec fn spec_seq_enc<'a, T: Serializable<'a>>(
    ms: Seq<<T as DeepView>::V>,
    version: Version,
) -> Seq<u8>
    decreases ms.len(),
{
    if ms.len() == 0 {
        Seq::empty()
    } else {
        T::spec_enc(ms[0], version) + spec_seq_enc::<T>(ms.skip(1), version)
    }
}

/// A sequence's encoding splits at any index into the encoding of the part
/// before it and the encoding of the part from it on.
pub proof fn lemma_seq_enc_split<'a, T: Serializable<'a>>(
    ms: Seq<<T as DeepView>::V>,
    version: Version,
    i: int,
)
    requires
        0 <= i <= ms.len(),
    ensures
        spec_seq_enc::<T>(ms, version) == spec_seq_enc::<T>(ms.take(i), version)
            + spec_seq_enc::<T>(ms.skip(i), version),
    decreases i,
{
    if i == 0 {
        assert(ms.take(0) =~= Seq::<<T as DeepView>::V>::empty());
        assert(ms.skip(0) =~= ms);
        assert(spec_seq_enc::<T>(ms.take(0), version) + spec_seq_enc::<T>(ms, version)
            =~= spec_seq_enc::<T>(ms, version));
    } else {
        let tail = ms.skip(1);
        lemma_seq_enc_split::<T>(tail, version, i - 1);
        assert(ms.take(i).skip(1) =~= tail.take(i - 1));
        assert(ms.skip(i) =~= tail.skip(i - 1));
        assert(ms.take(i)[0] == ms[0]);
        lemma_concat_assoc(
            T::spec_enc(ms[0], version),
            spec_seq_enc::<T>(tail.take(i - 1), version),
            spec_seq_enc::<T>(tail.skip(i - 1), version),
        );
    }
}

/// One decode step: the encoding of the part from index `i` on starts with
/// the encoding of element `i`.
pub proof fn lemma_seq_enc_step<'a, T: Serializable<'a>>(
    ms: Seq<<T as DeepView>::V>,
    version: Version,
    i: int,
)
    requires
        0 <= i < ms.len(),
    ensures
        spec_seq_enc::<T>(ms.skip(i), version) == T::spec_enc(ms[i], version) + spec_seq_enc::<T>(
            ms.skip(i + 1),
            version,
        ),
{
    assert(ms.skip(i)[0] == ms[i]);
    assert(ms.skip(i).skip(1) =~= ms.skip(i + 1));
}

/// Extending the encoded prefix by one element appends that element's
/// encoding.
pub proof fn lemma_seq_enc_snoc<'a, T: Serializable<'a>>(
    ms: Seq<<T as DeepView>::V>,
    version: Version,
    i: int,
)
    requires
        0 <= i < ms.len(),
    ensures
        spec_seq_enc::<T>(ms.take(i + 1), version) == spec_seq_enc::<T>(ms.take(i), version)
            + T::spec_enc(ms[i], version),
{
    let front = ms.take(i + 1);
    lemma_seq_enc_split::<T>(front, version, i);
    assert(front.take(i) =~= ms.take(i));
    assert(front.skip(i) =~= seq![ms[i]]);
    assert(seq![ms[i]].skip(1) =~= Seq::<<T as DeepView>::V>::empty());
    assert(spec_seq_enc::<T>(Seq::<<T as DeepView>::V>::empty(), version) == Seq::<u8>::empty());
    assert(spec_seq_enc::<T>(seq![ms[i]], version) =~= T::spec_enc(ms[i], version));
}

/// Relies on `core::str::from_utf8`: it succeeds exactly on valid UTF-8
/// and returns the borrowed text whose characters the bytes encode.
#[verifier::external_body]
fn str_from_bytes<'x>(v: &'x [u8]) -> (r: Option<&'x str>)
    ensures
        r matches Some(s) ==> valid_utf8(v@) && s@ == decode_utf8(v@),
        r is None ==> !valid_utf8(v@),
{
    match core::str::from_utf8(v) {
        Ok(s) => Some(s),
        Err(_) => None,
    }
}

/// Relies on `String::from_utf8`: it succeeds exactly on valid UTF-8 and
/// returns the owned text whose characters the bytes encode.
#[verifier::external_body]
fn string_from_bytes(v: Vec<u8>) -> (r: Option<String>)
    ensures
        r matches Some(s) ==> valid_utf8(v@) && s@ == decode_utf8(v@),
        r is None ==> !valid_utf8(v@),
{
    match String::from_utf8(v) {
        Ok(s) => Some(s),
        Err(_) => None,
    }
}

impl<'a> Serializable<'a> for &'a [u8] {
    open spec fn spec_enc(m: Seq<u8>, version: Version) -> Seq<u8> {
        be4(len_u32(m.len())) + m
    }

    open spec fn spec_canonical(m: Seq<u8>, version: Version) -> bool {
        m.len() <= u32::MAX
    }

    open spec fn spec_default() -> Seq<u8> {
        Seq::empty()
    }

    open spec fn needs_persistent() -> bool {
        true
    }

    fn default_value() -> (r: &'a [u8]) {
        let s: &'a str = core::default::Default::default();
        proof {
            reveal_strlit("");
        }
        let r = s.as_bytes();
        proof {
            assert(s@ =~= Seq::<char>::empty());
            assert(r@ =~= Seq::<u8>::empty());
            assert(r.deep_view() =~= Seq::<u8>::empty());
        }
        r
    }

    fn serialize<W: Writer>(&self, version: Version, writer: &mut W) -> (r: Result<
        (),
        WriteError,
    >) {
        let n32: u32 = #[verifier::truncate] (self.len() as u32);
        let b = be4_vec(n32);
        let res1 = writer.write(b.as_slice());
        if let Err(e) = res1 {
            proof {
                lemma_prefix_refl(old(writer).out());
            }
            return Err(e);
        }
        let res2 = writer.write(*self);
        proof {
            assert(self.deep_view() =~= self@);
            if res2 is Ok {
                lemma_concat_assoc(old(writer).out(), be4(n32), self@);
                lemma_prefix_append(
                    old(writer).out(),
                    Self::spec_enc(self.deep_view(), version),
                );
            } else {
                lemma_prefix_append(old(writer).out(), be4(n32));
            }
        }
        res2
    }

    fn deserialize<R: Reader<'a>>(reader: &mut R) -> (r: Result<&'a [u8], ReadError>) {
        let ghost rem0 = old(reader).rem();
        let ghost ver = old(reader).spec_version();
        let res_len = u32::deserialize(reader);
        proof {
            if res_len is Err {
                assert forall|m: Seq<u8>|
                    !(#[trigger] Self::spec_enc(m, ver).is_prefix_of(rem0)
                        && Self::spec_canonical(m, ver)) by {
                    if Self::spec_enc(m, ver).is_prefix_of(rem0) && Self::spec_canonical(m, ver) {
                        let l = len_u32(m.len());
                        lemma_prefix_split(be4(l), m, rem0);
                        assert(<u32 as Serializable<'a>>::spec_enc(l, ver).is_prefix_of(rem0));
                    }
                }
            }
        }
        let len = match res_len {
            Ok(l) => l,
            Err(e) => {
                return Err(e);
            },
        };
        let ghost rem1 = reader.rem();
        proof {
            assert forall|m: Seq<u8>|
                #[trigger] Self::spec_enc(m, ver).is_prefix_of(rem0) && Self::spec_canonical(
                    m,
                    ver,
                ) implies len as nat == m.len() && m.is_prefix_of(rem1) && rem1 == rem0.skip(4)
                && rem0.skip(Self::spec_enc(m, ver).len() as int) == rem1.skip(m.len() as int) by {
                let l = len_u32(m.len());
                lemma_prefix_split(be4(l), m, rem0);
                assert(<u32 as Serializable<'a>>::spec_enc(l, ver).is_prefix_of(rem0));
                lemma_skip_skip(rem0, 4, m.len() as int);
            }
        }
        let s = match reader.read_slice(len as usize) {
            Ok(s) => s,
            Err(e) => {
                proof {
                    lemma_skip_zero(rem1);
                }
                return Err(e);
            },
        };
        proof {
            assert(s.deep_view() =~= s@);
            assert forall|m: Seq<u8>|
                #[trigger] Self::spec_enc(m, ver).is_prefix_of(rem0) && Self::spec_canonical(
                    m,
                    ver,
                ) implies s@ == m by {
                lemma_prefix_take(m, rem1);
            }
        }
        Ok(s)
    }
}

impl<'a> Serializable<'a> for &'a str {
    open spec fn spec_enc(m: Seq<char>, version: Version) -> Seq<u8> {
        be4(len_u32(encode_utf8(m).len())) + encode_utf8(m)
    }

    open spec fn spec_canonical(m: Seq<char>, version: Version) -> bool {
        encode_utf8(m).len() <= u32::MAX
    }

    open spec fn spec_default() -> Seq<char> {
        Seq::empty()
    }

    open spec fn needs_persistent() -> bool {
        true
    }

    fn default_value() -> (r: &'a str) {
        let s: &'a str = core::default::Default::default();
        proof {
            reveal_strlit("");
            assert(s@ =~= Seq::<char>::empty());
        }
        s
    }

    fn serialize<W: Writer>(&self, version: Version, writer: &mut W) -> (r: Result<
        (),
        WriteError,
    >) {
        let bytes = self.as_bytes();
        let n32: u32 = #[verifier::truncate] (bytes.len() as u32);
        let b = be4_vec(n32);
        let res1 = writer.write(b.as_slice());
        if let Err(e) = res1 {
            proof {
                lemma_prefix_refl(old(writer).out());
            }
            return Err(e);
        }
        let res2 = writer.write(bytes);
        proof {
            if res2 is Ok {
                lemma_concat_assoc(old(writer).out(), be4(n32), bytes@);
                lemma_prefix_append(
                    old(writer).out(),
                    Self::spec_enc(self.deep_view(), version),
                );
            } else {
                lemma_prefix_append(old(writer).out(), be4(n32));
            }
        }
        res2
    }

    fn deserialize<R: Reader<'a>>(reader: &mut R) -> (r: Result<&'a str, ReadError>) {
        let ghost rem0 = old(reader).rem();
        let ghost ver = old(reader).spec_version();
        let res_len = u32::deserialize(reader);
        proof {
            if res_len is Err {
                assert forall|m: Seq<char>|
                    !(#[trigger] Self::spec_enc(m, ver).is_prefix_of(rem0)
                        && Self::spec_canonical(m, ver)) by {
                    if Self::spec_enc(m, ver).is_prefix_of(rem0) && Self::spec_canonical(m, ver) {
                        let l = len_u32(encode_utf8(m).len());
                        lemma_prefix_split(be4(l), encode_utf8(m), rem0);
                        assert(<u32 as Serializable<'a>>::spec_enc(l, ver).is_prefix_of(rem0));
                    }
                }
            }
        }
        let len = match res_len {
            Ok(l) => l,
            Err(e) => {
                return Err(e);
            },
        };
        let ghost rem1 = reader.rem();
        proof {
            assert forall|m: Seq<char>|
                #[trigger] Self::spec_enc(m, ver).is_prefix_of(rem0) && Self::spec_canonical(
                    m,
                    ver,
                ) implies len as nat == encode_utf8(m).len() && encode_utf8(m).is_prefix_of(rem1)
                && rem1 == rem0.skip(4) && rem0.skip(Self::spec_enc(m, ver).len() as int)
                == rem1.skip(encode_utf8(m).len() as int) by {
                let l = len_u32(encode_utf8(m).len());
                lemma_prefix_split(be4(l), encode_utf8(m), rem0);
                assert(<u32 as Serializable<'a>>::spec_enc(l, ver).is_prefix_of(rem0));
                lemma_skip_skip(rem0, 4, encode_utf8(m).len() as int);
            }
        }
        let s = match reader.read_slice(len as usize) {
            Ok(s) => s,
            Err(e) => {
                proof {
                    lemma_skip_zero(rem1);
                }
                return Err(e);
            },
        };
        let text = match str_from_bytes(s) {
            Some(t) => t,
            None => {
                proof {
                    assert forall|m: Seq<char>|
                        !(#[trigger] Self::spec_enc(m, ver).is_prefix_of(rem0)
                            && Self::spec_canonical(m, ver)) by {
                        if Self::spec_enc(m, ver).is_prefix_of(rem0) && Self::spec_canonical(
                            m,
                            ver,
                        ) {
                            lemma_prefix_take(encode_utf8(m), rem1);
                            encode_utf8_valid_utf8(m);
                        }
                    }
                }
                return Err(ReadError::InvalidUtf8Str);
            },
        };
        proof {
            assert forall|m: Seq<char>|
                #[trigger] Self::spec_enc(m, ver).is_prefix_of(rem0) && Self::spec_canonical(
                    m,
                    ver,
                ) implies text@ == m by {
                lemma_prefix_take(encode_utf8(m), rem1);
                encode_utf8_decode_utf8(m);
            }
        }
        Ok(text)
    }
}

impl<'a> Serializable<'a> for String {
    open spec fn spec_enc(m: Seq<char>, version: Version) -> Seq<u8> {
        be4(len_u32(encode_utf8(m).len())) + encode_utf8(m)
    }

    open spec fn spec_canonical(m: Seq<char>, version: Version) -> bool {
        encode_utf8(m).len() <= u32::MAX
    }

    open spec fn spec_default() -> Seq<char> {
        Seq::empty()
    }

    open spec fn needs_persistent() -> bool {
        false
    }

    fn default_value() -> (r: String) {
        let s = String::new();
        s
    }

    fn serialize<W: Writer>(&self, version: Version, writer: &mut W) -> (r: Result<
        (),
        WriteError,
    >) {
        let bytes = self.as_str().as_bytes();
        let n32: u32 = #[verifier::truncate] (bytes.len() as u32);
        let b = be4_vec(n32);
        let res1 = writer.write(b.as_slice());
        if let Err(e) = res1 {
            proof {
                lemma_prefix_refl(old(writer).out());
            }
            return Err(e);
        }
        let res2 = writer.write(bytes);
        proof {
            if res2 is Ok {
                lemma_concat_assoc(old(writer).out(), be4(n32), bytes@);
                lemma_prefix_append(
                    old(writer).out(),
                    Self::spec_enc(self.deep_view(), version),
                );
            } else {
                lemma_prefix_append(old(writer).out(), be4(n32));
            }
        }
        res2
    }

    fn deserialize<R: Reader<'a>>(reader: &mut R) -> (r: Result<String, ReadError>) {
        let ghost rem0 = old(reader).rem();
        let ghost ver = old(reader).spec_version();
        let res_len = u32::deserialize(reader);
        proof {
            if res_len is Err {
                assert forall|m: Seq<char>|
                    !(#[trigger] Self::spec_enc(m, ver).is_prefix_of(rem0)
                        && Self::spec_canonical(m, ver)) by {
                    if Self::spec_enc(m, ver).is_prefix_of(rem0) && Self::spec_canonical(m, ver) {
                        let l = len_u32(encode_utf8(m).len());
                        lemma_prefix_split(be4(l), encode_utf8(m), rem0);
                        assert(<u32 as Serializable<'a>>::spec_enc(l, ver).is_prefix_of(rem0));
                    }
                }
            }
        }
        let len = match res_len {
            Ok(l) => l,
            Err(e) => {
                return Err(e);
            },
        };
        let ghost rem1 = reader.rem();
        proof {
            assert forall|m: Seq<char>|
                #[trigger] Self::spec_enc(m, ver).is_prefix_of(rem0) && Self::spec_canonical(
                    m,
                    ver,
                ) implies len as nat == encode_utf8(m).len() && encode_utf8(m).is_prefix_of(rem1)
                && rem1 == rem0.skip(4) && rem0.skip(Self::spec_enc(m, ver).len() as int)
                == rem1.skip(encode_utf8(m).len() as int) by {
                let l = len_u32(encode_utf8(m).len());
                lemma_prefix_split(be4(l), encode_utf8(m), rem0);
                assert(<u32 as Serializable<'a>>::spec_enc(l, ver).is_prefix_of(rem0));
                lemma_skip_skip(rem0, 4, encode_utf8(m).len() as int);
            }
        }
        let b = match reader.read(len as usize) {
            Ok(b) => b,
            Err(e) => {
                proof {
                    lemma_skip_zero(rem1);
                }
                return Err(e);
            },
        };
        let text = match string_from_bytes(b) {
            Some(t) => t,
            None => {
                proof {
                    assert forall|m: Seq<char>|
                        !(#[trigger] Self::spec_enc(m, ver).is_prefix_of(rem0)
                            && Self::spec_canonical(m, ver)) by {
                        if Self::spec_enc(m, ver).is_prefix_of(rem0) && Self::spec_canonical(
                            m,
                            ver,
                        ) {
                            lemma_prefix_take(encode_utf8(m), rem1);
                            encode_utf8_valid_utf8(m);
                        }
                    }
                }
                return Err(ReadError::InvalidUtf8String);
            },
        };
        proof {
            assert forall|m: Seq<char>|
                #[trigger] Self::spec_enc(m, ver).is_prefix_of(rem0) && Self::spec_canonical(
                    m,
                    ver,
                ) implies text@ == m by {
                lemma_prefix_take(encode_utf8(m), rem1);
                encode_utf8_decode_utf8(m);
            }
        }
        Ok(text)
    }
}

impl<'a, T: Serializable<'a>> Serializable<'a> for Vec<T> {
    open spec fn spec_enc(ms: Seq<<T as DeepView>::V>, version: Version) -> Seq<u8> {
        be4(len_u32(ms.len())) + spec_seq_enc::<T>(ms, version)
    }

    open spec fn spec_canonical(ms: Seq<<T as DeepView>::V>, version: Version) -> bool {
        ms.len() <= u32::MAX && (forall|j: int|
            0 <= j < ms.len() ==> #[trigger] T::spec_canonical(ms[j], version))
    }

    open spec fn spec_default() -> Seq<<T as DeepView>::V> {
        Seq::empty()
    }

    open spec fn needs_persistent() -> bool {
        T::needs_persistent()
    }

    fn default_value() -> (r: Vec<T>) {
        let v: Vec<T> = Vec::new();
        proof {
            assert(v.deep_view() =~= Seq::<<T as DeepView>::V>::empty());
        }
        v
    }

    fn serialize<W: Writer>(&self, version: Version, writer: &mut W) -> (r: Result<
        (),
        WriteError,
    >) {
        let ghost dv = self.deep_view();
        let n32: u32 = #[verifier::truncate] (self.len() as u32);
        let b = be4_vec(n32);
        let res1 = writer.write(b.as_slice());
        if let Err(e) = res1 {
            proof {
                lemma_prefix_refl(old(writer).out());
            }
            return Err(e);
        }
        let n = self.len();
        let mut i: usize = 0;
        while i < n
            invariant
                i <= n,
                n == self@.len(),
                dv == self.deep_view(),
                dv.len() == n,
                n32 == len_u32(dv.len()),
                writer.capacity() == old(writer).capacity(),
                writer.out() == old(writer).out() + be4(n32) + spec_seq_enc::<T>(
                    dv.take(i as int),
                    version,
                ),
            decreases n - i,
        {
            let ghost out_before = writer.out();
            let res = self[i].serialize(version, writer);
            if let Err(e) = res {
                proof {
                    lemma_prefix_append(
                        old(writer).out(),
                        be4(n32) + spec_seq_enc::<T>(dv.take(i as int), version),
                    );
                    lemma_concat_assoc(
                        old(writer).out(),
                        be4(n32),
                        spec_seq_enc::<T>(dv.take(i as int), version),
                    );
                    lemma_prefix_trans(old(writer).out(), out_before, writer.out());
                    lemma_seq_enc_split::<T>(dv, version, i as int);
                    lemma_seq_enc_step::<T>(dv, version, i as int);
                }
                return Err(e);
            }
            proof {
                lemma_seq_enc_snoc::<T>(dv, version, i as int);
                assert(writer.out() =~= old(writer).out() + be4(n32) + spec_seq_enc::<T>(
                    dv.take(i as int + 1),
                    version,
                ));
            }
            i = i + 1;
        }
        proof {
            assert(dv.take(n as int) =~= dv);
            lemma_prefix_append(old(writer).out(), Self::spec_enc(dv, version));
            assert(old(writer).out() + be4(n32) + spec_seq_enc::<T>(dv, version)
                =~= old(writer).out() + Self::spec_enc(dv, version));
        }
        Ok(())
    }

    fn deserialize<R: Reader<'a>>(reader: &mut R) -> (r: Result<Vec<T>, ReadError>) {
        let ghost rem0 = old(reader).rem();
        let ghost ver = old(reader).spec_version();
        let res_len = u32::deserialize(reader);
        proof {
            if res_len is Err {
                assert forall|ms: Seq<<T as DeepView>::V>|
                    !(#[trigger] Self::spec_enc(ms, ver).is_prefix_of(rem0)
                        && Self::spec_canonical(ms, ver)) by {
                    if Self::spec_enc(ms, ver).is_prefix_of(rem0) && Self::spec_canonical(
                        ms,
                        ver,
                    ) {
                        let l = len_u32(ms.len());
                        lemma_prefix_split(be4(l), spec_seq_enc::<T>(ms, ver), rem0);
                        assert(<u32 as Serializable<'a>>::spec_enc(l, ver).is_prefix_of(rem0));
                    }
                }
            }
        }
        let len = match res_len {
            Ok(l) => l,
            Err(e) => {
                return Err(e);
            },
        };
        let ghost rem1 = reader.rem();
        proof {
            assert forall|ms: Seq<<T as DeepView>::V>|
                #[trigger] Self::spec_enc(ms, ver).is_prefix_of(rem0) && Self::spec_canonical(
                    ms,
                    ver,
                ) implies len as nat == ms.len() && spec_seq_enc::<T>(ms, ver).is_prefix_of(rem1)
                && rem1 == rem0.skip(4) && rem0.skip(Self::spec_enc(ms, ver).len() as int)
                == rem1.skip(spec_seq_enc::<T>(ms, ver).len() as int) by {
                let l = len_u32(ms.len());
                lemma_prefix_split(be4(l), spec_seq_enc::<T>(ms, ver), rem0);
                assert(<u32 as Serializable<'a>>::spec_enc(l, ver).is_prefix_of(rem0));
                lemma_skip_skip(rem0, 4, spec_seq_enc::<T>(ms, ver).len() as int);
            }
        }
        let n = len as usize;
        let mut out: Vec<T> = Vec::new();
        proof {
            assert(out.deep_view() =~= Seq::<<T as DeepView>::V>::empty());
            assert forall|ms: Seq<<T as DeepView>::V>|
                #[trigger] Self::spec_enc(ms, ver).is_prefix_of(rem0) && Self::spec_canonical(
                    ms,
                    ver,
                ) implies out.deep_view() == ms.take(0) && reader.rem() == rem1.skip(
                spec_seq_enc::<T>(ms.take(0), ver).len() as int,
            ) by {
                assert(ms.take(0) =~= Seq::<<T as DeepView>::V>::empty());
                lemma_skip_zero(rem1);
            }
        }
        let mut i: usize = 0;
        while i < n
            invariant
                i <= n,
                n == len as usize,
                rem0 == old(reader).rem(),
                ver == old(reader).spec_version(),
                reader.spec_version() == ver,
                reader.persistent() == old(reader).persistent(),
                reader.rem().len() <= rem1.len(),
                reader.rem() == rem1.skip(rem1.len() - reader.rem().len()),
                rem1.len() <= rem0.len(),
                rem1 == rem0.skip(rem0.len() - rem1.len()),
                forall|ms: Seq<<T as DeepView>::V>|
                    (#[trigger] Self::spec_enc(ms, ver).is_prefix_of(rem0)
                        && Self::spec_canonical(ms, ver) && (old(reader).persistent()
                        || !Self::needs_persistent())) ==> (len as nat == ms.len()
                        && spec_seq_enc::<T>(ms, ver).is_prefix_of(rem1) && rem0.skip(
                        Self::spec_enc(ms, ver).len() as int,
                    ) == rem1.skip(spec_seq_enc::<T>(ms, ver).len() as int) && out.deep_view()
                        == ms.take(i as int) && reader.rem() == rem1.skip(
                        spec_seq_enc::<T>(ms.take(i as int), ver).len() as int,
                    ) && spec_seq_enc::<T>(ms.take(i as int), ver).len() <= rem1.len()),
            decreases n - i,
        {
            let ghost rem_i = reader.rem();
            proof {
                assert forall|ms: Seq<<T as DeepView>::V>|
                    (#[trigger] Self::spec_enc(ms, ver).is_prefix_of(rem0)
                        && Self::spec_canonical(ms, ver) && (old(reader).persistent()
                        || !Self::needs_persistent())) implies T::spec_enc(
                    ms[i as int],
                    ver,
                ).is_prefix_of(rem_i) && T::spec_canonical(ms[i as int], ver) by {
                    lemma_seq_enc_split::<T>(ms, ver, i as int);
                    lemma_seq_enc_step::<T>(ms, ver, i as int);
                    lemma_prefix_split(
                        spec_seq_enc::<T>(ms.take(i as int), ver),
                        spec_seq_enc::<T>(ms.skip(i as int), ver),
                        rem1,
                    );
                    lemma_prefix_split(
                        T::spec_enc(ms[i as int], ver),
                        spec_seq_enc::<T>(ms.skip(i as int + 1), ver),
                        rem_i,
                    );
                }
            }
            let res = T::deserialize(reader);
            let t = match res {
                Ok(t) => t,
                Err(e) => {
                    proof {
                        lemma_skip_skip(
                            rem0,
                            rem0.len() - rem1.len(),
                            rem1.len() - rem_i.len(),
                        );
                        lemma_skip_skip(
                            rem0,
                            rem0.len() - rem_i.len(),
                            rem_i.len() - reader.rem().len(),
                        );
                    }
                    return Err(e);
                },
            };
            let ghost odv = out.deep_view();
            out.push(t);
            proof {
                assert(out.deep_view() =~= odv.push(t.deep_view()));
                lemma_skip_skip(rem1, rem1.len() - rem_i.len(), rem_i.len() - reader.rem().len());
                assert forall|ms: Seq<<T as DeepView>::V>|
                    (#[trigger] Self::spec_enc(ms, ver).is_prefix_of(rem0)
                        && Self::spec_canonical(ms, ver) && (old(reader).persistent()
                        || !Self::needs_persistent())) implies out.deep_view() == ms.take(
                    i as int + 1,
                ) && reader.rem() == rem1.skip(
                    spec_seq_enc::<T>(ms.take(i as int + 1), ver).len() as int,
                ) && spec_seq_enc::<T>(ms.take(i as int + 1), ver).len() <= rem1.len() by {
                    assert(ms.take(i as int).push(ms[i as int]) =~= ms.take(i as int + 1));
                    lemma_seq_enc_snoc::<T>(ms, ver, i as int);
                    lemma_seq_enc_split::<T>(ms, ver, i as int + 1);
                    lemma_prefix_split(
                        spec_seq_enc::<T>(ms.take(i as int + 1), ver),
                        spec_seq_enc::<T>(ms.skip(i as int + 1), ver),
                        rem1,
                    );
                    lemma_skip_skip(
                        rem1,
                        spec_seq_enc::<T>(ms.take(i as int), ver).len() as int,
                        T::spec_enc(ms[i as int], ver).len() as int,
                    );
                }
            }
            i = i + 1;
        }
        proof {
            lemma_skip_skip(rem0, rem0.len() - rem1.len(), rem1.len() - reader.rem().len());
            assert forall|ms: Seq<<T as DeepView>::V>|
                (#[trigger] Self::spec_enc(ms, ver).is_prefix_of(rem0) && Self::spec_canonical(
                    ms,
                    ver,
                ) && (old(reader).persistent() || !Self::needs_persistent())) implies out.deep_view()
                == ms && reader.rem() == rem0.skip(Self::spec_enc(ms, ver).len() as int) by {
                assert(ms.take(n as int) =~= ms);
            }
        }
        Ok(out)
    }
}

} // verus!
