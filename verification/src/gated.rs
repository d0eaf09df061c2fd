//! The version-gated record and tagged-union algorithm.
//!
//! A record's fields are written in declaration order, each gated on the
//! document version: a field introduced after the stamped version puts no
//! bytes on the wire and takes its default on decode. A tagged union first
//! writes a two-byte selector; on decode the selector is held against the
//! variant table, and one that names no variant — or a variant introduced
//! after the document's version — is rejected as `UnknownVariant`.

use crate::errors::ReadError;
use crate::errors::WriteError;
use crate::seqs::lemma_prefix_refl;
use crate::seqs::lemma_skip_zero;
use crate::traits::Reader;
use crate::traits::Serializable;
use crate::traits::can_fit;
use crate::traits::Writer;
use crate::version::version_le;
use crate::version::version_lt;
use crate::version::Version;
use crate::wire::be2;
use vstd::prelude::*;

verus! {

/// The wire bytes of one field with model `m` introduced at `since`, in a
/// document stamped `version`: the field's own encoding when the document
/// version has reached `since`, nothing at all before that.
pub open spec fn spec_field_enc<'a, T: Serializable<'a>>(
    m: <T as DeepView>::V,
    since: Version,
    version: Version,
) -> Seq<u8> {
    if version_lt(version, since) {
        Seq::empty()
    } else {
        T::spec_enc(m, version)
    }
}

/// Whether one gated field's model can appear in a document stamped
/// `version`: a gated-out field holds its default, a live one is canonical.
pub open spec fn spec_field_canonical<'a, T: Serializable<'a>>(
    m: <T as DeepView>::V,
    since: Version,
    version: Version,
) -> bool {
    if version_lt(version, since) {
        m == T::spec_default()
    } else {
        T::spec_canonical(m, version)
    }
}

/// Encode one version-gated field: written only when the document version
/// has reached the field's introduced version, else nothing.
pub fn write_field<'a, T: Serializable<'a>, W: Writer>(
    t: &T,
    since: Version,
    version: Version,
    writer: &mut W,
) -> (r: Result<(), WriteError>)
    ensures
        old(writer).out().is_prefix_of(final(writer).out()),
        final(writer).capacity() == old(writer).capacity(),
        r matches Ok(_) ==> final(writer).out() == old(writer).out() + spec_field_enc::<T>(
            t.deep_view(),
            since,
            version,
        ),
        can_fit(old(writer), spec_field_enc::<T>(t.deep_view(), since, version).len()) ==> r matches Ok(_),
{
    if version.lt(&since) {
        proof {
            lemma_prefix_refl(old(writer).out());
            assert(old(writer).out() + Seq::<u8>::empty() =~= old(writer).out());
        }
        Ok(())
    } else {
        t.serialize(version, writer)
    }
}

/// Decode one version-gated field: a field introduced after the document's
/// version consumes no input and takes its default value; a live field is
/// decoded by its own codec.
pub fn read_field<'a, T: Serializable<'a>, R: Reader<'a>>(reader: &mut R, since: Version) -> (r:
    Result<T, ReadError>)
    ensures
        final(reader).spec_version() == old(reader).spec_version(),
        final(reader).persistent() == old(reader).persistent(),
        final(reader).rem().len() <= old(reader).rem().len(),
        final(reader).rem() == old(reader).rem().skip(
            old(reader).rem().len() - final(reader).rem().len(),
        ),
        version_lt(old(reader).spec_version(), since) ==> (r matches Ok(w) && w.deep_view()
            == T::spec_default() && final(reader).rem() == old(reader).rem()),
        forall|m: <T as DeepView>::V|
            (#[trigger] spec_field_enc::<T>(m, since, old(reader).spec_version()).is_prefix_of(
                old(reader).rem(),
            ) && spec_field_canonical::<T>(m, since, old(reader).spec_version()) && (old(
                reader,
            ).persistent() || !T::needs_persistent())) ==> (r matches Ok(w) && w.deep_view() == m
                && final(reader).rem() == old(reader).rem().skip(
                spec_field_enc::<T>(m, since, old(reader).spec_version()).len() as int,
            )),
{
    let v = reader.version();
    if v.lt(&since) {
        let w = T::default_value();
        proof {
            lemma_skip_zero(old(reader).rem());
        }
        Ok(w)
    } else {
        let res = T::deserialize(reader);
        proof {
            let ver = old(reader).spec_version();
            let rem0 = old(reader).rem();
            assert forall|m: <T as DeepView>::V|
                (#[trigger] spec_field_enc::<T>(m, since, ver).is_prefix_of(rem0)
                    && spec_field_canonical::<T>(m, since, ver) && (old(reader).persistent()
                    || !T::needs_persistent())) implies (res matches Ok(w) && w.deep_view() == m
                && reader.rem() == rem0.skip(
                spec_field_enc::<T>(m, since, ver).len() as int,
            )) by {
                assert(T::spec_enc(m, ver).is_prefix_of(rem0));
            }
        }
        res
    }
}

/// Whether a wire selector names a variant that a document stamped
/// `version` can legitimately carry: it must index into the variant table,
/// and the variant it names must have been introduced no later than
/// `version`.
pub open spec fn spec_variant_known(sinces: Seq<Version>, selector: u16, version: Version) -> bool {
    selector < sinces.len() && version_le(sinces[selector as int], version)
}

/// The numeric value of the two big-endian bytes that open a tagged
/// union's wire form.
pub open spec fn be2_value(b0: u8, b1: u8) -> u16 {
    (b0 * 256 + b1) as u16
}

/// Reading back the two bytes a selector was written as gives the selector.
pub proof fn lemma_be2_value_of_be2(x: u16)
    ensures
        be2_value(be2(x)[0], be2(x)[1]) == x,
{
    vstd::arithmetic::div_mod::lemma_fundamental_div_mod(x as int, 256);
}

/// Read a tagged union's two-byte selector and hold it against the variant
/// table: accepted exactly when it names a declared variant introduced no
/// later than the document's version; any other selector — out of table or
/// from the future — fails with `UnknownVariant` carrying it.
pub fn read_selector<'a, R: Reader<'a>>(reader: &mut R, sinces: &Vec<Version>) -> (r: Result<
    u16,
    ReadError,
>)
    ensures
        final(reader).spec_version() == old(reader).spec_version(),
        final(reader).persistent() == old(reader).persistent(),
        final(reader).rem().len() <= old(reader).rem().len(),
        final(reader).rem() == old(reader).rem().skip(
            old(reader).rem().len() - final(reader).rem().len(),
        ),
        old(reader).rem().len() < 2 ==> (r matches Err(e) && e == ReadError::EndOfInput
            && final(reader).rem() == old(reader).rem()),
        old(reader).rem().len() >= 2 ==> {
            let sel = be2_value(old(reader).rem()[0], old(reader).rem()[1]);
            &&& final(reader).rem() == old(reader).rem().skip(2)
            &&& spec_variant_known(sinces@, sel, old(reader).spec_version()) ==> (r matches Ok(s)
                && s == sel)
            &&& !spec_variant_known(sinces@, sel, old(reader).spec_version()) ==> (r matches Err(e)
                && e == ReadError::UnknownVariant(sel))
        },
{
    let ghost rem0 = old(reader).rem();
    let v = reader.version();
    let b = match reader.read(2) {
        Ok(b) => b,
        Err(e) => {
            proof {
                lemma_skip_zero(rem0);
            }
            return Err(e);
        },
    };
    let sel: u16 = (b[0] as u16) * 256 + (b[1] as u16);
    proof {
        assert(b@[0] == rem0.take(2)[0] && b@[1] == rem0.take(2)[1]);
        assert(sel == be2_value(rem0[0], rem0[1]));
    }
    if (sel as usize) < sinces.len() && sinces[sel as usize].le(&v) {
        Ok(sel)
    } else {
        Err(ReadError::UnknownVariant(sel))
    }
}

} // verus!
