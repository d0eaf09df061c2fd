//! The format's global guarantees, stated once over the specification
//! functions that every codec contract is written in.

use crate::gated::lemma_be2_value_of_be2;
use crate::gated::spec_field_enc;
use crate::helpers::spec_document;
use crate::helpers::spec_header_version;
use crate::implementations::version_bytes;
use crate::schema::BasePlayer;
use crate::schema::BasePlayerModel;
use crate::schema::Player;
use crate::schema::PlayerModel;
use crate::traits::Serializable;
use crate::version::version_lt;
use crate::version::Version;
use crate::wire::be2;
use vstd::prelude::*;

verus! {

/// Round trip: a document carries its stamp and its value exactly.
///
/// The header of the document built from model `m` at version `version`
/// reads back as that version, and the rest of the document is exactly the
/// model's encoding at it. Together with the decode contracts — which
/// return exactly the canonical model whose encoding the body starts with,
/// and consume all of it — this says that decoding an encoded value at the
/// version it was written with gives the value back.
pub proof fn lemma_document_round_trip<'a, T: Serializable<'a>>(
    m: <T as DeepView>::V,
    version: Version,
)
    ensures
        spec_document::<T>(m, version).len() == 6 + T::spec_enc(m, version).len(),
        spec_header_version(spec_document::<T>(m, version)) == version,
        spec_document::<T>(m, version).skip(6) == T::spec_enc(m, version),
{
    let doc = spec_document::<T>(m, version);
    let header = version_bytes(version);
    assert(header.len() == 6);
    assert(doc.skip(6) =~= T::spec_enc(m, version));
    assert(doc[0] == be2(version.major)[0] && doc[1] == be2(version.major)[1]);
    assert(doc[2] == be2(version.minor)[0] && doc[3] == be2(version.minor)[1]);
    assert(doc[4] == be2(version.patch)[0] && doc[5] == be2(version.patch)[1]);
    lemma_be2_value_of_be2(version.major);
    lemma_be2_value_of_be2(version.minor);
    lemma_be2_value_of_be2(version.patch);
}

/// Version-gating monotonicity: a reader that knows more fields reads an
/// old document the same way as a reader that knows fewer.
///
/// `BasePlayer` is the `Player` schema before `name` was added. A document
/// stamped before `name`'s introduced version carries exactly the same
/// bytes under either schema, and a model the newer schema can carry at
/// that stamp holds the default in `name` and is carried by the older
/// schema too. With the decode contracts this says: decoding such a
/// document under the newer schema and under the older one yields the same
/// value for every field both know.
pub proof fn lemma_gating_monotonic<'a>(m: PlayerModel, stamp: Version)
    requires
        version_lt(stamp, Version { major: 2, minor: 0, patch: 0 }),
        <Player as Serializable<'a>>::spec_canonical(m, stamp),
    ensures
        m.name == Seq::<char>::empty(),
        <Player as Serializable<'a>>::spec_enc(m, stamp)
            == <BasePlayer as Serializable<'a>>::spec_enc(BasePlayerModel { id: m.id }, stamp),
        <BasePlayer as Serializable<'a>>::spec_canonical(BasePlayerModel { id: m.id }, stamp),
{
    let since_name = Version { major: 2, minor: 0, patch: 0 };
    assert(spec_field_enc::<String>(m.name, since_name, stamp) =~= Seq::<u8>::empty());
    assert(<Player as Serializable<'a>>::spec_enc(m, stamp) =~= <BasePlayer as Serializable<
        'a,
    >>::spec_enc(BasePlayerModel { id: m.id }, stamp));
}

} // verus!
