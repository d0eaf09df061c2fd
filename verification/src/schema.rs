//! Reference schemas for the version-gated record and tagged-union layout.
//!
//! These types pin down, field by field and variant by variant, the codec
//! shape that any generated or hand-written `Serializable` implementation
//! must follow: fields written in declaration order behind their version
//! gates, a two-byte selector in front of a variant's own gated fields.

use crate::errors::ReadError;
use crate::errors::WriteError;
use crate::gated::be2_value;
use crate::gated::lemma_be2_value_of_be2;
use crate::gated::read_field;
use crate::gated::read_selector;
use crate::gated::spec_field_canonical;
use crate::gated::spec_field_enc;
use crate::gated::spec_variant_known;
use crate::gated::write_field;
use crate::version::version_le;
use crate::wire::be2;
use crate::seqs::lemma_concat_assoc;
use crate::seqs::lemma_prefix_append;
use crate::seqs::lemma_prefix_split;
use crate::seqs::lemma_prefix_take;
use crate::seqs::lemma_prefix_trans;
use crate::seqs::lemma_skip_skip;
use crate::traits::Reader;
use crate::traits::Serializable;
use crate::traits::Writer;
use crate::version::Version;
use vstd::prelude::*;

verus! {

/// A record whose `id` field has existed since version one and whose
/// `name` field was only introduced in version two. A document stamped
/// with version one therefore carries bytes for `id` alone, and decoding
/// it under this schema leaves `name` empty.
#[derive(Debug, PartialEq)]
pub struct Player {
    /// Numeric identity, on the wire since version 1.0.0.
    pub id: u32,
    /// Display name, on the wire since version 2.0.0.
    pub name: String,
}

/// The mathematical model of a `Player`.
pub struct PlayerModel {
    /// The model of `Player::id`.
    pub id: u32,
    /// The model of `Player::name`.
    pub name: Seq<char>,
}

impl Player {
    /// The newest introduced version anywhere in this schema: the stamp
    /// that carries every field.
    pub fn newest_version() -> (r: Version)
        ensures
            r == (Version { major: 2, minor: 0, patch: 0 }),
    {
        Version::new(2, 0, 0)
    }
}

impl DeepView for Player {
    type V = PlayerModel;

    open spec fn deep_view(&self) -> PlayerModel {
        PlayerModel { id: self.id, name: self.name@ }
    }
}

impl<'a> Serializable<'a> for Player {
    open spec fn spec_enc(m: PlayerModel, version: Version) -> Seq<u8> {
        spec_field_enc::<u32>(m.id, Version { major: 1, minor: 0, patch: 0 }, version)
            + spec_field_enc::<String>(m.name, Version { major: 2, minor: 0, patch: 0 }, version)
    }

    open spec fn spec_canonical(m: PlayerModel, version: Version) -> bool {
        spec_field_canonical::<u32>(m.id, Version { major: 1, minor: 0, patch: 0 }, version)
            && spec_field_canonical::<String>(
            m.name,
            Version { major: 2, minor: 0, patch: 0 },
            version,
        )
    }

    open spec fn spec_default() -> PlayerModel {
        PlayerModel { id: 0, name: Seq::empty() }
    }

    open spec fn needs_persistent() -> bool {
        false
    }

    fn default_value() -> (r: Player) {
        Player { id: 0, name: String::new() }
    }

    fn serialize<W: Writer>(&self, version: Version, writer: &mut W) -> (r: Result<
        (),
        WriteError,
    >) {
        let ghost m = self.deep_view();
        let ghost f1 = spec_field_enc::<u32>(
            m.id,
            Version { major: 1, minor: 0, patch: 0 },
            version,
        );
        let ghost f2 = spec_field_enc::<String>(
            m.name,
            Version { major: 2, minor: 0, patch: 0 },
            version,
        );
        let r1 = write_field(&self.id, Version::new(1, 0, 0), version, writer);
        if let Err(e) = r1 {
            return Err(e);
        }
        let ghost mid = writer.out();
        let r2 = write_field(&self.name, Version::new(2, 0, 0), version, writer);
        proof {
            if r2 is Ok {
                lemma_concat_assoc(old(writer).out(), f1, f2);
                lemma_prefix_append(old(writer).out(), Self::spec_enc(m, version));
            } else {
                lemma_prefix_append(old(writer).out(), f1);
                lemma_prefix_trans(old(writer).out(), mid, writer.out());
            }
        }
        r2
    }

    fn deserialize<R: Reader<'a>>(reader: &mut R) -> (r: Result<Player, ReadError>) {
        let ghost rem0 = old(reader).rem();
        let ghost ver = old(reader).spec_version();
        let res1 = read_field::<u32, R>(reader, Version::new(1, 0, 0));
        proof {
            assert forall|m: PlayerModel|
                #[trigger] Self::spec_enc(m, ver).is_prefix_of(rem0) && Self::spec_canonical(
                    m,
                    ver,
                ) implies spec_field_enc::<u32>(
                m.id,
                Version { major: 1, minor: 0, patch: 0 },
                ver,
            ).is_prefix_of(rem0) by {
                lemma_prefix_split(
                    spec_field_enc::<u32>(m.id, Version { major: 1, minor: 0, patch: 0 }, ver),
                    spec_field_enc::<String>(
                        m.name,
                        Version { major: 2, minor: 0, patch: 0 },
                        ver,
                    ),
                    rem0,
                );
            }
        }
        let id = match res1 {
            Ok(v) => v,
            Err(e) => {
                return Err(e);
            },
        };
        let ghost rem1 = reader.rem();
        proof {
            assert forall|m: PlayerModel|
                #[trigger] Self::spec_enc(m, ver).is_prefix_of(rem0) && Self::spec_canonical(
                    m,
                    ver,
                ) implies id == m.id && spec_field_enc::<String>(
                m.name,
                Version { major: 2, minor: 0, patch: 0 },
                ver,
            ).is_prefix_of(rem1) && rem0.skip(Self::spec_enc(m, ver).len() as int) == rem1.skip(
                spec_field_enc::<String>(
                    m.name,
                    Version { major: 2, minor: 0, patch: 0 },
                    ver,
                ).len() as int,
            ) by {
                lemma_prefix_split(
                    spec_field_enc::<u32>(m.id, Version { major: 1, minor: 0, patch: 0 }, ver),
                    spec_field_enc::<String>(
                        m.name,
                        Version { major: 2, minor: 0, patch: 0 },
                        ver,
                    ),
                    rem0,
                );
                lemma_skip_skip(
                    rem0,
                    spec_field_enc::<u32>(
                        m.id,
                        Version { major: 1, minor: 0, patch: 0 },
                        ver,
                    ).len() as int,
                    spec_field_enc::<String>(
                        m.name,
                        Version { major: 2, minor: 0, patch: 0 },
                        ver,
                    ).len() as int,
                );
            }
        }
        let res2 = read_field::<String, R>(reader, Version::new(2, 0, 0));
        let name = match res2 {
            Ok(v) => v,
            Err(e) => {
                proof {
                    lemma_skip_skip(
                        rem0,
                        rem0.len() - rem1.len(),
                        rem1.len() - reader.rem().len(),
                    );
                }
                return Err(e);
            },
        };
        proof {
            lemma_skip_skip(rem0, rem0.len() - rem1.len(), rem1.len() - reader.rem().len());
        }
        Ok(Player { id, name })
    }
}

/// The `Player` schema as it stood before `name` was added: a reader at
/// that stage knows only the `id` field. Decoding the same early-stamped
/// document under either schema yields the same `id` — the monotonicity of
/// version gating.
#[derive(Debug, PartialEq)]
pub struct BasePlayer {
    /// Numeric identity, on the wire since version 1.0.0.
    pub id: u32,
}

/// The mathematical model of a `BasePlayer`.
pub struct BasePlayerModel {
    /// The model of `BasePlayer::id`.
    pub id: u32,
}

impl BasePlayer {
    /// The newest introduced version anywhere in this schema: the stamp
    /// that carries every field.
    pub fn newest_version() -> (r: Version)
        ensures
            r == (Version { major: 1, minor: 0, patch: 0 }),
    {
        Version::new(1, 0, 0)
    }
}

impl DeepView for BasePlayer {
    type V = BasePlayerModel;

    open spec fn deep_view(&self) -> BasePlayerModel {
        BasePlayerModel { id: self.id }
    }
}

impl<'a> Serializable<'a> for BasePlayer {
    open spec fn spec_enc(m: BasePlayerModel, version: Version) -> Seq<u8> {
        spec_field_enc::<u32>(m.id, Version { major: 1, minor: 0, patch: 0 }, version)
    }

    open spec fn spec_canonical(m: BasePlayerModel, version: Version) -> bool {
        spec_field_canonical::<u32>(m.id, Version { major: 1, minor: 0, patch: 0 }, version)
    }

    open spec fn spec_default() -> BasePlayerModel {
        BasePlayerModel { id: 0 }
    }

    open spec fn needs_persistent() -> bool {
        false
    }

    fn default_value() -> (r: BasePlayer) {
        BasePlayer { id: 0 }
    }

    fn serialize<W: Writer>(&self, version: Version, writer: &mut W) -> (r: Result<
        (),
        WriteError,
    >) {
        write_field(&self.id, Version::new(1, 0, 0), version, writer)
    }

    fn deserialize<R: Reader<'a>>(reader: &mut R) -> (r: Result<BasePlayer, ReadError>) {
        let res = read_field::<u32, R>(reader, Version::new(1, 0, 0));
        match res {
            Ok(id) => Ok(BasePlayer { id }),
            Err(e) => Err(e),
        }
    }
}

/// A record holding one zero-copy byte blob, on the wire since version
/// one. Decoding borrows the bytes straight from the document's buffer.
#[derive(Debug, PartialEq)]
pub struct Blob<'a> {
    /// Borrowed bytes, on the wire since version 1.0.0.
    pub slice: &'a [u8],
}

/// The mathematical model of a `Blob`.
pub struct BlobModel {
    /// The model of `Blob::slice`.
    pub slice: Seq<u8>,
}

impl<'a> Blob<'a> {
    /// The newest introduced version anywhere in this schema: the stamp
    /// that carries every field.
    pub fn newest_version() -> (r: Version)
        ensures
            r == (Version { major: 1, minor: 0, patch: 0 }),
    {
        Version::new(1, 0, 0)
    }
}

impl<'a> DeepView for Blob<'a> {
    type V = BlobModel;

    open spec fn deep_view(&self) -> BlobModel {
        BlobModel { slice: self.slice.deep_view() }
    }
}

impl<'a> Serializable<'a> for Blob<'a> {
    open spec fn spec_enc(m: BlobModel, version: Version) -> Seq<u8> {
        spec_field_enc::<&'a [u8]>(m.slice, Version { major: 1, minor: 0, patch: 0 }, version)
    }

    open spec fn spec_canonical(m: BlobModel, version: Version) -> bool {
        spec_field_canonical::<&'a [u8]>(
            m.slice,
            Version { major: 1, minor: 0, patch: 0 },
            version,
        )
    }

    open spec fn spec_default() -> BlobModel {
        BlobModel { slice: Seq::empty() }
    }

    open spec fn needs_persistent() -> bool {
        true
    }

    fn default_value() -> (r: Blob<'a>) {
        let slice = <&'a [u8] as Serializable<'a>>::default_value();
        Blob { slice }
    }

    fn serialize<W: Writer>(&self, version: Version, writer: &mut W) -> (r: Result<
        (),
        WriteError,
    >) {
        write_field(&self.slice, Version::new(1, 0, 0), version, writer)
    }

    fn deserialize<R: Reader<'a>>(reader: &mut R) -> (r: Result<Blob<'a>, ReadError>) {
        let res = read_field::<&'a [u8], R>(reader, Version::new(1, 0, 0));
        match res {
            Ok(slice) => Ok(Blob { slice }),
            Err(e) => Err(e),
        }
    }
}

/// A record holding an owned byte blob and a list of strings, both on the
/// wire since version one.
#[derive(Debug, PartialEq)]
pub struct Payload {
    /// Owned bytes, on the wire since version 1.0.0.
    pub blob: Vec<u8>,
    /// A list of owned strings, on the wire since version 1.0.0.
    pub string_list: Vec<String>,
}

/// The mathematical model of a `Payload`.
pub struct PayloadModel {
    /// The model of `Payload::blob`.
    pub blob: Seq<u8>,
    /// The model of `Payload::string_list`.
    pub string_list: Seq<Seq<char>>,
}

impl Payload {
    /// The newest introduced version anywhere in this schema: the stamp
    /// that carries every field.
    pub fn newest_version() -> (r: Version)
        ensures
            r == (Version { major: 1, minor: 0, patch: 0 }),
    {
        Version::new(1, 0, 0)
    }
}

impl DeepView for Payload {
    type V = PayloadModel;

    open spec fn deep_view(&self) -> PayloadModel {
        PayloadModel { blob: self.blob.deep_view(), string_list: self.string_list.deep_view() }
    }
}

impl<'a> Serializable<'a> for Payload {
    open spec fn spec_enc(m: PayloadModel, version: Version) -> Seq<u8> {
        spec_field_enc::<Vec<u8>>(m.blob, Version { major: 1, minor: 0, patch: 0 }, version)
            + spec_field_enc::<Vec<String>>(
            m.string_list,
            Version { major: 1, minor: 0, patch: 0 },
            version,
        )
    }

    open spec fn spec_canonical(m: PayloadModel, version: Version) -> bool {
        spec_field_canonical::<Vec<u8>>(m.blob, Version { major: 1, minor: 0, patch: 0 }, version)
            && spec_field_canonical::<Vec<String>>(
            m.string_list,
            Version { major: 1, minor: 0, patch: 0 },
            version,
        )
    }

    open spec fn spec_default() -> PayloadModel {
        PayloadModel { blob: Seq::empty(), string_list: Seq::empty() }
    }

    open spec fn needs_persistent() -> bool {
        false
    }

    fn default_value() -> (r: Payload) {
        let blob: Vec<u8> = Vec::new();
        let string_list: Vec<String> = Vec::new();
        let r = Payload { blob, string_list };
        proof {
            assert(r.blob.deep_view() =~= Seq::<u8>::empty());
            assert(r.string_list.deep_view() =~= Seq::<Seq<char>>::empty());
        }
        r
    }

    fn serialize<W: Writer>(&self, version: Version, writer: &mut W) -> (r: Result<
        (),
        WriteError,
    >) {
        let ghost m = self.deep_view();
        let ghost f1 = spec_field_enc::<Vec<u8>>(
            m.blob,
            Version { major: 1, minor: 0, patch: 0 },
            version,
        );
        let ghost f2 = spec_field_enc::<Vec<String>>(
            m.string_list,
            Version { major: 1, minor: 0, patch: 0 },
            version,
        );
        let r1 = write_field(&self.blob, Version::new(1, 0, 0), version, writer);
        if let Err(e) = r1 {
            return Err(e);
        }
        let ghost mid = writer.out();
        let r2 = write_field(&self.string_list, Version::new(1, 0, 0), version, writer);
        proof {
            if r2 is Ok {
                lemma_concat_assoc(old(writer).out(), f1, f2);
                lemma_prefix_append(old(writer).out(), Self::spec_enc(m, version));
            } else {
                lemma_prefix_append(old(writer).out(), f1);
                lemma_prefix_trans(old(writer).out(), mid, writer.out());
            }
        }
        r2
    }

    fn deserialize<R: Reader<'a>>(reader: &mut R) -> (r: Result<Payload, ReadError>) {
        let ghost rem0 = old(reader).rem();
        let ghost ver = old(reader).spec_version();
        let res1 = read_field::<Vec<u8>, R>(reader, Version::new(1, 0, 0));
        proof {
            assert forall|m: PayloadModel|
                #[trigger] Self::spec_enc(m, ver).is_prefix_of(rem0) && Self::spec_canonical(
                    m,
                    ver,
                ) implies spec_field_enc::<Vec<u8>>(
                m.blob,
                Version { major: 1, minor: 0, patch: 0 },
                ver,
            ).is_prefix_of(rem0) by {
                lemma_prefix_split(
                    spec_field_enc::<Vec<u8>>(
                        m.blob,
                        Version { major: 1, minor: 0, patch: 0 },
                        ver,
                    ),
                    spec_field_enc::<Vec<String>>(
                        m.string_list,
                        Version { major: 1, minor: 0, patch: 0 },
                        ver,
                    ),
                    rem0,
                );
            }
        }
        let blob = match res1 {
            Ok(v) => v,
            Err(e) => {
                return Err(e);
            },
        };
        let ghost rem1 = reader.rem();
        proof {
            assert forall|m: PayloadModel|
                #[trigger] Self::spec_enc(m, ver).is_prefix_of(rem0) && Self::spec_canonical(
                    m,
                    ver,
                ) implies blob.deep_view() == m.blob && spec_field_enc::<Vec<String>>(
                m.string_list,
                Version { major: 1, minor: 0, patch: 0 },
                ver,
            ).is_prefix_of(rem1) && rem0.skip(Self::spec_enc(m, ver).len() as int) == rem1.skip(
                spec_field_enc::<Vec<String>>(
                    m.string_list,
                    Version { major: 1, minor: 0, patch: 0 },
                    ver,
                ).len() as int,
            ) by {
                lemma_prefix_split(
                    spec_field_enc::<Vec<u8>>(
                        m.blob,
                        Version { major: 1, minor: 0, patch: 0 },
                        ver,
                    ),
                    spec_field_enc::<Vec<String>>(
                        m.string_list,
                        Version { major: 1, minor: 0, patch: 0 },
                        ver,
                    ),
                    rem0,
                );
                lemma_skip_skip(
                    rem0,
                    spec_field_enc::<Vec<u8>>(
                        m.blob,
                        Version { major: 1, minor: 0, patch: 0 },
                        ver,
                    ).len() as int,
                    spec_field_enc::<Vec<String>>(
                        m.string_list,
                        Version { major: 1, minor: 0, patch: 0 },
                        ver,
                    ).len() as int,
                );
            }
        }
        let res2 = read_field::<Vec<String>, R>(reader, Version::new(1, 0, 0));
        let string_list = match res2 {
            Ok(v) => v,
            Err(e) => {
                proof {
                    lemma_skip_skip(
                        rem0,
                        rem0.len() - rem1.len(),
                        rem1.len() - reader.rem().len(),
                    );
                }
                return Err(e);
            },
        };
        proof {
            lemma_skip_skip(rem0, rem0.len() - rem1.len(), rem1.len() - reader.rem().len());
        }
        Ok(Payload { blob, string_list })
    }
}

/// A tagged union: `Variant1` has existed since version one, `Variant2`
/// arrived in version two, and `Variant2`'s `name` field in version three.
/// A document stamped before version two can never carry `Variant2`:
/// decoding its selector from such a document fails as `UnknownVariant`.
#[derive(Debug, PartialEq)]
pub enum Event {
    /// The first alternative, on the wire since version 1.0.0.
    Variant1,
    /// Introduced in version 2.0.0.
    Variant2 {
        /// On the wire since version 3.0.0.
        name: String,
    },
}

/// The mathematical model of an `Event`.
pub enum EventModel {
    /// The model of `Event::Variant1`.
    Variant1,
    /// The model of `Event::Variant2`.
    Variant2 {
        /// The model of the `name` field.
        name: Seq<char>,
    },
}

impl Event {
    /// The newest introduced version anywhere in this schema: the stamp
    /// that carries every variant and field.
    pub fn newest_version() -> (r: Version)
        ensures
            r == (Version { major: 3, minor: 0, patch: 0 }),
    {
        Version::new(3, 0, 0)
    }
}

impl DeepView for Event {
    type V = EventModel;

    open spec fn deep_view(&self) -> EventModel {
        match self {
            Event::Variant1 => EventModel::Variant1,
            Event::Variant2 { name } => EventModel::Variant2 { name: name@ },
        }
    }
}

/// The wire selector of each `Event` variant: its declaration index.
pub open spec fn spec_event_selector(m: EventModel) -> u16 {
    match m {
        EventModel::Variant1 => 0u16,
        EventModel::Variant2 { .. } => 1u16,
    }
}

impl<'a> Serializable<'a> for Event {
    open spec fn spec_enc(m: EventModel, version: Version) -> Seq<u8> {
        match m {
            EventModel::Variant1 => be2(0),
            EventModel::Variant2 { name } => be2(1) + spec_field_enc::<String>(
                name,
                Version { major: 3, minor: 0, patch: 0 },
                version,
            ),
        }
    }

    open spec fn spec_canonical(m: EventModel, version: Version) -> bool {
        match m {
            EventModel::Variant1 => version_le(Version { major: 1, minor: 0, patch: 0 }, version),
            EventModel::Variant2 { name } => version_le(
                Version { major: 2, minor: 0, patch: 0 },
                version,
            ) && spec_field_canonical::<String>(
                name,
                Version { major: 3, minor: 0, patch: 0 },
                version,
            ),
        }
    }

    open spec fn spec_default() -> EventModel {
        EventModel::Variant1
    }

    open spec fn needs_persistent() -> bool {
        false
    }

    fn default_value() -> (r: Event) {
        Event::Variant1
    }

    fn serialize<W: Writer>(&self, version: Version, writer: &mut W) -> (r: Result<
        (),
        WriteError,
    >) {
        match self {
            Event::Variant1 => {
                let sel: u16 = 0;
                sel.serialize(version, writer)
            },
            Event::Variant2 { name } => {
                let sel: u16 = 1;
                let r1 = sel.serialize(version, writer);
                if let Err(e) = r1 {
                    return Err(e);
                }
                let ghost mid = writer.out();
                let r2 = write_field(name, Version::new(3, 0, 0), version, writer);
                proof {
                    let f = spec_field_enc::<String>(
                        name@,
                        Version { major: 3, minor: 0, patch: 0 },
                        version,
                    );
                    if r2 is Ok {
                        lemma_concat_assoc(old(writer).out(), be2(1), f);
                        lemma_prefix_append(
                            old(writer).out(),
                            Self::spec_enc(self.deep_view(), version),
                        );
                    } else {
                        lemma_prefix_append(old(writer).out(), be2(1));
                        lemma_prefix_trans(old(writer).out(), mid, writer.out());
                    }
                }
                r2
            },
        }
    }

    fn deserialize<R: Reader<'a>>(reader: &mut R) -> (r: Result<Event, ReadError>)
        ensures
            old(reader).rem().len() >= 2 && !spec_variant_known(
                seq![
                    Version { major: 1, minor: 0, patch: 0 },
                    Version { major: 2, minor: 0, patch: 0 },
                ],
                be2_value(old(reader).rem()[0], old(reader).rem()[1]),
                old(reader).spec_version(),
            ) ==> (r matches Err(e) && e == ReadError::UnknownVariant(
                be2_value(old(reader).rem()[0], old(reader).rem()[1]),
            )),
    {
        let ghost rem0 = old(reader).rem();
        let ghost ver = old(reader).spec_version();
        let mut sinces: Vec<Version> = Vec::new();
        sinces.push(Version::new(1, 0, 0));
        sinces.push(Version::new(2, 0, 0));
        let res_sel = read_selector(reader, &sinces);
        proof {
            assert forall|m: EventModel|
                #[trigger] Self::spec_enc(m, ver).is_prefix_of(rem0) && Self::spec_canonical(
                    m,
                    ver,
                ) implies rem0.len() >= 2 && be2_value(rem0[0], rem0[1]) == spec_event_selector(m)
                && (res_sel matches Ok(s) && s == spec_event_selector(m)) && reader.rem()
                == rem0.skip(2) by {
                let sel_m = spec_event_selector(m);
                match m {
                    EventModel::Variant1 => {},
                    EventModel::Variant2 { name } => {
                        lemma_prefix_split(
                            be2(1),
                            spec_field_enc::<String>(
                                name,
                                Version { major: 3, minor: 0, patch: 0 },
                                ver,
                            ),
                            rem0,
                        );
                    },
                }
                assert(be2(sel_m).is_prefix_of(rem0));
                lemma_prefix_take(be2(sel_m), rem0);
                assert(rem0[0] == be2(sel_m)[0] && rem0[1] == be2(sel_m)[1]);
                lemma_be2_value_of_be2(sel_m);
                assert(spec_variant_known(sinces@, sel_m, ver));
            }
        }
        let sel = match res_sel {
            Ok(s) => s,
            Err(e) => {
                return Err(e);
            },
        };
        let ghost rem1 = reader.rem();
        if sel == 0 {
            proof {
                assert forall|m: EventModel|
                    #[trigger] Self::spec_enc(m, ver).is_prefix_of(rem0) && Self::spec_canonical(
                        m,
                        ver,
                    ) implies m == EventModel::Variant1 && rem1 == rem0.skip(
                    Self::spec_enc(m, ver).len() as int,
                ) by {
                }
            }
            Ok(Event::Variant1)
        } else if sel == 1 {
            proof {
                assert forall|m: EventModel|
                    #[trigger] Self::spec_enc(m, ver).is_prefix_of(rem0) && Self::spec_canonical(
                        m,
                        ver,
                    ) implies m is Variant2 && spec_field_enc::<String>(
                    m->Variant2_name,
                    Version { major: 3, minor: 0, patch: 0 },
                    ver,
                ).is_prefix_of(rem1) && spec_field_canonical::<String>(
                    m->Variant2_name,
                    Version { major: 3, minor: 0, patch: 0 },
                    ver,
                ) && rem0.skip(Self::spec_enc(m, ver).len() as int) == rem1.skip(
                    spec_field_enc::<String>(
                        m->Variant2_name,
                        Version { major: 3, minor: 0, patch: 0 },
                        ver,
                    ).len() as int,
                ) by {
                    match m {
                        EventModel::Variant1 => {},
                        EventModel::Variant2 { name } => {
                            lemma_prefix_split(
                                be2(1),
                                spec_field_enc::<String>(
                                    name,
                                    Version { major: 3, minor: 0, patch: 0 },
                                    ver,
                                ),
                                rem0,
                            );
                            lemma_skip_skip(
                                rem0,
                                2,
                                spec_field_enc::<String>(
                                    name,
                                    Version { major: 3, minor: 0, patch: 0 },
                                    ver,
                                ).len() as int,
                            );
                        },
                    }
                }
            }
            let res_f = read_field::<String, R>(reader, Version::new(3, 0, 0));
            let name = match res_f {
                Ok(v) => v,
                Err(e) => {
                    proof {
                        lemma_skip_skip(
                            rem0,
                            rem0.len() - rem1.len(),
                            rem1.len() - reader.rem().len(),
                        );
                    }
                    return Err(e);
                },
            };
            proof {
                lemma_skip_skip(rem0, rem0.len() - rem1.len(), rem1.len() - reader.rem().len());
            }
            Ok(Event::Variant2 { name })
        } else {
            proof {
                lemma_skip_skip(rem0, rem0.len() - rem1.len(), rem1.len() - reader.rem().len());
            }
            Err(ReadError::UnknownVariant(sel))
        }
    }
}

/// A tagged union whose second variant carries unnamed, zero-copy fields:
/// a borrowed text introduced in version three and a flag introduced in
/// version four, inside a variant that itself arrived in version two.
#[derive(Debug, PartialEq)]
pub enum Sample<'a> {
    /// The first alternative, on the wire since version 1.0.0.
    Variant1,
    /// Introduced in version 2.0.0; its text field is on the wire since
    /// version 3.0.0 and its flag since version 4.0.0.
    Variant2(&'a str, bool),
}

/// The mathematical model of a `Sample`.
pub enum SampleModel {
    /// The model of `Sample::Variant1`.
    Variant1,
    /// The model of `Sample::Variant2`.
    Variant2(Seq<char>, bool),
}

impl<'a> Sample<'a> {
    /// The newest introduced version anywhere in this schema: the stamp
    /// that carries every variant and field.
    pub fn newest_version() -> (r: Version)
        ensures
            r == (Version { major: 4, minor: 0, patch: 0 }),
    {
        Version::new(4, 0, 0)
    }
}

impl<'a> DeepView for Sample<'a> {
    type V = SampleModel;

    open spec fn deep_view(&self) -> SampleModel {
        match self {
            Sample::Variant1 => SampleModel::Variant1,
            Sample::Variant2(text, flag) => SampleModel::Variant2(text@, *flag),
        }
    }
}

/// The wire selector of each `Sample` variant: its declaration index.
pub open spec fn spec_sample_selector(m: SampleModel) -> u16 {
    match m {
        SampleModel::Variant1 => 0u16,
        SampleModel::Variant2(..) => 1u16,
    }
}

/// The text carried by a `Sample::Variant2` model.
pub open spec fn spec_sample_text(m: SampleModel) -> Seq<char>
    recommends
        m is Variant2,
{
    match m {
        SampleModel::Variant2(text, _) => text,
        _ => Seq::empty(),
    }
}

/// The flag carried by a `Sample::Variant2` model.
pub open spec fn spec_sample_flag(m: SampleModel) -> bool
    recommends
        m is Variant2,
{
    match m {
        SampleModel::Variant2(_, flag) => flag,
        _ => false,
    }
}

impl<'a> Serializable<'a> for Sample<'a> {
    open spec fn spec_enc(m: SampleModel, version: Version) -> Seq<u8> {
        match m {
            SampleModel::Variant1 => be2(0),
            SampleModel::Variant2(text, flag) => be2(1) + spec_field_enc::<&'a str>(
                text,
                Version { major: 3, minor: 0, patch: 0 },
                version,
            ) + spec_field_enc::<bool>(
                flag,
                Version { major: 4, minor: 0, patch: 0 },
                version,
            ),
        }
    }

    open spec fn spec_canonical(m: SampleModel, version: Version) -> bool {
        match m {
            SampleModel::Variant1 => version_le(Version { major: 1, minor: 0, patch: 0 }, version),
            SampleModel::Variant2(text, flag) => version_le(
                Version { major: 2, minor: 0, patch: 0 },
                version,
            ) && spec_field_canonical::<&'a str>(
                text,
                Version { major: 3, minor: 0, patch: 0 },
                version,
            ) && spec_field_canonical::<bool>(
                flag,
                Version { major: 4, minor: 0, patch: 0 },
                version,
            ),
        }
    }

    open spec fn spec_default() -> SampleModel {
        SampleModel::Variant1
    }

    open spec fn needs_persistent() -> bool {
        true
    }

    fn default_value() -> (r: Sample<'a>) {
        Sample::Variant1
    }

    fn serialize<W: Writer>(&self, version: Version, writer: &mut W) -> (r: Result<
        (),
        WriteError,
    >) {
        match self {
            Sample::Variant1 => {
                let sel: u16 = 0;
                sel.serialize(version, writer)
            },
            Sample::Variant2(text, flag) => {
                let ghost f1 = spec_field_enc::<&'a str>(
                    text@,
                    Version { major: 3, minor: 0, patch: 0 },
                    version,
                );
                let ghost f2 = spec_field_enc::<bool>(
                    *flag,
                    Version { major: 4, minor: 0, patch: 0 },
                    version,
                );
                let sel: u16 = 1;
                let r1 = sel.serialize(version, writer);
                if let Err(e) = r1 {
                    return Err(e);
                }
                let ghost mid1 = writer.out();
                let r2 = write_field(text, Version::new(3, 0, 0), version, writer);
                if let Err(e) = r2 {
                    proof {
                        lemma_prefix_append(old(writer).out(), be2(1));
                        lemma_prefix_trans(old(writer).out(), mid1, writer.out());
                    }
                    return Err(e);
                }
                let ghost mid2 = writer.out();
                let r3 = write_field(flag, Version::new(4, 0, 0), version, writer);
                proof {
                    if r3 is Ok {
                        assert(writer.out() =~= old(writer).out() + Self::spec_enc(
                            self.deep_view(),
                            version,
                        ));
                        lemma_prefix_append(
                            old(writer).out(),
                            Self::spec_enc(self.deep_view(), version),
                        );
                    } else {
                        lemma_prefix_append(old(writer).out(), be2(1) + f1);
                        lemma_concat_assoc(old(writer).out(), be2(1), f1);
                        lemma_prefix_trans(old(writer).out(), mid2, writer.out());
                    }
                }
                r3
            },
        }
    }

    fn deserialize<R: Reader<'a>>(reader: &mut R) -> (r: Result<Sample<'a>, ReadError>)
        ensures
            old(reader).rem().len() >= 2 && !spec_variant_known(
                seq![
                    Version { major: 1, minor: 0, patch: 0 },
                    Version { major: 2, minor: 0, patch: 0 },
                ],
                be2_value(old(reader).rem()[0], old(reader).rem()[1]),
                old(reader).spec_version(),
            ) ==> (r matches Err(e) && e == ReadError::UnknownVariant(
                be2_value(old(reader).rem()[0], old(reader).rem()[1]),
            )),
    {
        let ghost rem0 = old(reader).rem();
        let ghost ver = old(reader).spec_version();
        let mut sinces: Vec<Version> = Vec::new();
        sinces.push(Version::new(1, 0, 0));
        sinces.push(Version::new(2, 0, 0));
        let res_sel = read_selector(reader, &sinces);
        proof {
            assert forall|m: SampleModel|
                #[trigger] Self::spec_enc(m, ver).is_prefix_of(rem0) && Self::spec_canonical(
                    m,
                    ver,
                ) implies rem0.len() >= 2 && be2_value(rem0[0], rem0[1]) == spec_sample_selector(m)
                && (res_sel matches Ok(s) && s == spec_sample_selector(m)) && reader.rem()
                == rem0.skip(2) by {
                let sel_m = spec_sample_selector(m);
                match m {
                    SampleModel::Variant1 => {},
                    SampleModel::Variant2(text, flag) => {
                        let f1 = spec_field_enc::<&'a str>(
                            text,
                            Version { major: 3, minor: 0, patch: 0 },
                            ver,
                        );
                        let f2 = spec_field_enc::<bool>(
                            flag,
                            Version { major: 4, minor: 0, patch: 0 },
                            ver,
                        );
                        lemma_concat_assoc(be2(1), f1, f2);
                        lemma_prefix_split(be2(1), f1 + f2, rem0);
                    },
                }
                assert(be2(sel_m).is_prefix_of(rem0));
                lemma_prefix_take(be2(sel_m), rem0);
                assert(rem0[0] == be2(sel_m)[0] && rem0[1] == be2(sel_m)[1]);
                lemma_be2_value_of_be2(sel_m);
                assert(spec_variant_known(sinces@, sel_m, ver));
            }
        }
        let sel = match res_sel {
            Ok(s) => s,
            Err(e) => {
                return Err(e);
            },
        };
        let ghost rem1 = reader.rem();
        if sel == 0 {
            proof {
                assert forall|m: SampleModel|
                    #[trigger] Self::spec_enc(m, ver).is_prefix_of(rem0) && Self::spec_canonical(
                        m,
                        ver,
                    ) implies m == SampleModel::Variant1 && rem1 == rem0.skip(
                    Self::spec_enc(m, ver).len() as int,
                ) by {
                }
            }
            Ok(Sample::Variant1)
        } else if sel == 1 {
            proof {
                assert forall|m: SampleModel|
                    #[trigger] Self::spec_enc(m, ver).is_prefix_of(rem0) && Self::spec_canonical(
                        m,
                        ver,
                    ) implies m is Variant2 && spec_field_enc::<&'a str>(
                    spec_sample_text(m),
                    Version { major: 3, minor: 0, patch: 0 },
                    ver,
                ).is_prefix_of(rem1) && (spec_field_enc::<&'a str>(
                    spec_sample_text(m),
                    Version { major: 3, minor: 0, patch: 0 },
                    ver,
                ) + spec_field_enc::<bool>(
                    spec_sample_flag(m),
                    Version { major: 4, minor: 0, patch: 0 },
                    ver,
                )).is_prefix_of(rem1) && rem0.skip(Self::spec_enc(m, ver).len() as int)
                    == rem1.skip(
                    (spec_field_enc::<&'a str>(
                        spec_sample_text(m),
                        Version { major: 3, minor: 0, patch: 0 },
                        ver,
                    ) + spec_field_enc::<bool>(
                        spec_sample_flag(m),
                        Version { major: 4, minor: 0, patch: 0 },
                        ver,
                    )).len() as int,
                ) by {
                    match m {
                        SampleModel::Variant1 => {},
                        SampleModel::Variant2(text, flag) => {
                            let f1 = spec_field_enc::<&'a str>(
                                text,
                                Version { major: 3, minor: 0, patch: 0 },
                                ver,
                            );
                            let f2 = spec_field_enc::<bool>(
                                flag,
                                Version { major: 4, minor: 0, patch: 0 },
                                ver,
                            );
                            lemma_concat_assoc(be2(1), f1, f2);
                            lemma_prefix_split(be2(1), f1 + f2, rem0);
                            lemma_prefix_split(f1, f2, rem1);
                            lemma_skip_skip(rem0, 2, (f1 + f2).len() as int);
                        },
                    }
                }
            }
            let res_text = read_field::<&'a str, R>(reader, Version::new(3, 0, 0));
            let text = match res_text {
                Ok(v) => v,
                Err(e) => {
                    proof {
                        lemma_skip_skip(
                            rem0,
                            rem0.len() - rem1.len(),
                            rem1.len() - reader.rem().len(),
                        );
                    }
                    return Err(e);
                },
            };
            let ghost rem2 = reader.rem();
            proof {
                assert forall|m: SampleModel|
                    (#[trigger] Self::spec_enc(m, ver).is_prefix_of(rem0) && Self::spec_canonical(
                        m,
                        ver,
                    ) && old(reader).persistent()) implies text@ == spec_sample_text(m)
                    && spec_field_enc::<bool>(
                    spec_sample_flag(m),
                    Version { major: 4, minor: 0, patch: 0 },
                    ver,
                ).is_prefix_of(rem2) && rem1.skip(
                    (spec_field_enc::<&'a str>(
                        spec_sample_text(m),
                        Version { major: 3, minor: 0, patch: 0 },
                        ver,
                    ) + spec_field_enc::<bool>(
                        spec_sample_flag(m),
                        Version { major: 4, minor: 0, patch: 0 },
                        ver,
                    )).len() as int,
                ) == rem2.skip(
                    spec_field_enc::<bool>(
                        spec_sample_flag(m),
                        Version { major: 4, minor: 0, patch: 0 },
                        ver,
                    ).len() as int,
                ) by {
                    let f1 = spec_field_enc::<&'a str>(
                        spec_sample_text(m),
                        Version { major: 3, minor: 0, patch: 0 },
                        ver,
                    );
                    let f2 = spec_field_enc::<bool>(
                        spec_sample_flag(m),
                        Version { major: 4, minor: 0, patch: 0 },
                        ver,
                    );
                    lemma_prefix_split(f1, f2, rem1);
                    lemma_skip_skip(rem1, f1.len() as int, f2.len() as int);
                }
            }
            let res_flag = read_field::<bool, R>(reader, Version::new(4, 0, 0));
            let flag = match res_flag {
                Ok(v) => v,
                Err(e) => {
                    proof {
                        lemma_skip_skip(
                            rem0,
                            rem0.len() - rem1.len(),
                            rem1.len() - rem2.len(),
                        );
                        lemma_skip_skip(
                            rem0,
                            rem0.len() - rem2.len(),
                            rem2.len() - reader.rem().len(),
                        );
                    }
                    return Err(e);
                },
            };
            proof {
                lemma_skip_skip(rem0, rem0.len() - rem1.len(), rem1.len() - rem2.len());
                lemma_skip_skip(rem0, rem0.len() - rem2.len(), rem2.len() - reader.rem().len());
            }
            Ok(Sample::Variant2(text, flag))
        } else {
            proof {
                lemma_skip_skip(rem0, rem0.len() - rem1.len(), rem1.len() - reader.rem().len());
            }
            Err(ReadError::UnknownVariant(sel))
        }
    }
}

} // verus!
