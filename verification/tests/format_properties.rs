use binver::schema::BasePlayer;
use binver::schema::Event;
use binver::schema::Player;
use binver::schema::Sample;
use binver::ReadConfig;
use binver::ReadError;
use binver::Version;
use binver::WriteError;

fn strict() -> ReadConfig {
    ReadConfig {
        error_on_trailing_bytes: true,
    }
}

#[test]
fn record_stamped_before_new_field_has_exact_bytes() {
    // A record with an id known since version one and a name added in
    // version two, written with the explicit early stamp, carries only the
    // header and the id.
    let player = Player {
        id: 1,
        name: String::new(),
    };
    let bytes = binver::to_vec(Version::new(1, 0, 0), &player);
    assert_eq!(
        bytes,
        vec![
            0x00, 0x01, 0x00, 0x00, 0x00, 0x00, // version header
            0x00, 0x00, 0x00, 0x01, // id
        ]
    );

    // Decoding it under the schema that also knows `name` defaults the name.
    let decoded: Player = binver::deserialize_slice(&bytes).unwrap();
    assert_eq!(decoded, Player { id: 1, name: String::new() });
}

#[test]
fn union_selector_bytes() {
    // The first variant encodes as its bare two-byte selector.
    let bytes = binver::to_vec(Version::new(3, 0, 0), &Event::Variant1);
    assert_eq!(&bytes[6..], &[0x00, 0x00]);

    // The second carries its selector and its length-prefixed name.
    let bytes = binver::to_vec(
        Version::new(3, 0, 0),
        &Event::Variant2 {
            name: String::from("Trangar"),
        },
    );
    assert_eq!(
        &bytes[6..],
        &[0x00, 0x01, 0x00, 0x00, 0x00, 0x07, b'T', b'r', b'a', b'n', b'g', b'a', b'r']
    );
}

#[test]
fn version_header_bytes() {
    let bytes = binver::to_vec(Version::new(1, 2, 3), &0u8);
    assert_eq!(bytes, vec![0x00, 0x01, 0x00, 0x02, 0x00, 0x03, 0x00]);
}

#[test]
fn numeric_wire_layout_is_big_endian() {
    let bytes = binver::to_vec(Version::new(1, 0, 0), &0x0102030405060708u64);
    assert_eq!(
        &bytes[6..],
        &[0x01, 0x02, 0x03, 0x04, 0x05, 0x06, 0x07, 0x08]
    );
    let bytes = binver::to_vec(Version::new(1, 0, 0), &0xCAFEu16);
    assert_eq!(&bytes[6..], &[0xCA, 0xFE]);
    let bytes = binver::to_vec(Version::new(1, 0, 0), &true);
    assert_eq!(&bytes[6..], &[0x01]);
    let bytes = binver::to_vec(Version::new(1, 0, 0), &false);
    assert_eq!(&bytes[6..], &[0x00]);
}

#[test]
fn signed_wire_layout_is_twos_complement() {
    let bytes = binver::to_vec(Version::new(1, 0, 0), &(-1i8));
    assert_eq!(&bytes[6..], &[0xFF]);
    let bytes = binver::to_vec(Version::new(1, 0, 0), &(-2i16));
    assert_eq!(&bytes[6..], &[0xFF, 0xFE]);
    let bytes = binver::to_vec(Version::new(1, 0, 0), &i32::MIN);
    assert_eq!(&bytes[6..], &[0x80, 0x00, 0x00, 0x00]);
}

#[test]
fn round_trip_signed_and_wide_integers() {
    let v = Version::new(1, 0, 0);

    for value in [i8::MIN, -1, 0, 1, i8::MAX] {
        let bytes = binver::to_vec(v, &value);
        let back: i8 = binver::deserialize_slice_with_config(&bytes, strict()).unwrap();
        assert_eq!(back, value);
    }
    for value in [i16::MIN, -300, 0, 300, i16::MAX] {
        let bytes = binver::to_vec(v, &value);
        let back: i16 = binver::deserialize_slice_with_config(&bytes, strict()).unwrap();
        assert_eq!(back, value);
    }
    for value in [i32::MIN, -70000, 0, 70000, i32::MAX] {
        let bytes = binver::to_vec(v, &value);
        let back: i32 = binver::deserialize_slice_with_config(&bytes, strict()).unwrap();
        assert_eq!(back, value);
    }
    for value in [i64::MIN, -1, 0, 1, i64::MAX] {
        let bytes = binver::to_vec(v, &value);
        let back: i64 = binver::deserialize_slice_with_config(&bytes, strict()).unwrap();
        assert_eq!(back, value);
    }
    for value in [i128::MIN, -1, 0, 1, i128::MAX] {
        let bytes = binver::to_vec(v, &value);
        assert_eq!(bytes.len(), 6 + 16);
        let back: i128 = binver::deserialize_slice_with_config(&bytes, strict()).unwrap();
        assert_eq!(back, value);
    }
    for value in [0u128, 1, u128::MAX] {
        let bytes = binver::to_vec(v, &value);
        let back: u128 = binver::deserialize_slice_with_config(&bytes, strict()).unwrap();
        assert_eq!(back, value);
    }
}

#[test]
fn round_trip_primitives() {
    let v = Version::new(1, 0, 0);

    let bytes = binver::to_vec(v, &0xDEADBEEFu32);
    let back: u32 = binver::deserialize_slice_with_config(&bytes, strict()).unwrap();
    assert_eq!(back, 0xDEADBEEF);

    let bytes = binver::to_vec(v, &String::from("schema evolution"));
    let back: String = binver::deserialize_slice_with_config(&bytes, strict()).unwrap();
    assert_eq!(back, "schema evolution");

    let list = vec![3u16, 1, 4, 1, 5, 9, 2, 6];
    let bytes = binver::to_vec(v, &list);
    let back: Vec<u16> = binver::deserialize_slice_with_config(&bytes, strict()).unwrap();
    assert_eq!(back, list);

    let names = vec![String::from("one"), String::new(), String::from("três")];
    let bytes = binver::to_vec(v, &names);
    let back: Vec<String> = binver::deserialize_slice_with_config(&bytes, strict()).unwrap();
    assert_eq!(back, names);
}

#[test]
fn round_trip_record_and_union() {
    let player = Player {
        id: 77,
        name: String::from("Ada"),
    };
    let bytes = binver::to_vec(Player::newest_version(), &player);
    let back: Player = binver::deserialize_slice_with_config(&bytes, strict()).unwrap();
    assert_eq!(back, player);

    let sample = Sample::Variant2("zero-copy", true);
    let bytes = binver::to_vec(Sample::newest_version(), &sample);
    let back: Sample = binver::deserialize_slice_with_config(&bytes, strict()).unwrap();
    assert_eq!(back, sample);
}

#[test]
fn gating_monotonic_across_reader_schemas() {
    // One document stamped before `name` existed, decoded by the newer
    // schema and by the older one: both read the same id.
    let bytes = binver::to_vec(Version::new(1, 0, 0), &Player {
        id: 41,
        name: String::new(),
    });
    let newer: Player = binver::deserialize_slice_with_config(&bytes, strict()).unwrap();
    let older: BasePlayer = binver::deserialize_slice_with_config(&bytes, strict()).unwrap();
    assert_eq!(newer.id, 41);
    assert_eq!(older.id, 41);
    assert_eq!(newer.name, "");
}

#[test]
fn absent_field_consumes_no_bytes() {
    // Strict mode proves that a gated-out field read zero bytes: the
    // document ends right after the id, and the decode still succeeds.
    let mut doc = Vec::<u8>::new();
    doc.extend_from_slice(&[0x00, 0x01, 0x00, 0x00, 0x00, 0x00]); // stamp
    doc.extend_from_slice(&9u32.to_be_bytes()); // id only
    let decoded: Player = binver::deserialize_slice_with_config(&doc, strict()).unwrap();
    assert_eq!(decoded.id, 9);
    assert_eq!(decoded.name, "");
}

#[test]
fn trailing_bytes_strict_and_lenient() {
    let player = Player {
        id: 5,
        name: String::from("x"),
    };
    let mut bytes = binver::to_vec(Version::new(2, 0, 0), &player);
    bytes.extend_from_slice(&[0xAA, 0xBB, 0xCC]);

    let strict_result = binver::deserialize_slice_with_config::<Player>(&bytes, strict());
    assert_eq!(strict_result.unwrap_err(), ReadError::TrailingBytes(3));

    let lenient: Player = binver::deserialize_slice(&bytes).unwrap();
    assert_eq!(lenient, player);
}

#[test]
fn unknown_and_future_selectors_are_rejected() {
    // A selector that names no variant at all.
    let mut doc = Vec::<u8>::new();
    doc.extend_from_slice(&[0x00, 0x03, 0x00, 0x00, 0x00, 0x00]); // stamp
    doc.extend_from_slice(&7u16.to_be_bytes());
    let r = binver::deserialize_slice::<Event>(&doc);
    assert_eq!(r.unwrap_err(), ReadError::UnknownVariant(7));

    // A selector for a variant introduced after the document's stamp.
    let mut doc = Vec::<u8>::new();
    doc.extend_from_slice(&[0x00, 0x01, 0x00, 0x00, 0x00, 0x00]); // stamp
    doc.extend_from_slice(&1u16.to_be_bytes());
    let r = binver::deserialize_slice::<Event>(&doc);
    assert_eq!(r.unwrap_err(), ReadError::UnknownVariant(1));
}

#[test]
fn truncated_documents_fail_with_end_of_input() {
    // Too short for the header itself.
    let r = binver::deserialize_slice::<Player>(&[0x00, 0x01, 0x00]);
    assert_eq!(r.unwrap_err(), ReadError::EndOfInput);

    // Header fine, id truncated.
    let doc = [0x00, 0x01, 0x00, 0x00, 0x00, 0x00, 0x00, 0x00];
    let r = binver::deserialize_slice::<Player>(&doc);
    assert_eq!(r.unwrap_err(), ReadError::EndOfInput);
}

#[test]
fn invalid_utf8_is_rejected_for_owned_and_borrowed_text() {
    // Owned text: a Player name of two invalid bytes.
    let mut doc = Vec::<u8>::new();
    doc.extend_from_slice(&[0x00, 0x02, 0x00, 0x00, 0x00, 0x00]); // stamp
    doc.extend_from_slice(&5u32.to_be_bytes()); // id
    doc.extend_from_slice(&2u32.to_be_bytes()); // name length
    doc.extend_from_slice(&[0xFF, 0xFE]); // not UTF-8
    let r = binver::deserialize_slice::<Player>(&doc);
    assert_eq!(r.unwrap_err(), ReadError::InvalidUtf8String);

    // Borrowed text: the same bytes inside a Sample variant.
    let mut doc = Vec::<u8>::new();
    doc.extend_from_slice(&[0x00, 0x03, 0x00, 0x00, 0x00, 0x00]); // stamp
    doc.extend_from_slice(&1u16.to_be_bytes()); // second variant
    doc.extend_from_slice(&2u32.to_be_bytes()); // text length
    doc.extend_from_slice(&[0xFF, 0xFE]); // not UTF-8
    let r = binver::deserialize_slice::<Sample>(&doc);
    assert_eq!(r.unwrap_err(), ReadError::InvalidUtf8Str);
}

#[test]
fn buffer_too_small_fails_with_end_of_output() {
    let player = Player {
        id: 5,
        name: String::from("Trangar"),
    };
    let mut tiny = vec![0u8; 8];
    let r = binver::write_to_slice(&mut tiny, Version::new(2, 0, 0), &player);
    assert_eq!(r.unwrap_err(), WriteError::EndOfOutput);
    assert_eq!(tiny.len(), 8);

    // The same document fits a buffer of exactly its size.
    let needed = binver::to_vec(Version::new(2, 0, 0), &player).len();
    let mut exact = vec![0u8; needed];
    let written = binver::write_to_slice(&mut exact, Version::new(2, 0, 0), &player).unwrap();
    assert_eq!(written, needed);
}

#[test]
fn bool_decodes_one_as_true_and_everything_else_as_false() {
    for (byte, expected) in [(0u8, false), (1u8, true), (2u8, false), (0xFFu8, false)] {
        let doc = [0x00, 0x01, 0x00, 0x00, 0x00, 0x00, byte];
        let decoded: bool = binver::deserialize_slice(&doc).unwrap();
        assert_eq!(decoded, expected);
    }
}

#[test]
fn zero_length_collections_round_trip() {
    let v = Version::new(1, 0, 0);
    let empty: Vec<u32> = Vec::new();
    let bytes = binver::to_vec(v, &empty);
    assert_eq!(&bytes[6..], &[0x00, 0x00, 0x00, 0x00]);
    let back: Vec<u32> = binver::deserialize_slice_with_config(&bytes, strict()).unwrap();
    assert_eq!(back, empty);

    let bytes = binver::to_vec(v, &String::new());
    let back: String = binver::deserialize_slice_with_config(&bytes, strict()).unwrap();
    assert_eq!(back, "");
}
