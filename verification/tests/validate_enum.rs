use binver::schema::Event;
use binver::ReadConfig;
use binver::Version;

#[test]
fn validate_enum_test_serialize_simple() {
    // Serialize under the version that knows every variant and field.
    let serialized = binver::to_vec(Version::new(3, 0, 0), &Event::Variant1);

    assert_eq!(
        &[0, 0],          // first variant
        &serialized[6..]  // ignore the version bytes
    );
    let serialized = binver::to_vec(
        Version::new(3, 0, 0),
        &Event::Variant2 {
            name: String::from("Trangar"),
        },
    );
    assert_eq!(
        vec![
            0, 1, // second variant
            0, 0, 0, 7, b'T', b'r', b'a', b'n', b'g', b'a', b'r', // name
        ],
        &serialized[6..] // ignore the version bytes
    );
    let config = ReadConfig {
        error_on_trailing_bytes: true,
    };

    let deserialized: Event = binver::deserialize_slice_with_config(&serialized, config).unwrap();
    assert_eq!(
        deserialized,
        Event::Variant2 {
            name: String::from("Trangar"),
        }
    );
}

#[test]
fn validate_enum_test_simple_deserialize() {
    let config = ReadConfig {
        error_on_trailing_bytes: true,
    };

    // first variant, under the version that knows both variants
    let mut vec = Vec::<u8>::new();
    vec.extend_from_slice(&(2u16.to_be_bytes())); // version major
    vec.extend_from_slice(&(0u16.to_be_bytes())); // version minor
    vec.extend_from_slice(&(0u16.to_be_bytes())); // version patch

    vec.extend_from_slice(&(0u16.to_be_bytes())); // first variant

    let deserialized: Event = binver::deserialize_slice_with_config(&vec, config.clone()).unwrap();
    assert_eq!(deserialized, Event::Variant1);

    // second variant
    // note that its field arrived one version later, so it stays empty
    let mut vec = Vec::<u8>::new();
    vec.extend_from_slice(&(2u16.to_be_bytes())); // version major
    vec.extend_from_slice(&(0u16.to_be_bytes())); // version minor
    vec.extend_from_slice(&(0u16.to_be_bytes())); // version patch

    vec.extend_from_slice(&(1u16.to_be_bytes())); // second variant

    let deserialized: Event = binver::deserialize_slice_with_config(&vec, config.clone()).unwrap();
    assert_eq!(
        deserialized,
        Event::Variant2 {
            name: String::new()
        }
    );

    // second variant, one version later
    // now the name field carries a value
    let mut vec = Vec::<u8>::new();
    vec.extend_from_slice(&(3u16.to_be_bytes())); // version major
    vec.extend_from_slice(&(0u16.to_be_bytes())); // version minor
    vec.extend_from_slice(&(0u16.to_be_bytes())); // version patch

    vec.extend_from_slice(&(1u16.to_be_bytes())); // second variant
    vec.extend_from_slice(&(7u32.to_be_bytes())); // name length
    vec.extend_from_slice(b"Trangar"); // name

    let deserialized: Event = binver::deserialize_slice_with_config(&vec, config.clone()).unwrap();
    assert_eq!(
        deserialized,
        Event::Variant2 {
            name: String::from("Trangar")
        }
    );
}

#[test]
fn validate_enum_test_deserialize_upgrade_version() {
    let config = ReadConfig {
        error_on_trailing_bytes: true,
    };
    // Deserialize a document stamped before the second variant existed.
    let mut vec = Vec::<u8>::new();
    vec.extend_from_slice(&(1u16.to_be_bytes())); // version major
    vec.extend_from_slice(&(0u16.to_be_bytes())); // version minor
    vec.extend_from_slice(&(0u16.to_be_bytes())); // version patch

    vec.extend_from_slice(&(0u16.to_be_bytes())); // first variant

    let deserialized: Event = binver::deserialize_slice_with_config(&vec, config.clone()).unwrap();

    assert_eq!(deserialized, Event::Variant1);
}

#[test]
#[should_panic]
fn validate_enum_test_deserialize_upgrade_unknown_variant() {
    let config = ReadConfig {
        error_on_trailing_bytes: true,
    };

    // The document is stamped before the second variant was introduced,
    // yet its selector names that variant. This must fail.
    let mut vec = Vec::<u8>::new();
    vec.extend_from_slice(&(1u16.to_be_bytes())); // version major
    vec.extend_from_slice(&(0u16.to_be_bytes())); // version minor
    vec.extend_from_slice(&(0u16.to_be_bytes())); // version patch

    vec.extend_from_slice(&(1u16.to_be_bytes())); // second variant
    vec.extend_from_slice(&(7u32.to_be_bytes())); // name length
    vec.extend_from_slice(b"Trangar"); // name

    // This should fail
    binver::deserialize_slice_with_config::<Event>(&vec, config).unwrap();
}
