use binver::schema::Sample;
use binver::ReadConfig;
use binver::Version;

#[test]
fn validate_unnamed_enum_test_serialize_simple() {
    let mut serialized = vec![0u8; 1024];

    // Serialize under the version that knows every variant and field.
    let length =
        binver::write_to_slice(&mut serialized, Version::new(4, 0, 0), &Sample::Variant1).unwrap();

    assert_eq!(
        &[0, 0],                    // first variant
        &serialized[..length][6..]  // ignore the version bytes
    );
    let length = binver::write_to_slice(
        &mut serialized,
        Version::new(4, 0, 0),
        &Sample::Variant2("Trangar", true),
    )
    .unwrap();
    assert_eq!(
        vec![
            0, 1, // second variant
            0, 0, 0, 7, b'T', b'r', b'a', b'n', b'g', b'a', b'r', // text
            1, // flag
        ],
        &serialized[..length][6..] // ignore the version bytes
    );
    let config = ReadConfig {
        error_on_trailing_bytes: true,
    };

    let deserialized: Sample =
        binver::deserialize_slice_with_config(&serialized[..length], config).unwrap();
    assert_eq!(deserialized, Sample::Variant2("Trangar", true));
}

#[test]
fn validate_unnamed_enum_test_simple_deserialize() {
    let config = ReadConfig {
        error_on_trailing_bytes: true,
    };

    // first variant, under the version that knows both variants
    let mut vec = Vec::<u8>::new();
    vec.extend_from_slice(&(2u16.to_be_bytes())); // version major
    vec.extend_from_slice(&(0u16.to_be_bytes())); // version minor
    vec.extend_from_slice(&(0u16.to_be_bytes())); // version patch

    vec.extend_from_slice(&(0u16.to_be_bytes())); // first variant

    let deserialized: Sample = binver::deserialize_slice_with_config(&vec, config.clone()).unwrap();
    assert_eq!(deserialized, Sample::Variant1);

    // second variant
    // note that its fields arrived in later versions, so both stay default
    let mut vec = Vec::<u8>::new();
    vec.extend_from_slice(&(2u16.to_be_bytes())); // version major
    vec.extend_from_slice(&(0u16.to_be_bytes())); // version minor
    vec.extend_from_slice(&(0u16.to_be_bytes())); // version patch

    vec.extend_from_slice(&(1u16.to_be_bytes())); // second variant

    let deserialized: Sample = binver::deserialize_slice_with_config(&vec, config.clone()).unwrap();
    assert_eq!(deserialized, Sample::Variant2("", false));

    // second variant, one version later
    // now the text field carries a value
    let mut vec = Vec::<u8>::new();
    vec.extend_from_slice(&(3u16.to_be_bytes())); // version major
    vec.extend_from_slice(&(0u16.to_be_bytes())); // version minor
    vec.extend_from_slice(&(0u16.to_be_bytes())); // version patch

    vec.extend_from_slice(&(1u16.to_be_bytes())); // second variant
    vec.extend_from_slice(&(7u32.to_be_bytes())); // text length
    vec.extend_from_slice(b"Trangar"); // text

    let deserialized: Sample = binver::deserialize_slice_with_config(&vec, config.clone()).unwrap();
    assert_eq!(deserialized, Sample::Variant2("Trangar", false));

    // second variant, one version later still
    // now the flag carries a value too
    let mut vec = Vec::<u8>::new();
    vec.extend_from_slice(&(4u16.to_be_bytes())); // version major
    vec.extend_from_slice(&(0u16.to_be_bytes())); // version minor
    vec.extend_from_slice(&(0u16.to_be_bytes())); // version patch

    vec.extend_from_slice(&(1u16.to_be_bytes())); // second variant
    vec.extend_from_slice(&(7u32.to_be_bytes())); // text length
    vec.extend_from_slice(b"Trangar"); // text
    vec.push(0x01); // flag value

    let deserialized: Sample = binver::deserialize_slice_with_config(&vec, config.clone()).unwrap();
    assert_eq!(deserialized, Sample::Variant2("Trangar", true));
}

#[test]
fn validate_unnamed_enum_test_deserialize_upgrade_version() {
    let config = ReadConfig {
        error_on_trailing_bytes: true,
    };
    // Deserialize a document stamped before the second variant existed.
    let mut vec = Vec::<u8>::new();
    vec.extend_from_slice(&(1u16.to_be_bytes())); // version major
    vec.extend_from_slice(&(0u16.to_be_bytes())); // version minor
    vec.extend_from_slice(&(0u16.to_be_bytes())); // version patch

    vec.extend_from_slice(&(0u16.to_be_bytes())); // first variant

    let deserialized: Sample = binver::deserialize_slice_with_config(&vec, config.clone()).unwrap();

    assert_eq!(deserialized, Sample::Variant1);
}

#[test]
#[should_panic]
fn validate_unnamed_enum_test_deserialize_upgrade_unknown_variant() {
    let config = ReadConfig {
        error_on_trailing_bytes: true,
    };

    // The document is stamped before the second variant was introduced,
    // yet its selector names that variant. This must fail.
    let mut vec = Vec::<u8>::new();
    vec.extend_from_slice(&(1u16.to_be_bytes())); // version major
    vec.extend_from_slice(&(0u16.to_be_bytes())); // version minor
    vec.extend_from_slice(&(0u16.to_be_bytes())); // version patch

    vec.extend_from_slice(&(1u16.to_be_bytes())); // second variant
    vec.extend_from_slice(&(7u32.to_be_bytes())); // text length
    vec.extend_from_slice(b"Trangar"); // text

    // This should fail
    binver::deserialize_slice_with_config::<Sample>(&vec, config).unwrap();
}
