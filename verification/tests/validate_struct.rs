use binver::schema::Player;
use binver::Version;

#[test]
fn validate_struct_test_serialize_simple() {
    // Serialize under the version that knows both fields.
    let test = Player {
        id: 5,
        name: String::from("Trangar"),
    };
    let mut serialized = vec![0u8; 1024];
    let length = binver::write_to_slice(&mut serialized, Version::new(2, 0, 0), &test).unwrap();
    assert_eq!(
        vec![
            0, 0, 0, 5, // id
            0, 0, 0, 7, b'T', b'r', b'a', b'n', b'g', b'a', b'r', // name
        ],
        &serialized[..length][6..] // Ignore version bytes
    );
}

#[test]
fn validate_struct_test_simple_deserialize() {
    // Deserialize a document stamped with the version that knows both fields.
    let mut slice = [0u8; 21];
    slice[0..2].copy_from_slice(&(2u16.to_be_bytes())); // version major
    slice[2..4].copy_from_slice(&(0u16.to_be_bytes())); // version minor
    slice[4..6].copy_from_slice(&(0u16.to_be_bytes())); // version patch

    slice[6..10].copy_from_slice(&(1u32.to_be_bytes())); // id

    slice[10..14].copy_from_slice(&(7u32.to_be_bytes())); // name length
    slice[14..].copy_from_slice(b"Trangar"); // name

    let deserialized: Player = binver::deserialize_slice(&slice).unwrap();

    assert_eq!(deserialized.id, 1);
    assert_eq!(deserialized.name, "Trangar");
}

#[test]
fn validate_struct_test_deserialize_upgrade_version() {
    // Deserialize a document stamped before `name` was introduced.
    let mut slice = [0u8; 10];
    slice[0..2].copy_from_slice(&(1u16.to_be_bytes())); // version major
    slice[2..4].copy_from_slice(&(0u16.to_be_bytes())); // version minor
    slice[4..6].copy_from_slice(&(0u16.to_be_bytes())); // version patch

    slice[6..].copy_from_slice(&(1u32.to_be_bytes())); // id

    let deserialized: Player = binver::deserialize_slice(&slice).unwrap();

    assert_eq!(deserialized.id, 1);
    assert_eq!(deserialized.name, "");
}
