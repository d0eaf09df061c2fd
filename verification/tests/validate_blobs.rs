use binver::schema::Blob;
use binver::schema::Payload;
use binver::ReadConfig;
use binver::Version;

#[test]
fn test_slice_serialize_deserialize() {
    let config = ReadConfig {
        error_on_trailing_bytes: true,
    };

    let test = Blob {
        slice: b"Hello there",
    };

    let mut slice = vec![0u8; 1024];
    let length = binver::write_to_slice(&mut slice, Version::new(1, 0, 0), &test).unwrap();

    assert_eq!(slice[6..10], (test.slice.len() as u32).to_be_bytes());
    assert_eq!(&slice[..length][10..], test.slice);

    let result: Blob = binver::deserialize_slice_with_config(&slice[..length], config).unwrap();
    assert_eq!(result.slice, b"Hello there");
}

#[test]
fn test_vec_serialize_deserialize() {
    let config = ReadConfig {
        error_on_trailing_bytes: true,
    };
    let test = Payload {
        blob: vec![1, 2, 3, 4, 5, 6],
        string_list: vec![String::from("Hello"), String::from("there")],
    };

    let serialized = binver::to_vec(Version::new(1, 0, 0), &test);

    let deserialized: Payload = binver::deserialize_slice_with_config(&serialized, config).unwrap();

    assert_eq!(test, deserialized);
}
