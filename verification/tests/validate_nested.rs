#[test]
fn validate_version() {}
