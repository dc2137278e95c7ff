use parquet_writer::{Version, WriteError, WriteOptions};

#[test]
fn version_one_is_number_one() {
    assert_eq!(i32::from(Version::V1), 1);
}

#[test]
fn version_two_is_number_two() {
    assert_eq!(i32::from(Version::V2), 2);
}

#[test]
fn version_converts_through_into() {
    let number: i32 = Version::V2.into();
    assert_eq!(number, 2);
}

#[test]
fn options_are_plain_values() {
    let options = WriteOptions { write_statistics: true, version: Version::V2 };
    let copy = options;
    assert_eq!(options, copy);
    assert_eq!(copy.clone(), options);
    assert!(copy.write_statistics);
    assert_eq!(copy.version, Version::V2);
    assert_ne!(options, WriteOptions { write_statistics: false, version: Version::V2 });
    assert_ne!(options, WriteOptions { write_statistics: true, version: Version::V1 });
    assert_eq!(format!("{:?}", Version::V1), "V1");
}

#[test]
fn the_three_failures_differ() {
    assert_ne!(WriteError::OutOfOrder, WriteError::Io);
    assert_ne!(WriteError::Io, WriteError::Encoding);
    assert_ne!(WriteError::Encoding, WriteError::OutOfOrder);
}
