use literstream::cli::{Replica, parse_i64, parse_replica, parse_timestamp_ms};

#[test]
fn replica_arguments_name_a_place() {
    match parse_replica("gs://bucket/some/prefix") {
        Some(Replica::Gcs { bucket, prefix }) => {
            assert_eq!(bucket, "bucket");
            assert_eq!(prefix, "some/prefix");
        }
        other => panic!("{other:?}"),
    }
    match parse_replica("gs://bucket") {
        Some(Replica::Gcs { bucket, prefix }) => {
            assert_eq!(bucket, "bucket");
            assert_eq!(prefix, "");
        }
        other => panic!("{other:?}"),
    }
    assert!(parse_replica("gs://").is_none());
    assert!(parse_replica("gs:///prefix").is_none());
    match parse_replica("s3://app/db") {
        Some(Replica::S3 { prefix }) => assert_eq!(prefix, "app/db"),
        other => panic!("{other:?}"),
    }
    match parse_replica("./replica") {
        Some(Replica::Dir { path }) => assert_eq!(path, "./replica"),
        other => panic!("{other:?}"),
    }
}

#[test]
fn bare_integers_are_epoch_milliseconds() {
    assert_eq!(parse_timestamp_ms("1752000000000"), Ok(1_752_000_000_000));
    assert_eq!(parse_timestamp_ms("-5"), Ok(-5));
    assert_eq!(parse_timestamp_ms("+7"), Ok(7));
    assert_eq!(parse_i64("-9223372036854775808"), Some(i64::MIN));
    assert_eq!(parse_i64("9223372036854775807"), Some(i64::MAX));
    assert_eq!(parse_i64("9223372036854775808"), None);
    assert_eq!(parse_i64("-"), None);
    assert_eq!(parse_i64(""), None);
    assert_eq!(parse_i64("12a"), None);
}

#[test]
fn datetimes_are_read_as_rfc_3339() {
    assert_eq!(parse_timestamp_ms("1970-01-01T00:00:01Z"), Ok(1000));
    assert_eq!(parse_timestamp_ms("2026-07-16T10:30:00Z"), Ok(1_784_197_800_000));
    assert_eq!(parse_timestamp_ms("1970-01-01T01:00:00.25+01:00"), Ok(250));
    assert!(parse_timestamp_ms("yesterday").is_err());
    assert!(parse_timestamp_ms("2026-07-16T10:30:00").is_err());
}
