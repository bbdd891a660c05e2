use lace_util::units::{days_to_ymd, Size, Timestamp};

#[test]
fn test_timestamp_epoch() {
    assert_eq!(Timestamp(0).to_string(), "1970-01-01   0:00:00 UTC");
}

#[test]
fn test_timestamp_known_value() {
    // 1234567890 = 2009-02-13 23:31:30 UTC (a famous Unix timestamp)
    assert_eq!(Timestamp(1234567890).to_string(), "2009-02-13  23:31:30 UTC");
}

#[test]
fn test_timestamp_y2k() {
    assert_eq!(Timestamp(946684800).to_string(), "2000-01-01   0:00:00 UTC");
}

#[test]
fn test_timestamp_leap_year() {
    assert_eq!(Timestamp(1582977600).to_string(), "2020-02-29  12:00:00 UTC");
}

#[test]
fn test_timestamp_end_of_year() {
    assert_eq!(Timestamp(1704067199).to_string(), "2023-12-31  23:59:59 UTC");
}

#[test]
fn test_size_small() {
    assert_eq!(Size(327).to_string(), "327 Bytes = 327 Bytes");
}

#[test]
fn test_size_exactly_one_kib() {
    assert_eq!(Size(1024).to_string(), "1024 Bytes = 1 KiB");
}

#[test]
fn test_size_kib() {
    assert_eq!(Size(3891).to_string(), "3891 Bytes = 3.8 KiB");
}

#[test]
fn test_size_one_mib() {
    assert_eq!(Size(1 << 20).to_string(), "1048576 Bytes = 1 MiB");
}

#[test]
fn test_size_mib_with_frac() {
    assert_eq!(Size((1 << 20) + (512 << 10)).to_string(), "1572864 Bytes = 1.5 MiB");
}

#[test]
fn test_size_zero() {
    assert_eq!(Size(0).to_string(), "0 Bytes = 0 Bytes");
}

#[test]
fn test_size_gib() {
    assert_eq!(Size((2 << 30) + (512 << 20)).to_string(), "2684354560 Bytes = 2.5 GiB");
}

#[test]
fn days_to_ymd_before_epoch() {
    assert_eq!(days_to_ymd(0), (1970, 1, 1));
    assert_eq!(days_to_ymd(-1), (1969, 12, 31));
    assert_eq!(days_to_ymd(11016), (2000, 2, 29));
}

#[test]
fn timestamp_before_epoch() {
    assert_eq!(Timestamp(-1).to_string(), "1969-12-31  23:59:59 UTC");
}

#[test]
fn size_tib_and_pib() {
    assert_eq!(Size(1 << 40).to_string(), "1099511627776 Bytes = 1 TiB");
    assert_eq!(Size(1 << 50).to_string(), "1125899906842624 Bytes = 1 PiB");
}
