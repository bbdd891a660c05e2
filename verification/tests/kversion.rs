use lace_util::kversion::{flavour_rank, KernelVersion};

#[test]
fn parse_standard_suffix() {
    let v = KernelVersion::parse("6.8.0-110-generic").unwrap();
    assert_eq!(v.major, 6);
    assert_eq!(v.minor, 8);
    assert_eq!(v.patch, 0);
    assert_eq!(v.rev, 110);
    assert_eq!(v.flavour, "generic");
}

#[test]
fn parse_hyphenated_flavour() {
    let v = KernelVersion::parse("6.8.0-110-generic-hwe").unwrap();
    assert_eq!(v.flavour, "generic-hwe");
}

#[test]
fn reject_non_numeric() {
    assert!(KernelVersion::parse("abc").is_none());
    assert!(KernelVersion::parse("6.8-110-generic").is_none());
}

#[test]
fn newer_rev_greater() {
    let a = KernelVersion::parse("6.8.0-110-generic").unwrap();
    let b = KernelVersion::parse("6.8.0-107-generic").unwrap();
    assert!(a > b);
}

#[test]
fn higher_major_beats_rev() {
    let a = KernelVersion::parse("6.10.0-1-generic").unwrap();
    let b = KernelVersion::parse("6.8.0-999-generic").unwrap();
    assert!(a > b);
}

#[test]
fn flavour_order_generic_beats_lowlatency() {
    let a = KernelVersion::parse("6.8.0-110-generic").unwrap();
    let b = KernelVersion::parse("6.8.0-110-lowlatency").unwrap();
    assert!(a > b);
}

#[test]
fn known_flavour_beats_unknown() {
    let a = KernelVersion::parse("6.8.0-110-generic").unwrap();
    let b = KernelVersion::parse("6.8.0-110-zzz").unwrap();
    assert!(a > b);
}

#[test]
fn kversion_raw_kept_and_order_antisymmetric() {
    let a = KernelVersion::parse("6.8.0-110-generic").unwrap();
    let b = KernelVersion::parse("6.8.0-110-generic").unwrap();
    assert_eq!(a.raw, "6.8.0-110-generic");
    assert!(a.partial_cmp(&b) == Some(std::cmp::Ordering::Equal));
    let c = KernelVersion::parse("6.8.0-111-generic").unwrap();
    assert!(a < c && c > a);
    assert_eq!(flavour_rank("generic"), Some(0));
    assert_eq!(flavour_rank("lowlatency-hwe"), Some(3));
    assert_eq!(flavour_rank("other"), None);
    assert!(KernelVersion::parse("+6.8.0-1").is_some());
    assert!(KernelVersion::parse("6.8.0").is_none());
}
