use oid_codec::{Error, ObjectIdentifier};

#[test]
fn parse_example_rsa() {
    let oid = ObjectIdentifier::new("1.2.840.113549.1.1.1").unwrap_or_else(|_| panic!());
    assert_eq!(oid.arc(0), Some(1));
    assert_eq!(oid.arc(1), Some(2));
    assert_eq!(oid.arc(2), Some(840));
    assert_eq!(oid.arc(3), Some(113549));
    assert_eq!(oid.arc(6), Some(1));
    assert_eq!(oid.arc(7), None);
    assert_eq!(oid.len(), 7);
    assert_eq!(
        oid.as_bytes(),
        &[0x2a, 0x86, 0x48, 0x86, 0xf7, 0x0d, 0x01, 0x01, 0x01]
    );
}

#[test]
fn parse_two_arcs_is_too_few() {
    assert!(matches!(ObjectIdentifier::new("2.999"), Err(Error::TooFewArcs)));
}

#[test]
fn parse_first_arc_out_of_range() {
    assert!(matches!(ObjectIdentifier::new("3.2.1"), Err(Error::ArcOutOfRange)));
}

#[test]
fn parse_second_arc_out_of_range() {
    assert!(matches!(ObjectIdentifier::new("1.40.1"), Err(Error::ArcOutOfRange)));
    // with a first arc of 2 the second arc is unrestricted
    let oid = ObjectIdentifier::new("2.999.1").unwrap_or_else(|_| panic!());
    assert_eq!(oid.render(), "2.999.1");
}

#[test]
fn parse_malformed_inputs() {
    assert!(matches!(ObjectIdentifier::new(""), Err(Error::MalformedInput)));
    assert!(matches!(ObjectIdentifier::new("1..2.3"), Err(Error::MalformedInput)));
    assert!(matches!(ObjectIdentifier::new(".1.2.3"), Err(Error::MalformedInput)));
    assert!(matches!(ObjectIdentifier::new("1.2.3."), Err(Error::MalformedInput)));
    assert!(matches!(ObjectIdentifier::new("1.2.x"), Err(Error::MalformedInput)));
}

#[test]
fn parse_arc_overflow() {
    // one more than the largest machine-width arc value
    assert!(matches!(
        ObjectIdentifier::new("1.2.4294967296"),
        Err(Error::ArcOverflow)
    ));
    // the largest value itself still parses
    let oid = ObjectIdentifier::new("1.2.4294967295").unwrap_or_else(|_| panic!());
    assert_eq!(oid.render(), "1.2.4294967295");
}

#[test]
fn render_drops_leading_zeros() {
    let oid = ObjectIdentifier::new("01.02.0840").unwrap_or_else(|_| panic!());
    assert_eq!(oid.render(), "1.2.840");
}

#[test]
fn render_parse_round_trip() {
    let s = "1.3.6.1.4.1.311.21.20";
    let oid = ObjectIdentifier::new(s).unwrap_or_else(|_| panic!());
    assert_eq!(oid.render(), s);
}

#[test]
fn arcs_encode_decode_round_trip() {
    let arcs: [u32; 5] = [1, 2, 840, 113549, 7];
    let oid = ObjectIdentifier::from_arcs(&arcs).unwrap_or_else(|_| panic!());
    assert_eq!(oid.len(), 5);
    for (i, a) in arcs.iter().enumerate() {
        assert_eq!(oid.arc(i), Some(*a));
    }
}

#[test]
fn bytes_round_trip() {
    let oid = ObjectIdentifier::new("1.2.840.113549.1.1.1").unwrap_or_else(|_| panic!());
    let again = ObjectIdentifier::from_bytes(oid.as_bytes()).unwrap_or_else(|_| panic!());
    assert_eq!(oid, again);
    assert_eq!(oid.as_bytes(), again.as_bytes());
    assert_eq!(again.render(), "1.2.840.113549.1.1.1");
}

#[test]
fn oid_equality_order_and_clone() {
    let a = ObjectIdentifier::new("1.2.3").unwrap();
    assert_eq!(a, a.clone());
    let c = ObjectIdentifier::new("1.2.4").unwrap();
    assert!(a < c);
    assert_ne!(a, c);
    // byte-lexicographic order: a strict byte prefix sorts first
    let d = ObjectIdentifier::new("1.2.3.4").unwrap();
    assert!(a < d && d < c);
}

#[test]
fn from_bytes_length_errors() {
    assert!(matches!(ObjectIdentifier::from_bytes(&[]), Err(Error::EmptyInput)));
    assert!(matches!(ObjectIdentifier::from_bytes(&[0x2a]), Err(Error::TooFewArcs)));
    // a two-byte encoding is rejected by the minimum-length rule even
    // though it spells the minimal OID 0.0.0
    assert!(matches!(
        ObjectIdentifier::from_bytes(&[0x00, 0x00]),
        Err(Error::TooFewArcs)
    ));
    assert!(matches!(
        ObjectIdentifier::from_bytes(&[0u8; 40]),
        Err(Error::CapacityExceeded)
    ));
}

#[test]
fn from_bytes_truncated_arc() {
    assert!(matches!(
        ObjectIdentifier::from_bytes(&[0x81, 0x80, 0x80]),
        Err(Error::TruncatedArc)
    ));
}

#[test]
fn from_bytes_arc_overflow() {
    // a six-byte base-128 arc cannot fit the machine width
    assert!(matches!(
        ObjectIdentifier::from_bytes(&[0x2a, 0x90, 0x80, 0x80, 0x80, 0x80, 0x00]),
        Err(Error::ArcOverflow)
    ));
}

#[test]
fn from_bytes_rejects_redundant_leading_byte() {
    // 0x80 0x01 spells arc 1 with a redundant leading continuation byte
    assert!(matches!(
        ObjectIdentifier::from_bytes(&[0x2a, 0x80, 0x01, 0x03]),
        Err(Error::MalformedInput)
    ));
}

#[test]
fn push_arc_renders_child() {
    let oid = ObjectIdentifier::from_arcs(&[1, 2, 3]).unwrap_or_else(|_| panic!());
    let child = oid.push_arc(4).unwrap_or_else(|_| panic!());
    assert_eq!(child.render(), "1.2.3.4");
}

#[test]
fn parent_of_minimal_oid_is_absent() {
    let oid = ObjectIdentifier::new("1.2.3").unwrap_or_else(|_| panic!());
    assert!(oid.parent().is_none());
}

#[test]
fn parent_drops_last_arc() {
    let oid = ObjectIdentifier::new("1.2.3.4").unwrap_or_else(|_| panic!());
    let parent = oid.parent().unwrap_or_else(|| panic!());
    assert_eq!(parent.render(), "1.2.3");
}

#[test]
fn two_arc_packing_examples() {
    let a = ObjectIdentifier::from_arcs(&[1, 39, 1]).unwrap_or_else(|_| panic!());
    assert_eq!(a.as_bytes()[0], 0x4f);
    let b = ObjectIdentifier::from_arcs(&[2, 5, 1]).unwrap_or_else(|_| panic!());
    assert_eq!(b.as_bytes()[0], 0x55);
}

#[test]
fn starts_with_arc_prefixes() {
    let p = ObjectIdentifier::new("1.2.840").unwrap_or_else(|_| panic!());
    let q = ObjectIdentifier::new("1.2.840.113549").unwrap_or_else(|_| panic!());
    assert!(q.starts_with(&p));
    assert!(!p.starts_with(&q));
    let r = ObjectIdentifier::new("1.2.841").unwrap_or_else(|_| panic!());
    assert!(!q.starts_with(&r));
    // a shared byte prefix that is not an arc boundary of q: 840 encodes
    // as two bytes, so "1.2.8" is not a byte prefix of "1.2.840"
    let s = ObjectIdentifier::new("1.2.8").unwrap_or_else(|_| panic!());
    assert!(!q.starts_with(&s));
}

#[test]
fn capacity_boundary() {
    // head byte plus 38 one-byte arcs: exactly 39 bytes
    let mut arcs: Vec<u32> = vec![1, 2];
    for _ in 0..38 {
        arcs.push(1);
    }
    let oid = ObjectIdentifier::from_arcs(&arcs).unwrap_or_else(|_| panic!());
    assert_eq!(oid.as_bytes().len(), 39);
    // one more byte no longer fits
    arcs.push(1);
    assert!(matches!(
        ObjectIdentifier::from_arcs(&arcs),
        Err(Error::CapacityExceeded)
    ));
}

#[test]
fn minimal_head_encodes_two_bytes() {
    let oid = ObjectIdentifier::from_arcs(&[0, 0, 0]).unwrap_or_else(|_| panic!());
    assert_eq!(oid.as_bytes(), &[0x00, 0x00]);
    assert_eq!(oid.render(), "0.0.0");
}

#[test]
fn from_arcs_range_errors() {
    assert!(matches!(
        ObjectIdentifier::from_arcs(&[3, 1, 1]),
        Err(Error::ArcOutOfRange)
    ));
    assert!(matches!(
        ObjectIdentifier::from_arcs(&[1, 40, 1]),
        Err(Error::ArcOutOfRange)
    ));
    assert!(matches!(
        ObjectIdentifier::from_arcs(&[2, u32::MAX - 79, 1]),
        Err(Error::ArcOverflow)
    ));
    assert!(matches!(
        ObjectIdentifier::from_arcs(&[1, 2]),
        Err(Error::TooFewArcs)
    ));
}

#[test]
fn new_unwrap_parses_known_good_constant() {
    let oid = ObjectIdentifier::new_unwrap("1.2.840.10040.4.3");
    assert_eq!(oid.render(), "1.2.840.10040.4.3");
}
