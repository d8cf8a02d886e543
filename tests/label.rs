use opslag::{Label, ParseError, Writer};

fn text(l: &Label<4>) -> String {
    let segs: Vec<String> = l.iter().into_iter().map(|s| String::from_utf8(s).unwrap()).collect();
    segs.join(".")
}

const EXAMPLE_WITH_POINTER: [u8; 15] = [
    0x07, 0x65, 0x78, 0x61, 0x6D, 0x70, 0x6C, 0x65, 0x03, 0x63, 0x6F, 0x6D, 0x00, // example.com
    0xC0, 0x00, // pointer to the start of the label
];

#[test]
fn static_label() {
    let _static: Label<4> = Label::new("example.local");
}

#[test]
fn serialize_str_label() {
    let label: Label<4> = Label::new("_service._udp.local");
    let mut w = Writer::<10>::new(256);
    label.serialize(&mut w);
    assert_eq!(w.into_inner(), b"\x08_service\x04_udp\x05local\x00");
}

#[test]
fn parse_and_serialize_label_with_context() {
    let data = EXAMPLE_WITH_POINTER;
    let (label, _) = Label::<4>::parse(&data, 13).unwrap();
    let mut w = Writer::<10>::new(256);
    label.serialize(&mut w);
    assert_eq!(w.into_inner(), b"\x07example\x03com\x00");
}

#[test]
fn parse_and_create_label() {
    let data = EXAMPLE_WITH_POINTER;
    let (parsed_label, _) = Label::<4>::parse(&data, 13).unwrap();
    let mut created_label = Label::<4>::new("example");
    created_label.push_back("com");
    assert_eq!(parsed_label, created_label);
}

#[test]
fn label_eq_str_parsed() {
    let data = EXAMPLE_WITH_POINTER;
    let (parsed_label, _) = Label::<4>::parse(&data, 13).unwrap();
    assert!(parsed_label.eq_str("example.com"));
}

#[test]
fn label_eq_str_created() {
    let mut created_label = Label::<4>::new("example");
    created_label.push_back("com");
    assert!(created_label.eq_str("example.com"));
}

#[test]
fn default_label_is_empty() {
    let label: Label<4> = Label::default();
    assert!(label.is_empty());
}

#[test]
fn label_new_without_dot_is_not_empty() {
    let label: Label<4> = Label::new("example");
    assert!(!label.is_empty());
}

#[test]
fn built_label_segments_are_the_dotted_pieces() {
    let label: Label<4> = Label::new("a..b.c");
    let segs: Vec<Vec<u8>> = label.iter();
    let expected: Vec<Vec<u8>> = "a..b.c".split('.').map(|s| s.as_bytes().to_vec()).collect();
    assert_eq!(segs, expected);
    assert_eq!(text(&label), "a..b.c");
}

#[test]
fn parse_reports_where_the_name_ends() {
    let data = EXAMPLE_WITH_POINTER;
    let (_, end) = Label::<4>::parse(&data, 0).unwrap();
    assert_eq!(end, 13);
    let (_, end) = Label::<4>::parse(&data, 13).unwrap();
    assert_eq!(end, 15);
}

#[test]
fn pointer_to_itself_is_rejected() {
    let data = [0xC0u8, 0x00];
    assert_eq!(Label::<4>::parse(&data, 0).unwrap_err(), ParseError::LengthValue);
}

#[test]
fn pointer_out_of_range_is_rejected() {
    let data = [0x01u8, b'a', 0xC0, 0x40];
    assert_eq!(Label::<4>::parse(&data, 0).unwrap_err(), ParseError::LengthValue);
}

#[test]
fn invalid_utf8_segment_is_rejected() {
    let data = [0x02u8, 0xff, 0xfe, 0x00];
    assert_eq!(Label::<4>::parse(&data, 0).unwrap_err(), ParseError::AlphaNumeric);
}

#[test]
fn truncated_name_is_incomplete() {
    let data = [0x05u8, b'a', b'b'];
    assert_eq!(Label::<4>::parse(&data, 0).unwrap_err(), ParseError::Incomplete);
}

#[test]
fn too_many_runs_is_too_large() {
    // "a" then a pointer to "b", which is a run of its own: two parts.
    let data = [0x01u8, b'b', 0x00, 0x01, b'a', 0xC0, 0x00];
    assert!(Label::<2>::parse(&data, 3).is_ok());
    assert_eq!(Label::<1>::parse(&data, 3).unwrap_err(), ParseError::TooLarge);
}

#[test]
fn pointer_chain_longer_than_four_is_rejected() {
    // Offsets 0, 2, 4, 6, 8 each point at the previous pair; offset 0 holds "a".
    let data = [
        0x01u8, b'a', 0x00, 0xC0, 0x00, 0xC0, 0x03, 0xC0, 0x05, 0xC0, 0x07, 0xC0, 0x09,
    ];
    assert!(Label::<8>::parse(&data, 9).is_ok());
    assert_eq!(Label::<8>::parse(&data, 11).unwrap_err(), ParseError::LengthValue);
}

#[test]
fn compression_reuses_an_earlier_suffix() {
    let a: Label<4> = Label::new("host.local");
    let b: Label<4> = Label::new("other.local");
    let mut w = Writer::<10>::new(256);
    a.serialize(&mut w);
    b.serialize(&mut w);
    assert_eq!(w.into_inner(), b"\x04host\x05local\x00\x05other\xc0\x05");
}

#[test]
fn overflow_is_sticky() {
    let a: Label<4> = Label::new("host.local");
    let mut w = Writer::<10>::new(4);
    a.serialize(&mut w);
    assert!(w.is_overflow());
    assert!(w.len() <= 4);
}
