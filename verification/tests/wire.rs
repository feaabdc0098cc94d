use event_path::Lookup;
use event_path::ParseErrorKind;
use event_path::codec::from_wire;
use event_path::codec::to_wire;

#[test]
fn wire_form_is_the_canonical_string() {
    let l = Lookup::parse("foo.\"x.y\"[3]").unwrap();
    assert_eq!(to_wire(&l), "foo.\"x.y\"[3]");
}

#[test]
fn wire_round_trip_through_json() {
    let l = Lookup::parse("foo.\"x.y\"[3]").unwrap();
    let wire = to_wire(&l);
    let json = serde_json::to_string(&wire).unwrap();
    let decoded: String = serde_json::from_str(&json).unwrap();
    let back = from_wire(&decoded).unwrap();
    assert_eq!(back, l);
    assert_eq!(to_wire(&back), wire);
}

#[test]
fn wire_round_trip_of_a_built_path() {
    let mut l = Lookup::root();
    l.push_field("message".to_string());
    l.push_field("tags.host".to_string());
    l.push_index(-2);
    let wire = to_wire(&l);
    assert_eq!(wire, "message.\"tags.host\"[-2]");
    let back = from_wire(&wire).unwrap();
    assert_eq!(back, l);
}

#[test]
fn malformed_wire_text_fails_with_the_parse_taxonomy() {
    let e = from_wire("foo[").unwrap_err();
    assert_eq!(e.kind, ParseErrorKind::UnterminatedBracket);
    assert_eq!(e.offset, 3);
    let e = from_wire("foo..bar").unwrap_err();
    assert_eq!(e.kind, ParseErrorKind::EmptySegment);
}
