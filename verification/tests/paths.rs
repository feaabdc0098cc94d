use event_path::FieldBuf;
use event_path::Lookup;
use event_path::ParseErrorKind;
use event_path::Segment;

fn field_at(l: &Lookup, i: usize) -> String {
    l.get(i).as_field().unwrap().to_string()
}

#[test]
fn parses_plain_fields_and_index() {
    let l = Lookup::parse("foo.bar[0]").unwrap();
    assert_eq!(l.len(), 3);
    assert_eq!(field_at(&l, 0), "foo");
    assert!(!l.get(0).is_quoted());
    assert_eq!(field_at(&l, 1), "bar");
    assert_eq!(l.get(2).as_index(), Some(0));
}

#[test]
fn parses_quoted_field_and_reprints_it() {
    let l = Lookup::parse("\"foo.bar\".baz").unwrap();
    assert_eq!(l.len(), 2);
    assert_eq!(field_at(&l, 0), "foo.bar");
    assert!(l.get(0).is_quoted());
    assert_eq!(field_at(&l, 1), "baz");
    assert_eq!(l.to_canonical_string(), "\"foo.bar\".baz");
}

#[test]
fn parses_negative_index() {
    let l = Lookup::parse("foo[-1]").unwrap();
    assert_eq!(l.len(), 2);
    assert_eq!(field_at(&l, 0), "foo");
    assert_eq!(l.get(1).as_index(), Some(-1));
}

#[test]
fn empty_input_is_the_root_path() {
    let l = Lookup::parse("").unwrap();
    assert!(l.is_root());
    assert_eq!(l.len(), 0);
    assert_eq!(l.to_canonical_string(), "");
}

#[test]
fn double_separator_is_an_empty_segment() {
    let e = Lookup::parse("foo..bar").unwrap_err();
    assert_eq!(e.kind, ParseErrorKind::EmptySegment);
    assert_eq!(e.offset, 4);
}

#[test]
fn trailing_separator_is_an_empty_segment() {
    let e = Lookup::parse("foo.").unwrap_err();
    assert_eq!(e.kind, ParseErrorKind::EmptySegment);
    assert_eq!(e.offset, 4);
}

#[test]
fn separator_before_bracket_is_an_empty_segment() {
    let e = Lookup::parse("foo.[0]").unwrap_err();
    assert_eq!(e.kind, ParseErrorKind::EmptySegment);
    assert_eq!(e.offset, 4);
}

#[test]
fn leading_separator_is_an_empty_segment() {
    let e = Lookup::parse(".foo").unwrap_err();
    assert_eq!(e.kind, ParseErrorKind::EmptySegment);
    assert_eq!(e.offset, 0);
}

#[test]
fn leading_index_is_an_empty_segment() {
    let e = Lookup::parse("[0]").unwrap_err();
    assert_eq!(e.kind, ParseErrorKind::EmptySegment);
    assert_eq!(e.offset, 0);
}

#[test]
fn letters_in_brackets_are_an_invalid_index() {
    let e = Lookup::parse("foo[abc]").unwrap_err();
    assert_eq!(e.kind, ParseErrorKind::InvalidIndex);
    assert_eq!(e.offset, 4);
}

#[test]
fn empty_brackets_are_an_invalid_index() {
    let e = Lookup::parse("foo[]").unwrap_err();
    assert_eq!(e.kind, ParseErrorKind::InvalidIndex);
}

#[test]
fn doubled_sign_is_an_invalid_index() {
    let e = Lookup::parse("foo[--1]").unwrap_err();
    assert_eq!(e.kind, ParseErrorKind::InvalidIndex);
}

#[test]
fn unterminated_bracket_is_reported() {
    let e = Lookup::parse("foo[").unwrap_err();
    assert_eq!(e.kind, ParseErrorKind::UnterminatedBracket);
    assert_eq!(e.offset, 3);
}

#[test]
fn unterminated_bracket_after_digits_is_reported() {
    let e = Lookup::parse("foo[12").unwrap_err();
    assert_eq!(e.kind, ParseErrorKind::UnterminatedBracket);
    assert_eq!(e.offset, 3);
}

#[test]
fn unterminated_quote_is_reported() {
    let e = Lookup::parse("\"foo").unwrap_err();
    assert_eq!(e.kind, ParseErrorKind::UnterminatedQuote);
    assert_eq!(e.offset, 0);
}

#[test]
fn digit_cannot_open_a_bare_field() {
    let e = Lookup::parse("1foo").unwrap_err();
    assert_eq!(e.kind, ParseErrorKind::UnexpectedCharacter);
    assert_eq!(e.offset, 0);
}

#[test]
fn unknown_escape_is_an_unexpected_character() {
    let e = Lookup::parse("\"a\\nb\"").unwrap_err();
    assert_eq!(e.kind, ParseErrorKind::UnexpectedCharacter);
    assert_eq!(e.offset, 3);
}

#[test]
fn stray_character_after_a_segment_is_trailing_input() {
    let e = Lookup::parse("foo]x").unwrap_err();
    assert_eq!(e.kind, ParseErrorKind::TrailingInput);
    assert_eq!(e.offset, 3);

    let e = Lookup::parse("\"a\"x").unwrap_err();
    assert_eq!(e.kind, ParseErrorKind::TrailingInput);
    assert_eq!(e.offset, 3);
}

#[test]
fn escapes_are_unescaped_and_reprinted() {
    let l = Lookup::parse("\"a\\\"b\\\\c\"").unwrap();
    assert_eq!(l.len(), 1);
    assert_eq!(field_at(&l, 0), "a\"b\\c");
    assert_eq!(l.to_canonical_string(), "\"a\\\"b\\\\c\"");
    let canonical = l.to_canonical_string();
    let l2 = Lookup::parse(&canonical).unwrap();
    assert_eq!(l, l2);
}

#[test]
fn quoted_empty_field_is_legal() {
    let l = Lookup::parse("\"\"").unwrap();
    assert_eq!(l.len(), 1);
    assert_eq!(field_at(&l, 0), "");
    assert!(l.get(0).is_quoted());
    assert_eq!(l.to_canonical_string(), "\"\"");
}

#[test]
fn canonical_text_round_trips() {
    let inputs = ["foo.bar[0]", "a[-3].b.\"x.y\"[12]", "\"\"", "x", "foo[-1]"];
    for s in inputs {
        let l = Lookup::parse(s).unwrap();
        let c = l.to_canonical_string();
        let l2 = Lookup::parse(&c).unwrap();
        assert_eq!(l, l2);
        assert_eq!(l2.to_canonical_string(), c);
    }
}

#[test]
fn pushed_fields_are_quoted_exactly_when_needed() {
    let mut l = Lookup::root();
    l.push_field("foo".to_string());
    l.push_field("foo.bar".to_string());
    l.push_field("0day".to_string());
    l.push_index(2);
    assert_eq!(l.to_canonical_string(), "foo.\"foo.bar\".\"0day\"[2]");
    let canonical = l.to_canonical_string();
    let back = Lookup::parse(&canonical).unwrap();
    assert_eq!(l, back);
}

#[test]
fn pop_removes_the_trailing_segment() {
    let mut l = Lookup::parse("foo.bar[0]").unwrap();
    let s = l.pop().unwrap();
    assert_eq!(s.as_index(), Some(0));
    assert_eq!(l.to_canonical_string(), "foo.bar");
    l.pop();
    l.pop();
    assert!(l.is_root());
    assert!(l.pop().is_none());
    assert!(l.is_root());
}

#[test]
fn merge_concatenates_and_keeps_its_prefix() {
    let a = Lookup::parse("foo.bar").unwrap();
    let b = Lookup::parse("baz[0]").unwrap();
    let m = a.merge(&b);
    assert_eq!(m.to_canonical_string(), "foo.bar.baz[0]");
    assert!(m.starts_with(&a));
    assert!(!a.starts_with(&m));
    assert!(m.starts_with(&Lookup::root()));
}

#[test]
fn borrowed_and_owned_paths_are_indistinguishable() {
    let parsed = Lookup::parse("foo.\"x.y\"[7]").unwrap();
    let mut built = Lookup::root();
    built.push_field("foo".to_string());
    built.push_field("x.y".to_string());
    built.push_index(7);
    assert_eq!(parsed, built);
    assert_eq!(parsed.path_hash(), built.path_hash());
    assert_eq!(parsed.to_canonical_string(), built.to_canonical_string());
}

#[test]
fn unequal_paths_hash_and_compare_unequal() {
    let a = Lookup::parse("foo.bar").unwrap();
    let b = Lookup::parse("foo[0]").unwrap();
    assert!(a != b);
    assert!(a.path_hash() != b.path_hash());
}

#[test]
fn detach_outlives_the_parsed_text() {
    let detached = {
        let text = String::from("foo.bar[0]");
        let l = Lookup::parse(&text).unwrap();
        l.detach()
    };
    assert_eq!(detached.to_canonical_string(), "foo.bar[0]");
    assert_eq!(detached, Lookup::parse("foo.bar[0]").unwrap());
}

#[test]
fn index_extremes_parse_and_overflow_is_rejected() {
    let l = Lookup::parse("a[9223372036854775807]").unwrap();
    assert_eq!(l.get(1).as_index(), Some(i64::MAX));
    let l = Lookup::parse("a[-9223372036854775808]").unwrap();
    assert_eq!(l.get(1).as_index(), Some(i64::MIN));
    assert_eq!(l.to_canonical_string(), "a[-9223372036854775808]");
    let e = Lookup::parse("a[9223372036854775808]").unwrap_err();
    assert_eq!(e.kind, ParseErrorKind::InvalidIndex);
    let e = Lookup::parse("a[-9223372036854775809]").unwrap_err();
    assert_eq!(e.kind, ParseErrorKind::InvalidIndex);
}

#[test]
fn negative_zero_normalizes_to_zero() {
    let l = Lookup::parse("a[-0]").unwrap();
    assert_eq!(l.get(1).as_index(), Some(0));
    assert_eq!(l.to_canonical_string(), "a[0]");
}

#[test]
fn clone_preserves_the_path() {
    let l = Lookup::parse("foo.\"a b\"[1]").unwrap();
    let c = l.clone();
    assert_eq!(l, c);
    assert_eq!(l.path_hash(), c.path_hash());
}

#[test]
fn whitespace_needs_quotes() {
    let e = Lookup::parse("foo bar").unwrap_err();
    assert_eq!(e.kind, ParseErrorKind::TrailingInput);
    let l = Lookup::parse("\"foo bar\"").unwrap();
    assert_eq!(field_at(&l, 0), "foo bar");
    assert_eq!(l.to_canonical_string(), "\"foo bar\"");
}

#[test]
fn hyphen_and_underscore_are_bare_characters() {
    let l = Lookup::parse("a-b_c.d").unwrap();
    assert_eq!(l.len(), 2);
    assert_eq!(field_at(&l, 0), "a-b_c");
    assert!(!l.get(0).is_quoted());
    assert_eq!(l.to_canonical_string(), "a-b_c.d");
}

#[test]
fn quoted_names_may_hold_any_characters() {
    let l = Lookup::parse("\"h\u{e9}llo w\u{f6}rld\".x[1]").unwrap();
    assert_eq!(field_at(&l, 0), "h\u{e9}llo w\u{f6}rld");
    let canonical = l.to_canonical_string();
    assert_eq!(canonical, "\"h\u{e9}llo w\u{f6}rld\".x[1]");
    assert_eq!(Lookup::parse(&canonical).unwrap(), l);
}

#[test]
fn empty_pushed_field_is_quoted() {
    let mut l = Lookup::root();
    l.push_field(String::new());
    assert_eq!(l.to_canonical_string(), "\"\"");
    let back = Lookup::parse("\"\"").unwrap();
    assert_eq!(l, back);
}

#[test]
fn paths_can_be_built_from_segments() {
    let text = String::from("host");
    let segments = vec![
        Segment::Field { name: FieldBuf::Borrowed(&text), requires_quoting: false },
        Segment::Index { index: 4 },
    ];
    let l = Lookup::from_segments(segments);
    assert_eq!(l.to_canonical_string(), "host[4]");
    let mut owned = Lookup::root();
    owned.push_field("host".to_string());
    owned.push_index(4);
    assert_eq!(l, owned);
    assert_eq!(l.path_hash(), owned.path_hash());
}

#[test]
fn segments_are_visible_in_order() {
    let l = Lookup::parse("a.b[2]").unwrap();
    let segs = l.segments();
    assert_eq!(segs.len(), 3);
    assert_eq!(segs[0].as_field(), Some("a"));
    assert_eq!(segs[1].as_field(), Some("b"));
    assert_eq!(segs[2].as_index(), Some(2));
}

#[test]
fn paths_order_lexicographically() {
    let a = Lookup::parse("a").unwrap();
    let ab = Lookup::parse("a.b").unwrap();
    let b = Lookup::parse("b").unwrap();
    let a0 = Lookup::parse("a[0]").unwrap();
    let a1 = Lookup::parse("a[1]").unwrap();
    assert!(a < ab, "a proper prefix orders first");
    assert!(a < b);
    assert!(ab < a0, "a field orders before an index");
    assert!(a0 < a1);
    assert_eq!(a.partial_cmp(&a), Some(std::cmp::Ordering::Equal));
    assert_eq!(a.compare(&ab), std::cmp::Ordering::Less);
}

#[test]
fn ordering_ignores_representation() {
    let parsed = Lookup::parse("x.y").unwrap();
    let mut built = Lookup::root();
    built.push_field("x".to_string());
    built.push_field("y".to_string());
    assert_eq!(parsed.compare(&built), std::cmp::Ordering::Equal);
}
