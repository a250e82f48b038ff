use cres::number::Real;
use cres::stripper_xml::reader::{
    attribute_kind, create_error, eventrecord_from_attributes, parse_u64, read_token, scan_token, take_until,
    to_string, trim_ascii_start, Attribute, AttributeKind, Eventrecord, ReaderSettings, Scaling, Scan, Step,
    TokenKind, XMLError, XMLTag,
};

fn num(x: f64) -> Real {
    Real::from_bits(x.to_bits()).unwrap()
}

fn value(x: Real) -> f64 {
    f64::from_bits(x.to_bits())
}

fn attr(key: &str, value: &[u8]) -> Attribute {
    Attribute { key: key.as_bytes().to_vec(), value: value.to_vec() }
}

#[test]
fn numbers_are_decimal() {
    assert_eq!(parse_u64(b"0").unwrap(), 0);
    assert_eq!(parse_u64(b"42").unwrap(), 42);
    assert_eq!(parse_u64(b"+42").unwrap(), 42);
    assert_eq!(parse_u64(b"007").unwrap(), 7);
    assert_eq!(parse_u64(b"18446744073709551615").unwrap(), u64::MAX);
}

#[test]
fn bad_numbers_are_refused() {
    for bad in [&b""[..], b"+", b"-1", b" 1", b"1 ", b"1_000", b"0x10", b"1.0", b"18446744073709551616", b"++1"] {
        assert!(matches!(parse_u64(bad), Err(XMLError::ParseInt(_))), "{bad:?}");
    }
    assert!(matches!(parse_u64(&[0x31, 0xff]), Err(XMLError::Utf8(_))));
    assert!(matches!(parse_u64("١٢".as_bytes()), Err(XMLError::ParseInt(_))));
}

#[test]
fn attribute_values_are_utf8() {
    assert_eq!(to_string(b"ttbar").unwrap(), "ttbar");
    assert_eq!(to_string("Grüße".as_bytes()).unwrap(), "Grüße");
    assert_eq!(to_string(b"").unwrap(), "");
    assert!(matches!(to_string(&[0x66, 0xc3]), Err(XMLError::Utf8(_))));
    assert!(matches!(to_string(&[0xed, 0xa0, 0x80]), Err(XMLError::Utf8(_))));
}

#[test]
fn reader_creation_error_names_file_and_cause() {
    assert_eq!(
        create_error("File(\"in.xml\")", "no tag"),
        "Failed to create STRIPPER XML reader for File(\"in.xml\"): no tag"
    );
    assert_eq!(create_error("", ""), "Failed to create STRIPPER XML reader for : ");
}

#[test]
fn attributes_are_told_apart_by_name() {
    assert_eq!(attribute_kind(b"name"), AttributeKind::Name);
    assert_eq!(attribute_kind(b"nevents"), AttributeKind::NEvents);
    assert_eq!(attribute_kind(b"nsubevents"), AttributeKind::NSubevents);
    assert_eq!(attribute_kind(b"as"), AttributeKind::AlphaSPower);
    assert_eq!(attribute_kind(b"Name"), AttributeKind::Other);
    assert_eq!(attribute_kind(b"nevent"), AttributeKind::Other);
    assert_eq!(attribute_kind(b""), AttributeKind::Other);
}

fn record(attrs: &[Attribute]) -> Result<Eventrecord, XMLError> {
    let attrs: Vec<Attribute> = attrs.iter().map(|a| Attribute { key: a.key.clone(), value: a.value.clone() }).collect();
    eventrecord_from_attributes(&attrs)
}

#[test]
fn event_record_is_read_from_its_attributes() {
    let r = record(&[
        attr("nevents", b"100"),
        attr("version", b"1.0"),
        attr("as", b"2"),
        attr("name", b"R"),
        attr("nsubevents", b"250"),
        attr("name", b"RV"),
    ])
    .unwrap();
    assert_eq!(r.name, "RV");
    assert_eq!(r.nevents, 100);
    assert_eq!(r.nsubevents, 250);
    assert_eq!(r.alpha_s_power, 2);
}

#[test]
fn missing_attributes_are_reported_in_order() {
    let all = [attr("name", b"R"), attr("nsubevents", b"1"), attr("nevents", b"2"), attr("as", b"3")];
    for (skip, expected) in [(0..4, "name"), (1..4, "nsubevents"), (2..4, "nevents"), (3..4, "as")] {
        let present: Vec<Attribute> =
            all[..skip.start].iter().map(|a| Attribute { key: a.key.clone(), value: a.value.clone() }).collect();
        match eventrecord_from_attributes(&present) {
            Err(XMLError::NoEventrecordAttr(which)) => assert_eq!(which, expected),
            other => panic!("{other:?}"),
        }
    }
}

#[test]
fn first_unreadable_attribute_is_the_error() {
    assert!(matches!(record(&[attr("nevents", b"x"), attr("name", &[0xff])]), Err(XMLError::ParseInt(_))));
    assert!(matches!(record(&[attr("name", &[0xff]), attr("nevents", b"x")]), Err(XMLError::Utf8(_))));
    assert!(matches!(record(&[attr("as", &[0xff])]), Err(XMLError::Utf8(_))));
    // a later value does not mend an earlier one
    assert!(matches!(record(&[attr("nevents", b"x"), attr("nevents", b"1")]), Err(XMLError::ParseInt(_))));
    // other attributes are not looked at
    assert!(matches!(record(&[attr("comment", &[0xff])]), Err(XMLError::NoEventrecordAttr("name"))));
}

#[test]
fn first_tag_is_looked_for() {
    assert!(matches!(scan_token(TokenKind::Decl, b""), Scan::Skip));
    assert!(matches!(scan_token(TokenKind::Text, b"\n"), Scan::Skip));
    assert!(matches!(scan_token(TokenKind::Start, b"Normalization"), Scan::Normalization));
    assert!(matches!(scan_token(TokenKind::Start, b"Eventrecord"), Scan::Eventrecord));
    match scan_token(TokenKind::Start, b"se") {
        Scan::Fail(XMLError::BadTag(tag)) => assert_eq!(tag, "se"),
        other => panic!("{other:?}"),
    }
    assert!(matches!(scan_token(TokenKind::Start, &[0xff]), Scan::Fail(XMLError::Utf8(_))));
    for kind in [
        TokenKind::End,
        TokenKind::Empty,
        TokenKind::Comment,
        TokenKind::CData,
        TokenKind::PI,
        TokenKind::DocType,
        TokenKind::Eof,
        TokenKind::Malformed,
    ] {
        assert!(matches!(scan_token(kind, b"Eventrecord"), Scan::Fail(XMLError::NoTag)));
    }
}

#[test]
fn subevents_are_looked_for() {
    assert!(matches!(read_token(TokenKind::Start, b"e"), Step::Continue));
    assert!(matches!(read_token(TokenKind::Start, b"se"), Step::Subevent));
    assert!(matches!(read_token(TokenKind::End, b"e"), Step::Continue));
    assert!(matches!(read_token(TokenKind::End, b"se"), Step::Continue));
    assert!(matches!(read_token(TokenKind::End, b"Eventrecord"), Step::Continue));
    assert!(matches!(read_token(TokenKind::Comment, b"anything"), Step::Continue));
    assert!(matches!(read_token(TokenKind::DocType, b"anything"), Step::Continue));
    assert!(matches!(read_token(TokenKind::Text, b" \t\r\n\x0c"), Step::Continue));
    assert!(matches!(read_token(TokenKind::Text, b""), Step::Continue));
    assert!(matches!(read_token(TokenKind::Eof, b""), Step::Finished));
    assert!(matches!(read_token(TokenKind::Text, b"  x "), Step::BadEntry));
    assert!(matches!(read_token(TokenKind::Text, b"\x0b"), Step::BadEntry));
    for kind in [TokenKind::Empty, TokenKind::CData, TokenKind::Decl, TokenKind::PI, TokenKind::Malformed] {
        assert!(matches!(read_token(kind, b"e"), Step::BadEntry));
    }
    match read_token(TokenKind::Start, b"Eventrecord") {
        Step::BadTag(tag) => assert_eq!(tag, "Eventrecord"),
        other => panic!("{other:?}"),
    }
    match read_token(TokenKind::End, b"p") {
        Step::BadTag(tag) => assert_eq!(tag, "p"),
        other => panic!("{other:?}"),
    }
    assert!(matches!(read_token(TokenKind::Start, &[0xc0]), Step::BadName(_)));
    assert!(matches!(read_token(TokenKind::End, &[0xc0]), Step::BadName(_)));
}

#[test]
fn blanks_at_the_start_are_cut() {
    assert_eq!(trim_ascii_start(b"  \t\n\r\x0cab c "), b"ab c ");
    assert_eq!(trim_ascii_start(b"abc"), b"abc");
    assert_eq!(trim_ascii_start(b"   "), b"");
    assert_eq!(trim_ascii_start(b""), b"");
    assert_eq!(trim_ascii_start(b"\x0b a"), b"\x0b a");
}

#[test]
fn bytes_are_taken_up_to_the_end_tag() {
    let mut buf = b"<se>".to_vec();
    assert_eq!(take_until(b" w=\"1\"</se><se>", &mut buf, b"</se>"), (6, true));
    assert_eq!(buf, b"<se> w=\"1\"");
    let mut buf = b"<se>".to_vec();
    assert_eq!(take_until(b"abc</s", &mut buf, b"</se>"), (6, false));
    assert_eq!(buf, b"<se>abc</s");
    let mut buf = Vec::new();
    assert_eq!(take_until(b"</se></se>", &mut buf, b"</se>"), (0, true));
    assert_eq!(buf, b"");
    assert_eq!(take_until(b"", &mut buf, b"</se>"), (0, false));
    assert_eq!(take_until(b"xyz", &mut buf, b""), (0, true));
}

#[test]
fn scale_is_cross_section_by_number_of_events() {
    let mut scaling = Scaling::new();
    assert!(scaling.add_events("RV".to_string(), 100));
    scaling.add_normalization("RV".to_string(), num(5.));
    assert!(scaling.add_events("RV".to_string(), 150));
    scaling.add_normalization("B".to_string(), num(3.));
    scaling.add_normalization("B".to_string(), num(4.));
    assert!(scaling.add_events("RR".to_string(), 8));
    scaling.add_normalization("empty".to_string(), num(0.));
    assert_eq!(scaling.factor("RV").map(value), Some(0.02));
    // no event file of this contribution was found
    assert_eq!(scaling.factor("B").map(value), Some(f64::INFINITY));
    // no normalisation of this contribution was found
    assert_eq!(scaling.factor("RR").map(value), Some(-0.125));
    assert_eq!(scaling.factor("empty").map(value), None);
    assert_eq!(scaling.factor("rv").map(value), None);
}

#[test]
fn number_of_events_does_not_overflow() {
    let mut scaling = Scaling::new();
    assert!(scaling.add_events("R".to_string(), u64::MAX - 1));
    assert!(!scaling.add_events("R".to_string(), 2));
    assert!(scaling.add_events("R".to_string(), 1));
    assert!(!scaling.add_events("R".to_string(), 1));
    scaling.add_normalization("R".to_string(), num(1.));
    assert_eq!(scaling.factor("R").map(value), Some(1. / u64::MAX as f64));
}

fn tag() -> XMLTag {
    XMLTag::Eventrecord(Eventrecord { alpha_s_power: 3, name: "RV".to_string(), nevents: 10, nsubevents: 2 })
}

#[test]
fn reader_settings_come_from_the_event_record() {
    let mut scaling = Scaling::new();
    scaling.add_normalization("RV".to_string(), num(5.));
    scaling.add_events("RV".to_string(), 10);
    let mut settings = ReaderSettings::with_scaling(tag(), &scaling).unwrap();
    assert_eq!(settings.name, "RV");
    assert_eq!(settings.alpha_s_power, 3);
    assert_eq!(value(settings.scale), 0.5);
    assert_eq!(settings.rem_subevents, 2);
    settings.count_subevent();
    assert_eq!(settings.rem_subevents, 1);
    settings.count_subevent();
    settings.count_subevent();
    assert_eq!(settings.rem_subevents, 0);
    let settings = ReaderSettings::with_scaling(tag(), &Scaling::new()).unwrap();
    assert_eq!(value(settings.scale), 1.);
    let settings = ReaderSettings::new_scaled(tag(), num(0.25)).unwrap();
    assert_eq!(value(settings.scale), 0.25);
    assert_eq!(settings.rem_subevents, 2);
}

#[test]
fn reader_needs_an_event_record() {
    let norm = || XMLTag::Normalization { name: "RV".to_string(), scale: num(1.) };
    match ReaderSettings::new_scaled(norm(), num(1.)) {
        Err(XMLError::BadTag(tag)) => assert_eq!(tag, "Normalization"),
        other => panic!("{other:?}"),
    }
    match ReaderSettings::with_scaling(norm(), &Scaling::new()) {
        Err(XMLError::BadTag(tag)) => assert_eq!(tag, "Normalization"),
        other => panic!("{other:?}"),
    }
}

#[test]
fn weights_are_scaled_by_the_factor_of_the_contribution() {
    let mut scaling = Scaling::new();
    scaling.add_normalization("RV".to_string(), num(5.));
    scaling.add_events("RV".to_string(), 10);
    let settings = ReaderSettings::with_scaling(tag(), &scaling).unwrap();
    assert_eq!(settings.scaled(num(3.)).map(value), Some(1.5));
    assert_eq!(settings.scaled(num(-0.25)).map(value), Some(-0.125));
    assert_eq!(settings.scaled(num(f64::INFINITY)).map(value), Some(f64::INFINITY));

    let mut scaling = Scaling::new();
    scaling.add_normalization("RV".to_string(), num(5.));
    let settings = ReaderSettings::with_scaling(tag(), &scaling).unwrap();
    assert_eq!(value(settings.scale), f64::INFINITY);
    assert_eq!(settings.scaled(num(0.)).map(value), None);
    assert_eq!(settings.scaled(num(-2.)).map(value), Some(f64::NEG_INFINITY));

    let settings = ReaderSettings::new_scaled(tag(), num(0.)).unwrap();
    assert_eq!(settings.scaled(num(f64::NEG_INFINITY)).map(value), None);
    assert_eq!(settings.scaled(num(7.)).map(value), Some(0.));
}
