use dnsparse::codes::{QueryClass, QueryKind};
use dnsparse::name::{ParseError, QuestionName};
use dnsparse::question::{parse_questions, Questions};
use dnsparse::scan::{read_label, read_query_class_and_kind, read_question};
use dnsparse::name::{is_pointer, mask_len};

fn name_www_example_com() -> Vec<u8> {
    vec![
        3, b'w', b'w', b'w', 7, b'e', b'x', b'a', b'm', b'p', b'l', b'e', 3, b'c', b'o', b'm', 0,
    ]
}

#[test]
fn render_simple_chain() {
    let buf = name_www_example_com();
    let name = QuestionName::new(&buf, 0);
    assert_eq!(name.render().unwrap(), b"www.example.com".to_vec());
}

#[test]
fn render_root_name_is_empty() {
    let buf = vec![0u8];
    let name = QuestionName::new(&buf, 0);
    assert_eq!(name.render().unwrap(), Vec::<u8>::new());
}

#[test]
fn render_follows_pointer() {
    // "example.com" stands at offset 0; at offset 13 the labels "www" plus a
    // pointer back to 0 encode the same name as the inlined form.
    let mut buf = vec![7, b'e', b'x', b'a', b'm', b'p', b'l', b'e', 3, b'c', b'o', b'm', 0];
    assert_eq!(buf.len(), 13);
    buf.extend_from_slice(&[3, b'w', b'w', b'w', 0xC0, 0x00]);
    let via_pointer = QuestionName::new(&buf, 13);
    let inlined_buf = name_www_example_com();
    let inlined = QuestionName::new(&inlined_buf, 0);
    assert_eq!(via_pointer.render().unwrap(), inlined.render().unwrap());
    assert_eq!(via_pointer.render().unwrap(), b"www.example.com".to_vec());
}

#[test]
fn render_rejects_pointer_cycle() {
    let buf = vec![0xC0u8, 0x00];
    let name = QuestionName::new(&buf, 0);
    assert_eq!(name.render(), Err(ParseError::Malformed));
}

#[test]
fn render_rejects_truncated_pointer() {
    let buf = vec![0xC0u8];
    let name = QuestionName::new(&buf, 0);
    assert_eq!(name.render(), Err(ParseError::Truncated));
}

#[test]
fn render_rejects_truncated_label() {
    let buf = vec![5u8, b'a', b'b'];
    let name = QuestionName::new(&buf, 0);
    assert_eq!(name.render(), Err(ParseError::Truncated));
}

#[test]
fn render_rejects_missing_terminator() {
    let buf = vec![3u8, b'w', b'w', b'w'];
    let name = QuestionName::new(&buf, 0);
    assert_eq!(name.render(), Err(ParseError::Truncated));
}

#[test]
fn eq_is_case_insensitive() {
    let buf = vec![7, b'E', b'x', b'a', b'm', b'p', b'l', b'e', 3, b'C', b'O', b'M', 0];
    let name = QuestionName::new(&buf, 0);
    assert!(name.eq_str("example.com"));
    assert!(name.eq_str("EXAMPLE.COM"));
    assert!(name.eq_str("Example.COM"));
    assert!(!name.eq_str("example.co"));
    assert!(!name.eq_str("example.com."));
    assert!(!name.eq_str("exampleXcom"));
    assert!(!name.eq_str(""));
    assert!(name.eq_bytes(b"eXaMpLe.cOm"));
    assert!(!name.eq_bytes(b"example.comm"));
    assert!(!name.eq_bytes(b".example.com"));
}

#[test]
fn eq_empty_name_matches_empty_string() {
    let buf = vec![0u8];
    let name = QuestionName::new(&buf, 0);
    assert!(name.eq_str(""));
    assert!(!name.eq_str("a"));
    assert!(!name.eq_str("."));
}

#[test]
fn eq_follows_pointer() {
    let mut buf = vec![7, b'e', b'x', b'a', b'm', b'p', b'l', b'e', 3, b'c', b'o', b'm', 0];
    buf.extend_from_slice(&[3, b'W', b'W', b'W', 0xC0, 0x00]);
    let name = QuestionName::new(&buf, 13);
    assert!(name.eq_str("www.Example.Com"));
    assert!(!name.eq_str("example.com"));
}

#[test]
fn eq_malformed_name_matches_nothing() {
    let buf = vec![0xC0u8, 0x00];
    let name = QuestionName::new(&buf, 0);
    assert!(!name.eq_str(""));
    assert!(!name.eq_str("anything"));
}

/// A message holding a decoy name at offset 0 and three question records
/// back-to-back from offset 5: a plain name, a pointer name, a root name.
fn three_question_message() -> Vec<u8> {
    let mut buf = Vec::new();
    buf.extend_from_slice(&[3, b'z', b'z', b'z', 0]); // 0..5: name "zzz"
    buf.extend_from_slice(&[3, b'f', b'o', b'o', 0, 0, 1, 0, 1]); // 5..14: "foo", A, IN
    buf.extend_from_slice(&[0xC0, 0x00, 0, 255, 0, 4]); // 14..20: "zzz" via pointer, ANY, HS
    buf.extend_from_slice(&[0, 0, 2, 0, 3]); // 20..25: root name, NS, CH
    assert_eq!(buf.len(), 25);
    buf
}

#[test]
fn three_records_tile_the_region() {
    let buf = three_question_message();
    let views = parse_questions(&buf, 5, 3).unwrap();
    assert_eq!(views.len(), 3);
    let mut concatenated = Vec::new();
    for view in &views {
        concatenated.extend_from_slice(view.as_bytes());
    }
    assert_eq!(concatenated, buf[5..25].to_vec());
    assert_eq!(views[0].as_bytes(), &buf[5..14]);
    assert_eq!(views[1].as_bytes(), &buf[14..20]);
    assert_eq!(views[2].as_bytes(), &buf[20..25]);
}

#[test]
fn sequence_yields_each_record_then_stops() {
    let buf = three_question_message();
    let mut questions = Questions::new(&buf, 5, 3);
    let first = questions.next().unwrap().unwrap();
    assert_eq!(first.name().render().unwrap(), b"foo".to_vec());
    assert_eq!(first.kind(), QueryKind::A);
    assert_eq!(first.class(), QueryClass::IN);
    let second = questions.next().unwrap().unwrap();
    assert_eq!(second.name().render().unwrap(), b"zzz".to_vec());
    assert_eq!(second.kind(), QueryKind::ANY);
    assert_eq!(second.class(), QueryClass::HS);
    assert!(second.name().eq_str("ZZZ"));
    let third = questions.next().unwrap().unwrap();
    assert_eq!(third.name().render().unwrap(), Vec::<u8>::new());
    assert_eq!(third.kind(), QueryKind::NS);
    assert_eq!(third.class(), QueryClass::CH);
    assert!(questions.next().is_none());
    assert!(questions.next().is_none());
}

#[test]
fn sequence_with_count_zero_is_exhausted() {
    let buf = three_question_message();
    let mut questions = Questions::new(&buf, 5, 0);
    assert!(questions.next().is_none());
}

#[test]
fn sequence_surfaces_truncation_and_stays_exhausted() {
    let buf = three_question_message();
    let cut = &buf[..12]; // splits the first record's type/class tail
    let mut questions = Questions::new(cut, 5, 3);
    match questions.next() {
        Some(Err(ParseError::Truncated)) => {}
        other => panic!("expected a truncation error, got {:?}", other),
    }
    assert!(questions.next().is_none());
}

#[test]
fn parse_questions_reports_truncation() {
    let buf = three_question_message();
    assert_eq!(parse_questions(&buf[..12], 5, 1).unwrap_err(), ParseError::Truncated);
    assert_eq!(parse_questions(&buf[..19], 5, 2).unwrap_err(), ParseError::Truncated);
    // The first record alone still fits in a shorter buffer.
    assert!(parse_questions(&buf[..14], 5, 1).is_ok());
}

#[test]
fn truncation_at_every_boundary_is_safe() {
    let buf = three_question_message();
    for cut in 0..=buf.len() {
        let slice = &buf[..cut];
        for count in 1..=4usize {
            match parse_questions(slice, 5, count) {
                Ok(views) => assert_eq!(views.len(), count),
                Err(error) => assert_eq!(error, ParseError::Truncated),
            }
            let mut questions = Questions::new(slice, 5, count);
            let mut yielded = 0usize;
            loop {
                match questions.next() {
                    None => break,
                    Some(Ok(_)) => yielded += 1,
                    Some(Err(_)) => (),
                }
                assert!(yielded <= count);
            }
        }
    }
}

#[test]
fn type_and_class_bytes_decode_to_known_codes() {
    let buf = vec![0u8, 0x00, 0x01, 0x00, 0x01];
    let views = parse_questions(&buf, 0, 1).unwrap();
    assert_eq!(views[0].kind(), QueryKind::A);
    assert_eq!(views[0].class(), QueryClass::IN);
}

#[test]
fn unrecognized_codes_fall_back() {
    let buf = vec![0u8, 0x12, 0x34, 0xAB, 0xCD];
    let views = parse_questions(&buf, 0, 1).unwrap();
    assert_eq!(views[0].kind(), QueryKind::Other(0x1234));
    assert_eq!(views[0].class(), QueryClass::Other(0xABCD));
}

#[test]
fn code_mappings_round_trip() {
    for value in [0u16, 1, 2, 3, 4, 5, 6, 12, 15, 16, 28, 33, 255, 0x1234, u16::MAX] {
        assert_eq!(QueryKind::from_u16(value).to_u16(), value);
        assert_eq!(QueryClass::from_u16(value).to_u16(), value);
    }
    assert_eq!(QueryKind::from_u16(28), QueryKind::AAAA);
    assert_eq!(QueryClass::from_u16(4), QueryClass::HS);
}

#[test]
fn read_label_classifies_descriptors() {
    let buf = [3u8, b'a', b'b', b'c', 0];
    let mut i = 0usize;
    assert_eq!(read_label(&buf, &mut i), Some(false));
    assert_eq!(i, 4);
    assert_eq!(read_label(&buf, &mut i), Some(true));
    assert_eq!(i, 5);
    assert_eq!(read_label(&buf, &mut i), None);
    assert_eq!(i, 5);

    let pointer = [0xC0u8, 0x05];
    let mut j = 0usize;
    assert_eq!(read_label(&pointer, &mut j), Some(true));
    assert_eq!(j, 2);

    let short_pointer = [0xC0u8];
    let mut k = 0usize;
    assert_eq!(read_label(&short_pointer, &mut k), None);
    assert_eq!(k, 0);

    let short_label = [5u8, b'a'];
    let mut l = 0usize;
    assert_eq!(read_label(&short_label, &mut l), None);
    assert_eq!(l, 0);
}

#[test]
fn read_question_lands_after_the_tail() {
    let buf = three_question_message();
    let mut i = 5usize;
    assert!(read_question(&buf, &mut i));
    assert_eq!(i, 14);
    assert!(read_question(&buf, &mut i));
    assert_eq!(i, 20);
    assert!(read_question(&buf, &mut i));
    assert_eq!(i, 25);
    assert!(!read_question(&buf, &mut i));
}

#[test]
fn read_tail_needs_four_bytes() {
    let buf = [0u8, 1, 2, 3, 4, 5];
    let mut i = 2usize;
    assert!(read_query_class_and_kind(&buf, &mut i));
    assert_eq!(i, 6);
    assert!(!read_query_class_and_kind(&buf, &mut i));
    assert_eq!(i, 6);
}

#[test]
fn descriptor_classification() {
    assert!(is_pointer(0xC0));
    assert!(is_pointer(0xFF));
    assert!(!is_pointer(0x3F));
    assert!(!is_pointer(0x80));
    assert!(!is_pointer(0x40));
    assert_eq!(mask_len(0xC5), 5);
    assert_eq!(mask_len(0x3F), 63);
    assert_eq!(mask_len(0x00), 0);
}
