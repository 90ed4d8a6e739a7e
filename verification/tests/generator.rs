use owx_writer::generate::{big_ontology, fmt_u64, parse_size};
use owx_writer::model::Ontology;
use owx_writer::order::{bytes_le, sort_strings};

fn doc_string(ont: &Ontology) -> String {
    let mut buf: Vec<u8> = Vec::new();
    owx_writer::writer::write(&mut buf, ont, None).unwrap();
    String::from_utf8(buf).unwrap()
}

fn class_iris_in_order(doc: &str) -> Vec<String> {
    let mut iris: Vec<String> = Vec::new();
    let mut reader = quick_xml::Reader::from_str(doc);
    loop {
        match reader.read_event().unwrap() {
            quick_xml::events::Event::Empty(e) => {
                if e.name().as_ref() == "Class" {
                    let attr = e.try_get_attribute("IRI").unwrap().unwrap();
                    iris.push(attr.unescape_value().unwrap().into_owned());
                }
            }
            quick_xml::events::Event::Eof => break,
            _ => {}
        }
    }
    iris
}

#[test]
fn generator_size_five() {
    let ont = big_ontology(5);
    let doc = doc_string(&ont);
    assert_eq!(doc.matches("<Class ").count(), 5);
    assert_eq!(
        class_iris_in_order(&doc),
        vec![
            "https://www.example.com/o1",
            "https://www.example.com/o2",
            "https://www.example.com/o3",
            "https://www.example.com/o4",
            "https://www.example.com/o5",
        ]
    );
    assert!(!doc.contains("ontologyIRI"));
}

#[test]
fn generator_sort_is_lexicographic_not_numeric() {
    // with more than nine classes, o10 sorts before o2
    let ont = big_ontology(12);
    let doc = doc_string(&ont);
    assert_eq!(doc.matches("<Class ").count(), 12);
    assert_eq!(
        class_iris_in_order(&doc),
        vec![
            "https://www.example.com/o1",
            "https://www.example.com/o10",
            "https://www.example.com/o11",
            "https://www.example.com/o12",
            "https://www.example.com/o2",
            "https://www.example.com/o3",
            "https://www.example.com/o4",
            "https://www.example.com/o5",
            "https://www.example.com/o6",
            "https://www.example.com/o7",
            "https://www.example.com/o8",
            "https://www.example.com/o9",
        ]
    );
}

#[test]
fn generator_nonpositive_size_yields_no_classes() {
    let ont = big_ontology(0);
    assert_eq!(doc_string(&ont).matches("<Class ").count(), 0);
    let ont = big_ontology(-5);
    assert_eq!(doc_string(&ont).matches("<Class ").count(), 0);
}

#[test]
fn parse_size_rejects_non_integers() {
    assert_eq!(parse_size(&b"abc".to_vec()), None);
    assert_eq!(parse_size(&b"".to_vec()), None);
    assert_eq!(parse_size(&b"1a".to_vec()), None);
    assert_eq!(parse_size(&b"+".to_vec()), None);
    assert_eq!(parse_size(&b"-".to_vec()), None);
    assert_eq!(parse_size(&b" 5".to_vec()), None);
}

#[test]
fn parse_size_accepts_integers() {
    assert_eq!(parse_size(&b"5".to_vec()), Some(5));
    assert_eq!(parse_size(&b"+7".to_vec()), Some(7));
    assert_eq!(parse_size(&b"-3".to_vec()), Some(-3));
    assert_eq!(parse_size(&b"0".to_vec()), Some(0));
    assert_eq!(parse_size(&b"00012".to_vec()), Some(12));
    assert_eq!(parse_size(&b"1000000".to_vec()), Some(1000000));
}

#[test]
fn parse_size_handles_the_integer_boundaries() {
    assert_eq!(
        parse_size(&b"9223372036854775807".to_vec()),
        Some(i64::MAX)
    );
    assert_eq!(parse_size(&b"9223372036854775808".to_vec()), None);
    assert_eq!(
        parse_size(&b"-9223372036854775808".to_vec()),
        Some(i64::MIN)
    );
    assert_eq!(parse_size(&b"-9223372036854775809".to_vec()), None);
    assert_eq!(parse_size(&b"99999999999999999999999".to_vec()), None);
    assert_eq!(parse_size(&b"-000009223372036854775808".to_vec()), Some(i64::MIN));
}

#[test]
fn decimal_rendering() {
    assert_eq!(fmt_u64(0), b"0".to_vec());
    assert_eq!(fmt_u64(7), b"7".to_vec());
    assert_eq!(fmt_u64(10), b"10".to_vec());
    assert_eq!(fmt_u64(1234567890), b"1234567890".to_vec());
    assert_eq!(fmt_u64(u64::MAX), b"18446744073709551615".to_vec());
}

#[test]
fn byte_string_ordering() {
    assert!(bytes_le(&b"a".to_vec(), &b"b".to_vec()));
    assert!(!bytes_le(&b"b".to_vec(), &b"a".to_vec()));
    assert!(bytes_le(&b"a".to_vec(), &b"ab".to_vec()));
    assert!(!bytes_le(&b"ab".to_vec(), &b"a".to_vec()));
    assert!(bytes_le(&b"o10".to_vec(), &b"o2".to_vec()));
    assert!(bytes_le(&b"".to_vec(), &b"".to_vec()));
}

#[test]
fn sorting_byte_strings() {
    let sorted = sort_strings(vec![
        b"o2".to_vec(),
        b"o10".to_vec(),
        b"o1".to_vec(),
        b"o2".to_vec(),
    ]);
    assert_eq!(
        sorted,
        vec![b"o1".to_vec(), b"o10".to_vec(), b"o2".to_vec(), b"o2".to_vec()]
    );
}
