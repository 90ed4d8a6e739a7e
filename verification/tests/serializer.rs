use owx_writer::model::{Class, Ontology};
use owx_writer::writer::SerializationError;

fn doc_bytes(ont: &Ontology) -> Vec<u8> {
    let mut buf: Vec<u8> = Vec::new();
    owx_writer::writer::write(&mut buf, ont, None).unwrap();
    buf
}

fn doc_string(ont: &Ontology) -> String {
    String::from_utf8(doc_bytes(ont)).unwrap()
}

fn ontology_with_classes(iris: &[&str]) -> Ontology {
    let mut ont = Ontology::new();
    for iri in iris {
        let h = ont.iri(iri.as_bytes().to_vec());
        ont.declare(Class(h));
    }
    ont
}

#[test]
fn test_ont_rt() {
    // serialize, then re-read through the external XML reader and compare
    // the resolved primary identifier
    let mut ont = Ontology::new();
    let iri = ont.iri("http://www.example.com/a".as_bytes().to_vec());
    ont.id.iri = Some(iri);
    let doc = doc_string(&ont);

    let mut reader = quick_xml::Reader::from_str(&doc);
    let mut primary: Option<String> = None;
    loop {
        match reader.read_event().unwrap() {
            quick_xml::events::Event::Start(e) => {
                if e.name().as_ref() == "Ontology" {
                    let attr = e.try_get_attribute("ontologyIRI").unwrap().unwrap();
                    primary = Some(attr.unescape_value().unwrap().into_owned());
                }
            }
            quick_xml::events::Event::Eof => break,
            _ => {}
        }
    }

    let mut ont2 = Ontology::new();
    let iri2 = ont2.iri(primary.unwrap().into_bytes());
    ont2.id.iri = Some(iri2);
    assert_eq!(
        ont.iri_to_str(ont.id.iri.unwrap()).unwrap(),
        ont2.iri_to_str(ont2.id.iri.unwrap()).unwrap()
    );
}

#[test]
fn scenario_primary_identifier_no_classes() {
    let mut ont = Ontology::new();
    let iri = ont.iri("http://www.example.com/a".as_bytes().to_vec());
    ont.id.iri = Some(iri);
    assert_eq!(
        doc_string(&ont),
        "<?xml version=\"1.0\"?>\n<Ontology xmlns=\"http://www.w3.org/2002/07/owl#\" ontologyIRI=\"http://www.example.com/a\"></Ontology>"
    );
}

#[test]
fn scenario_classes_sorted_regardless_of_declaration_order() {
    let ont = ontology_with_classes(&[
        "https://example.com/o3",
        "https://example.com/o1",
        "https://example.com/o2",
    ]);
    assert_eq!(
        doc_string(&ont),
        "<?xml version=\"1.0\"?>\n<Ontology xmlns=\"http://www.w3.org/2002/07/owl#\">\n    <Declaration>\n        <Class IRI=\"https://example.com/o1\"/>\n    </Declaration>\n    <Declaration>\n        <Class IRI=\"https://example.com/o2\"/>\n    </Declaration>\n    <Declaration>\n        <Class IRI=\"https://example.com/o3\"/>\n    </Declaration>\n</Ontology>"
    );
}

#[test]
fn determinism_under_declaration_order() {
    let a = ontology_with_classes(&[
        "https://example.com/x",
        "https://example.com/y",
        "https://example.com/z",
    ]);
    let b = ontology_with_classes(&[
        "https://example.com/z",
        "https://example.com/x",
        "https://example.com/y",
    ]);
    assert_eq!(doc_bytes(&a), doc_bytes(&b));
}

#[test]
fn idempotence_two_fresh_sinks() {
    let mut ont = ontology_with_classes(&["https://example.com/c"]);
    let iri = ont.iri("http://www.example.com/root".as_bytes().to_vec());
    ont.id.iri = Some(iri);
    assert_eq!(doc_bytes(&ont), doc_bytes(&ont));
}

#[test]
fn attribute_omission_when_no_primary_identifier() {
    let ont = ontology_with_classes(&["https://example.com/one"]);
    let doc = doc_string(&ont);
    assert!(!doc.contains("ontologyIRI"));
    assert!(!doc.contains("versionIRI"));
    assert!(doc.starts_with("<?xml version=\"1.0\"?>\n<Ontology xmlns=\"http://www.w3.org/2002/07/owl#\">"));
}

#[test]
fn version_identifier_attribute_present_when_set() {
    let mut ont = Ontology::new();
    let p = ont.iri("http://www.example.com/a".as_bytes().to_vec());
    let v = ont.iri("http://www.example.com/a/1.0".as_bytes().to_vec());
    ont.id.iri = Some(p);
    ont.id.viri = Some(v);
    assert_eq!(
        doc_string(&ont),
        "<?xml version=\"1.0\"?>\n<Ontology xmlns=\"http://www.w3.org/2002/07/owl#\" ontologyIRI=\"http://www.example.com/a\" versionIRI=\"http://www.example.com/a/1.0\"></Ontology>"
    );
}

#[test]
fn count_of_declaration_class_pairs() {
    let ont = ontology_with_classes(&[
        "https://example.com/a",
        "https://example.com/b",
        "https://example.com/c",
        "https://example.com/d",
    ]);
    let doc = doc_string(&ont);
    assert_eq!(doc.matches("<Declaration>").count(), 4);
    assert_eq!(doc.matches("</Declaration>").count(), 4);
    assert_eq!(doc.matches("<Class ").count(), 4);
}

#[test]
fn duplicate_declarations_collapse() {
    let mut ont = Ontology::new();
    let h1 = ont.iri("https://example.com/dup".as_bytes().to_vec());
    let h2 = ont.iri("https://example.com/dup".as_bytes().to_vec());
    assert_eq!(h1, h2);
    ont.declare(Class(h1));
    ont.declare(Class(h2));
    let doc = doc_string(&ont);
    assert_eq!(doc.matches("<Declaration>").count(), 1);
}

#[test]
fn reserved_characters_are_escaped_and_recovered() {
    let ont = ontology_with_classes(&["https://example.com/a&b\"c<d>e'f"]);
    let doc = doc_string(&ont);
    assert!(doc.contains("IRI=\"https://example.com/a&amp;b&quot;c&lt;d&gt;e&apos;f\""));

    let mut reader = quick_xml::Reader::from_str(&doc);
    let mut recovered: Option<String> = None;
    loop {
        match reader.read_event().unwrap() {
            quick_xml::events::Event::Empty(e) => {
                if e.name().as_ref() == "Class" {
                    let attr = e.try_get_attribute("IRI").unwrap().unwrap();
                    recovered = Some(attr.unescape_value().unwrap().into_owned());
                }
            }
            quick_xml::events::Event::Eof => break,
            _ => {}
        }
    }
    assert_eq!(recovered.unwrap(), "https://example.com/a&b\"c<d>e'f");
}

#[test]
fn foreign_handle_is_an_unresolved_identifier() {
    let mut donor = Ontology::new();
    donor.iri("https://example.com/filler".as_bytes().to_vec());
    let foreign = donor.iri("https://example.com/foreign".as_bytes().to_vec());

    let mut ont = Ontology::new();
    ont.id.iri = Some(foreign);
    let mut buf: Vec<u8> = Vec::new();
    let r = owx_writer::writer::write(&mut buf, &ont, None);
    assert_eq!(r, Err(SerializationError::UnresolvedIdentifier));
    assert!(buf.is_empty());

    let mut ont2 = Ontology::new();
    ont2.declare(Class(foreign));
    let mut buf2: Vec<u8> = Vec::new();
    let r2 = owx_writer::writer::write(&mut buf2, &ont2, None);
    assert_eq!(r2, Err(SerializationError::UnresolvedIdentifier));
    assert!(buf2.is_empty());
}

#[test]
fn prefix_mapping_has_no_observable_effect() {
    let mut ont = Ontology::new();
    let iri = ont.iri("http://www.example.com/a".as_bytes().to_vec());
    ont.id.iri = Some(iri);
    let mut with_mapping: Vec<u8> = Vec::new();
    let mapping = curie::PrefixMapping::default();
    owx_writer::writer::write(&mut with_mapping, &ont, Some(&mapping)).unwrap();
    assert_eq!(with_mapping, doc_bytes(&ont));
}

#[test]
fn write_appends_after_existing_bytes() {
    let mut ont = Ontology::new();
    let iri = ont.iri("http://www.example.com/a".as_bytes().to_vec());
    ont.id.iri = Some(iri);
    let mut buf: Vec<u8> = b"prelude:".to_vec();
    owx_writer::writer::write(&mut buf, &ont, None).unwrap();
    assert!(buf.starts_with(b"prelude:<?xml"));
}
