//! The serializer: resolves the ontology's identity and declared classes,
//! imposes the canonical ascending lexicographic emission order, and drives
//! the structured markup writer to produce one deterministic OWL/XML
//! document. Every emitted byte is pinned down by `spec_document`.

use vstd::prelude::*;
use crate::literals::{
    append_bytes, class_tag, clone_bytes, declaration_tag, iri_key, ontology_iri_key,
    ontology_tag, owl_namespace, spec_class_tag, spec_decl_post, spec_decl_pre,
    spec_declaration_tag, spec_iri_key, spec_ontology_iri_key, spec_ontology_tag,
    spec_owl_namespace, spec_version_iri_key, spec_xml_version, spec_xmlns_key, version_iri_key,
    xml_version, xmlns_key,
};
use crate::model::{Class, Ontology, IRI};
use crate::order::{deep, lemma_lex_total_ordering, lex_leq, sort_strings};
use crate::xml::{break_indent, spec_attr, StartTag, XmlWriter};

verus! {

/// The prefix-shortening table of the `curie` crate. It is accepted for
/// forward compatibility and is intentionally unused: in the current scope a
/// prefix mapping has no observable effect on the output.
#[verifier::external_type_specification]
#[verifier::external_body]
pub struct ExPrefixMapping(curie::PrefixMapping);

/// Why a serialization attempt was aborted.
#[derive(Clone, Copy, PartialEq, Eq, Structural, Debug)]
pub enum SerializationError {
    /// An identifier handle held by the ontology was not produced by its own
    /// registry: an invariant violation, reported loudly rather than papered
    /// over with malformed output.
    UnresolvedIdentifier,
}

/// ` key="..."` when the value is present; nothing at all when it is absent.
pub open spec fn spec_attr_maybe(key: Seq<u8>, v: Option<Seq<u8>>) -> Seq<u8> {
    match v {
        Some(s) => spec_attr(key, s),
        None => Seq::<u8>::empty(),
    }
}

/// The document up to, but not including, the `>` that closes the root start
/// tag: the XML declaration, then the root `Ontology` element with the OWL
/// namespace bound as default and the two optional identity attributes.
pub open spec fn spec_root_open(p: Option<Seq<u8>>, v: Option<Seq<u8>>) -> Seq<u8> {
    spec_decl_pre() + spec_xml_version() + spec_decl_post() + break_indent(0) + seq!['<' as u8]
        + spec_ontology_tag() + spec_attr(spec_xmlns_key(), spec_owl_namespace())
        + spec_attr_maybe(spec_ontology_iri_key(), p) + spec_attr_maybe(spec_version_iri_key(), v)
}

/// One `Declaration` element wrapping one `Class` element that carries the
/// IRI, indented one and two levels deep.
pub open spec fn spec_class_block(s: Seq<u8>) -> Seq<u8> {
    break_indent(1) + seq!['<' as u8] + spec_declaration_tag() + seq!['>' as u8] + break_indent(2)
        + seq!['<' as u8] + spec_class_tag() + spec_attr(spec_iri_key(), s) + seq![
        '/' as u8,
        '>' as u8,
    ] + break_indent(1) + seq!['<' as u8, '/' as u8] + spec_declaration_tag() + seq!['>' as u8]
}

/// The class section: one block per entry, in the order given.
pub open spec fn spec_class_blocks(l: Seq<Seq<u8>>) -> Seq<u8>
    decreases l.len(),
{
    if l.len() == 0 {
        Seq::<u8>::empty()
    } else {
        spec_class_block(l[0]) + spec_class_blocks(l.drop_first())
    }
}

pub proof fn lemma_class_blocks_snoc(l: Seq<Seq<u8>>, x: Seq<u8>)
    ensures
        spec_class_blocks(l.push(x)) == spec_class_blocks(l) + spec_class_block(x),
    decreases l.len(),
{
    if l.len() == 0 {
        assert(l.push(x).drop_first() =~= Seq::<Seq<u8>>::empty());
        assert(l.push(x)[0] == x);
        assert(spec_class_block(x) + spec_class_blocks(Seq::<Seq<u8>>::empty()) =~= spec_class_block(
            x,
        ));
        assert(spec_class_blocks(l) + spec_class_block(x) =~= spec_class_block(x));
    } else {
        assert(l.push(x).drop_first() =~= l.drop_first().push(x));
        assert(l.push(x)[0] == l[0]);
        lemma_class_blocks_snoc(l.drop_first(), x);
        assert(spec_class_blocks(l.push(x)) =~= spec_class_blocks(l) + spec_class_block(x));
    }
}

/// The entire canonical document for the given resolved identifiers and the
/// given (already sorted) class IRI strings.
pub open spec fn spec_document(p: Option<Seq<u8>>, v: Option<Seq<u8>>, classes: Seq<Seq<u8>>) -> Seq<
    u8,
> {
    spec_root_open(p, v) + seq!['>' as u8] + spec_class_blocks(classes) + (if classes.len() == 0 {
        Seq::<u8>::empty()
    } else {
        break_indent(0)
    }) + seq!['<' as u8, '/' as u8] + spec_ontology_tag() + seq!['>' as u8]
}

/// The one document a given ontology serializes to: its resolved identity,
/// and its resolved class IRIs in ascending lexicographic order. Everything
/// observable about serialization is a function of this.
pub open spec fn doc_of(o: Ontology) -> Seq<u8> {
    spec_document(o.primary_str(), o.version_str(), o.class_strs().sort_by(lex_leq()))
}

/// Resolves every declared class to its IRI string, in storage order.
fn resolve_classes(ont: &Ontology) -> (r: Result<Vec<Vec<u8>>, SerializationError>)
    ensures
        r is Ok <==> (forall|i: int|
            0 <= i < ont.classes().len() ==> ont.resolvable_handle(#[trigger] ont.classes()[i].0)),
        r matches Ok(v) ==> deep(v@) == ont.class_strs(),
{
    let classes = ont.declared();
    let mut out: Vec<Vec<u8>> = Vec::new();
    let mut i: usize = 0;
    proof {
        assert(deep(out@) =~= ont.class_strs().take(0));
    }
    while i < classes.len()
        invariant
            classes@ == ont.classes(),
            i <= classes@.len(),
            deep(out@) == ont.class_strs().take(i as int),
            forall|k: int| 0 <= k < i ==> ont.resolvable_handle(#[trigger] ont.classes()[k].0),
        decreases classes@.len() - i,
    {
        let c: Class = classes[i];
        match ont.iri_to_str(c.0) {
            Some(s) => {
                let copy = clone_bytes(s);
                let ghost prevout = out@;
                let ghost prevd = deep(out@);
                let ghost copyv = copy@;
                out.push(copy);
                proof {
                    assert(ont.class_strs()[i as int] == ont.resolve(ont.classes()[i as int].0));
                    assert(out@ == prevout.push(copy));
                    assert(ont.class_strs().len() == ont.classes().len());
                    assert(prevd.len() == i as int);
                    assert(prevout.len() == i as int);
                    assert forall|k: int| 0 <= k < out@.len() implies deep(out@)[k]
                        == ont.class_strs().take(i as int + 1)[k] by {
                        assert(deep(out@)[k] == out@[k]@);
                        if k < i as int {
                            assert(prevout.push(copy)[k] == prevout[k]);
                            assert(prevd[k] == prevout[k]@);
                            assert(prevd[k] == ont.class_strs().take(i as int)[k]);
                        } else {
                            assert(k == prevout.len() as int);
                            assert(prevout.push(copy)[k] == copy);
                            assert(out@[k]@ == copyv);
                        }
                    }
                    assert(deep(out@) =~= ont.class_strs().take(i as int + 1));
                }
            },
            None => {
                return Err(SerializationError::UnresolvedIdentifier);
            },
        }
        i = i + 1;
    }
    proof {
        assert(ont.class_strs().take(ont.class_strs().len() as int) =~= ont.class_strs());
    }
    Ok(out)
}

/// Resolves the identifier and attaches it as a `key="iri"` attribute when it
/// is present; an absent identifier adds no attribute at all, never an
/// empty-string placeholder.
pub fn push_iri_attribute_maybe(
    elem: &mut StartTag,
    ont: &Ontology,
    key: &Vec<u8>,
    iri: Option<IRI>,
) -> (r: Result<(), SerializationError>)
    ensures
        r is Ok <==> ont.opt_resolvable(iri),
        r is Ok ==> final(elem).attr_bytes() == old(elem).attr_bytes() + spec_attr_maybe(
            key@,
            ont.opt_str(iri),
        ),
        final(elem).name_bytes() == old(elem).name_bytes(),
        r is Err ==> *final(elem) == *old(elem),
{
    match iri {
        Some(h) => {
            match ont.iri_to_str(h) {
                Some(s) => {
                    let value = clone_bytes(s);
                    elem.push_attribute(key, &value);
                    Ok(())
                },
                None => Err(SerializationError::UnresolvedIdentifier),
            }
        },
        None => {
            proof {
                assert(elem.attr_bytes() + spec_attr_maybe(key@, ont.opt_str(iri))
                    =~= elem.attr_bytes());
            }
            Ok(())
        },
    }
}

/// Emits one `Declaration`/`Class` pair per declared class, in ascending
/// lexicographic order of the resolved class IRIs: every class handle is
/// resolved first, then the strings are sorted, so the emitted order never
/// depends on the storage's own iteration order.
pub fn push_classes(
    writer: &mut XmlWriter,
    ont: &Ontology,
    _prefix: Option<&curie::PrefixMapping>,
) -> (r: Result<(), SerializationError>)
    requires
        old(writer).inv(),
        old(writer).depth() == 1,
        old(writer).bytes().len() > 0,
    ensures
        final(writer).inv(),
        r is Ok <==> (forall|i: int|
            0 <= i < ont.classes().len() ==> ont.resolvable_handle(#[trigger] ont.classes()[i].0)),
        r is Ok ==> final(writer).bytes() == old(writer).bytes() + spec_class_blocks(
            ont.class_strs().sort_by(lex_leq()),
        ),
        r is Ok ==> final(writer).open_elems() == old(writer).open_elems(),
        r is Ok ==> (final(writer).at_fresh_open() <==> (old(writer).at_fresh_open()
            && ont.classes().len() == 0)),
        r is Err ==> *final(writer) == *old(writer),
{
    let resolved = match resolve_classes(ont) {
        Ok(v) => v,
        Err(e) => {
            return Err(e);
        },
    };
    proof {
        assert(ont.class_strs().len() == ont.classes().len());
    }
    let ghost n = ont.classes().len() as int;
    let sorted = sort_strings(resolved);
    let ghost sortedv = ont.class_strs().sort_by(lex_leq());
    proof {
        assert(deep(sorted@) == sortedv);
        assert(sorted@.len() == n);
    }
    let mut i: usize = 0;
    proof {
        assert(writer.bytes() =~= old(writer).bytes() + spec_class_blocks(sortedv.take(0)));
    }
    while i < sorted.len()
        invariant
            old(writer).inv(),
            old(writer).depth() == 1,
            old(writer).bytes().len() > 0,
            writer.inv(),
            writer.depth() == 1,
            writer.bytes().len() > 0,
            sorted@.len() == sortedv.len(),
            deep(sorted@) == sortedv,
            i <= sorted@.len(),
            writer.bytes() == old(writer).bytes() + spec_class_blocks(sortedv.take(i as int)),
            writer.open_elems() == old(writer).open_elems(),
            writer.at_fresh_open() <==> (old(writer).at_fresh_open() && i == 0),
        decreases sorted@.len() - i,
    {
        let ghost before = writer.bytes();
        let dtag = declaration_tag();
        let tag = StartTag::new(dtag);
        writer.open_element(tag);
        let ctag_name = class_tag();
        let mut ctag = StartTag::new(ctag_name);
        let key = iri_key();
        ctag.push_attribute(&key, &sorted[i]);
        writer.empty_element(ctag);
        let dtag = declaration_tag();
        writer.close_element(&dtag);
        proof {
            assert(deep(sorted@)[i as int] == sorted@[i as int]@);
            assert(writer.bytes() =~= before + spec_class_block(sortedv[i as int]));
            assert(sortedv.take(i as int).push(sortedv[i as int]) =~= sortedv.take(i as int + 1));
            lemma_class_blocks_snoc(sortedv.take(i as int), sortedv[i as int]);
            assert(writer.bytes() =~= old(writer).bytes() + spec_class_blocks(
                sortedv.take(i as int + 1),
            ));
        }
        i = i + 1;
    }
    proof {
        assert(sortedv.take(sortedv.len() as int) =~= sortedv);
    }
    Ok(())
}

/// Serializes the ontology onto the sink as one canonical OWL/XML document:
/// an XML declaration, a root `Ontology` element in the OWL namespace with
/// the optional `ontologyIRI` and `versionIRI` attributes, and one
/// `Declaration`/`Class` pair per declared class in ascending lexicographic
/// IRI order. Succeeds exactly when every identifier handle the ontology
/// holds resolves against its own registry; on failure nothing at all is
/// written to the sink. The prefix mapping is accepted for forward
/// compatibility and has no effect on the output.
pub fn write(
    sink: &mut Vec<u8>,
    ont: &Ontology,
    prefix: Option<&curie::PrefixMapping>,
) -> (r: Result<(), SerializationError>)
    ensures
        r is Ok <==> ont.resolvable(),
        r is Ok ==> final(sink)@ == old(sink)@ + doc_of(*ont),
        r is Err ==> final(sink)@ == old(sink)@,
{
    let mut writer = XmlWriter::new();
    let version = xml_version();
    writer.write_declaration(&version);
    let name = ontology_tag();
    let mut elem = StartTag::new(name);
    let xk = xmlns_key();
    let ns = owl_namespace();
    elem.push_attribute(&xk, &ns);
    let oik = ontology_iri_key();
    if let Err(e) = push_iri_attribute_maybe(&mut elem, ont, &oik, ont.id.iri) {
        return Err(e);
    }
    let vik = version_iri_key();
    if let Err(e) = push_iri_attribute_maybe(&mut elem, ont, &vik, ont.id.viri) {
        return Err(e);
    }
    writer.open_element(elem);
    proof {
        assert(writer.bytes() =~= spec_root_open(ont.primary_str(), ont.version_str()) + seq![
            '>' as u8,
        ]);
    }
    if let Err(e) = push_classes(&mut writer, ont, prefix) {
        return Err(e);
    }
    let ghost sortedv = ont.class_strs().sort_by(lex_leq());
    proof {
        assert(ont.class_strs().len() == ont.classes().len());
        lemma_lex_total_ordering();
        ont.class_strs().lemma_sort_by_ensures(lex_leq());
        ont.class_strs().to_multiset_ensures();
        sortedv.to_multiset_ensures();
        assert(sortedv.len() == ont.class_strs().len());
    }
    let name = ontology_tag();
    writer.close_element(&name);
    let bytes = writer.into_bytes();
    proof {
        assert(bytes@ =~= spec_root_open(ont.primary_str(), ont.version_str()) + seq!['>' as u8]
            + spec_class_blocks(sortedv) + (if sortedv.len() == 0 {
            Seq::<u8>::empty()
        } else {
            break_indent(0)
        }) + seq!['<' as u8, '/' as u8] + spec_ontology_tag() + seq!['>' as u8]);
        assert(bytes@ =~= doc_of(*ont));
    }
    append_bytes(sink, &bytes);
    Ok(())
}

} // verus!
