//! The serializer's stated laws: determinism under any declaration order,
//! recoverability of the primary identifier from the document, omission of
//! absent identity attributes, and the count of emitted declarations.

use vstd::prelude::*;
use vstd::seq_lib::lemma_sorted_unique;
use crate::escape::{esc, lemma_esc_no_quote_lt, lemma_unesc_esc, unesc};
use crate::literals::{
    spec_class_tag, spec_decl_post, spec_decl_pre, spec_declaration_tag, spec_iri_key,
    spec_ontology_iri_key, spec_ontology_tag, spec_owl_namespace, spec_version_iri_key,
    spec_xml_version, spec_xmlns_key,
};
use crate::model::Ontology;
use crate::order::{lemma_lex_total_ordering, lex_leq};
use crate::writer::{doc_of, spec_attr_maybe, spec_class_block, spec_class_blocks, spec_root_open};
use crate::xml::{break_indent, spec_attr};

verus! {

/// Determinism: the document depends only on the resolved identity strings
/// and the multiset of resolved class IRI strings. Declaring the same
/// classes in any other order, or storing them in any other arrangement,
/// yields a byte-identical document.
pub proof fn lemma_write_deterministic(a: Ontology, b: Ontology)
    requires
        a.primary_str() == b.primary_str(),
        a.version_str() == b.version_str(),
        a.class_strs().to_multiset() == b.class_strs().to_multiset(),
    ensures
        doc_of(a) == doc_of(b),
{
    lemma_lex_total_ordering();
    a.class_strs().lemma_sort_by_ensures(lex_leq());
    b.class_strs().lemma_sort_by_ensures(lex_leq());
    lemma_sorted_unique(
        a.class_strs().sort_by(lex_leq()),
        b.class_strs().sort_by(lex_leq()),
        lex_leq(),
    );
}

/// Everything of the document that precedes a primary-identifier attribute:
/// the XML declaration and the root element up to its namespace attribute.
pub open spec fn spec_doc_prefix() -> Seq<u8> {
    spec_decl_pre() + spec_xml_version() + spec_decl_post() + break_indent(0) + seq!['<' as u8]
        + spec_ontology_tag() + spec_attr(spec_xmlns_key(), spec_owl_namespace())
}

/// ` ontologyIRI="`: what introduces the primary identifier attribute.
pub open spec fn spec_primary_attr_open() -> Seq<u8> {
    seq![' ' as u8] + spec_ontology_iri_key() + seq!['=' as u8, '"' as u8]
}

/// The position of the first quote of `d` at or after `i`.
pub open spec fn quote_pos(d: Seq<u8>, i: int) -> int
    recommends
        0 <= i <= d.len(),
    decreases d.len() - i when 0 <= i <= d.len()
{
    if i >= d.len() {
        i
    } else if d[i] == '"' as u8 {
        i
    } else {
        quote_pos(d, i + 1)
    }
}

/// Reads the primary identifier back out of a serialized document: after the
/// fixed document prefix there must stand the `ontologyIRI` attribute, whose
/// unescaped value runs to the next quote.
pub open spec fn extract_ontology_iri(doc: Seq<u8>) -> Option<Seq<u8>> {
    let pre = spec_doc_prefix() + spec_primary_attr_open();
    if pre.is_prefix_of(doc) {
        Some(unesc(doc.subrange(pre.len() as int, quote_pos(doc, pre.len() as int))))
    } else {
        None
    }
}

proof fn lemma_quote_pos_after(d: Seq<u8>, i: int, n: int)
    requires
        0 <= i,
        0 <= n,
        i + n < d.len(),
        forall|j: int| i <= j < i + n ==> d[j] != '"' as u8,
        d[i + n] == '"' as u8,
    ensures
        quote_pos(d, i) == i + n,
    decreases n,
{
    if n > 0 {
        lemma_quote_pos_after(d, i + 1, n - 1);
    }
}

/// Round trip and attribute omission in one statement: reading the document
/// back yields exactly the ontology's resolved primary identifier when one
/// is present, and finds no `ontologyIRI` attribute at all when none is.
pub proof fn lemma_primary_iri_round_trip(o: Ontology)
    ensures
        extract_ontology_iri(doc_of(o)) == o.primary_str(),
{
    let doc = doc_of(o);
    let sdp = spec_doc_prefix();
    let pre = sdp + spec_primary_attr_open();
    let cl = o.class_strs().sort_by(lex_leq());
    let tail = spec_attr_maybe(spec_version_iri_key(), o.version_str()) + seq!['>' as u8]
        + spec_class_blocks(cl) + (if cl.len() == 0 {
        Seq::<u8>::empty()
    } else {
        break_indent(0)
    }) + seq!['<' as u8, '/' as u8] + spec_ontology_tag() + seq!['>' as u8];
    match o.primary_str() {
        Some(p) => {
            assert(doc =~= pre + esc(p) + seq!['"' as u8] + tail);
            assert(doc.subrange(0, pre.len() as int) =~= pre);
            assert(pre.is_prefix_of(doc));
            lemma_esc_no_quote_lt(p);
            assert forall|j: int|
                pre.len() <= j < pre.len() + esc(p).len() implies doc[j] != '"' as u8 by {
                assert(doc[j] == esc(p)[j - pre.len()]);
            }
            assert(doc[pre.len() + esc(p).len() as int] == '"' as u8);
            lemma_quote_pos_after(doc, pre.len() as int, esc(p).len() as int);
            assert(doc.subrange(
                pre.len() as int,
                pre.len() + esc(p).len() as int,
            ) =~= esc(p));
            lemma_unesc_esc(p);
        },
        None => {
            let at = sdp.len() as int;
            match o.version_str() {
                Some(v) => {
                    assert(doc =~= sdp + spec_attr(spec_version_iri_key(), v) + seq!['>' as u8]
                        + spec_class_blocks(cl) + (if cl.len() == 0 {
                        Seq::<u8>::empty()
                    } else {
                        break_indent(0)
                    }) + seq!['<' as u8, '/' as u8] + spec_ontology_tag() + seq!['>' as u8]);
                    assert(doc[at + 1] == spec_version_iri_key()[0]);
                    assert(pre[at + 1] == spec_ontology_iri_key()[0]);
                    if pre.is_prefix_of(doc) {
                        assert(doc.subrange(0, pre.len() as int) =~= pre);
                        assert(doc[at + 1] == pre[at + 1]);
                    }
                },
                None => {
                    assert(doc =~= sdp + seq!['>' as u8] + spec_class_blocks(cl) + (if cl.len()
                        == 0 {
                        Seq::<u8>::empty()
                    } else {
                        break_indent(0)
                    }) + seq!['<' as u8, '/' as u8] + spec_ontology_tag() + seq!['>' as u8]);
                    assert(doc[at] == '>' as u8);
                    assert(pre[at] == ' ' as u8);
                    if pre.is_prefix_of(doc) {
                        assert(doc.subrange(0, pre.len() as int) =~= pre);
                        assert(doc[at] == pre[at]);
                    }
                },
            }
        },
    }
}

/// The number of positions at which `pat` occurs in `d`.
pub open spec fn count_matches(d: Seq<u8>, pat: Seq<u8>) -> nat
    decreases d.len(),
{
    if pat.len() == 0 || d.len() < pat.len() {
        0
    } else {
        (if d.take(pat.len() as int) == pat {
            1nat
        } else {
            0nat
        }) + count_matches(d.drop_first(), pat)
    }
}

/// `<Declaration>`: what opens one declaration element.
pub open spec fn spec_decl_pattern() -> Seq<u8> {
    seq!['<' as u8] + spec_declaration_tag() + seq!['>' as u8]
}

/// `<Class `: what opens one class element.
pub open spec fn spec_class_pattern() -> Seq<u8> {
    seq!['<' as u8] + spec_class_tag() + seq![' ' as u8]
}

/// `s` holds no `<`, so no tag can begin inside it.
pub open spec fn no_lt(s: Seq<u8>) -> bool {
    forall|i: int| 0 <= i < s.len() ==> #[trigger] s[i] != '<' as u8
}

proof fn lemma_count_skip(d: Seq<u8>, pat: Seq<u8>, k: int)
    requires
        pat.len() > 0,
        pat[0] == '<' as u8,
        0 <= k <= d.len(),
        forall|j: int| 0 <= j < k ==> #[trigger] d[j] != '<' as u8,
    ensures
        count_matches(d, pat) == count_matches(d.skip(k), pat),
    decreases k,
{
    if k == 0 {
        assert(d.skip(0) =~= d);
    } else if d.len() < pat.len() {
        assert(d.skip(k).len() < pat.len());
    } else {
        assert(d.take(pat.len() as int)[0] == d[0]);
        assert(d.take(pat.len() as int) != pat);
        assert(d.drop_first() =~= d.skip(1));
        assert(forall|j: int| 0 <= j < k - 1 ==> #[trigger] d.skip(1)[j] == d[j + 1]);
        lemma_count_skip(d.skip(1), pat, k - 1);
        assert(d.skip(1).skip(k - 1) =~= d.skip(k));
    }
}

/// A stretch without `<` contributes no occurrence.
proof fn lemma_count_pass(a: Seq<u8>, z: Seq<u8>, pat: Seq<u8>)
    requires
        pat.len() > 0,
        pat[0] == '<' as u8,
        no_lt(a),
    ensures
        count_matches(a + z, pat) == count_matches(z, pat),
{
    assert(forall|j: int| 0 <= j < a.len() ==> #[trigger] (a + z)[j] != '<' as u8);
    lemma_count_skip(a + z, pat, a.len() as int);
    assert((a + z).skip(a.len() as int) =~= z);
}

/// A head that differs from the pattern in its second byte starts no
/// occurrence.
proof fn lemma_count_step_one(d: Seq<u8>, pat: Seq<u8>)
    requires
        pat.len() >= 2,
        d.len() >= 1,
        d.len() >= pat.len() ==> d[1] != pat[1],
    ensures
        count_matches(d, pat) == count_matches(d.skip(1), pat),
{
    if d.len() < pat.len() {
        assert(d.skip(1).len() < pat.len());
    } else {
        assert(d.take(pat.len() as int)[1] == d[1]);
        assert(d.take(pat.len() as int) != pat);
        assert(d.drop_first() =~= d.skip(1));
    }
}

/// A head that is the pattern itself contributes exactly one occurrence.
proof fn lemma_count_match_head(d: Seq<u8>, pat: Seq<u8>)
    requires
        pat.len() > 0,
        d.len() >= pat.len(),
        d.take(pat.len() as int) == pat,
    ensures
        count_matches(d, pat) == 1 + count_matches(d.skip(1), pat),
{
    assert(d.drop_first() =~= d.skip(1));
}

proof fn lemma_attr_no_lt(key: Seq<u8>, value: Seq<u8>)
    requires
        no_lt(key),
    ensures
        no_lt(spec_attr(key, value)),
{
    lemma_esc_no_quote_lt(value);
    let a = spec_attr(key, value);
    assert forall|i: int| 0 <= i < a.len() implies a[i] != '<' as u8 by {
        if 1 <= i < 1 + key.len() {
            assert(a[i] == key[i - 1]);
        } else if 3 + key.len() <= i < 3 + key.len() + esc(value).len() {
            assert(a[i] == esc(value)[i - 3 - key.len()]);
        }
    }
}

proof fn lemma_attr_maybe_no_lt(key: Seq<u8>, value: Option<Seq<u8>>)
    requires
        no_lt(key),
    ensures
        no_lt(spec_attr_maybe(key, value)),
{
    match value {
        Some(v) => {
            lemma_attr_no_lt(key, v);
        },
        None => {},
    }
}

proof fn lemma_break_indent_no_lt(d: int)
    requires
        d >= 0,
    ensures
        no_lt(break_indent(d)),
{
}

/// One class block contributes exactly one `<Declaration>` and one `<Class `
/// occurrence, whatever IRI it carries.
proof fn lemma_count_block(s: Seq<u8>, z: Seq<u8>)
    ensures
        count_matches(spec_class_block(s) + z, spec_decl_pattern()) == 1 + count_matches(
            z,
            spec_decl_pattern(),
        ),
        count_matches(spec_class_block(s) + z, spec_class_pattern()) == 1 + count_matches(
            z,
            spec_class_pattern(),
        ),
{
    let b1 = break_indent(1);
    let b2 = break_indent(2);
    let mid1 = spec_declaration_tag() + seq!['>' as u8] + b2;
    let mid2 = spec_class_tag() + spec_attr(spec_iri_key(), s) + seq!['/' as u8, '>' as u8] + b1;
    let mid3 = seq!['/' as u8] + spec_declaration_tag() + seq!['>' as u8];
    let r5 = seq!['<' as u8] + (mid3 + z);
    let r3 = seq!['<' as u8] + (mid2 + r5);
    let r1 = seq!['<' as u8] + (mid1 + r3);
    assert(spec_class_block(s) + z =~= b1 + r1);
    assert(r1.skip(1) =~= mid1 + r3);
    assert(r3.skip(1) =~= mid2 + r5);
    assert(r5.skip(1) =~= mid3 + z);
    lemma_break_indent_no_lt(1);
    lemma_break_indent_no_lt(2);
    lemma_esc_no_quote_lt(s);
    assert(no_lt(mid1)) by {
        assert forall|i: int| 0 <= i < mid1.len() implies mid1[i] != '<' as u8 by {
            if i < 11 {
                assert(mid1[i] == spec_declaration_tag()[i]);
            } else if i >= 12 {
                assert(mid1[i] == b2[i - 12]);
            }
        }
    }
    assert(no_lt(mid2)) by {
        lemma_attr_no_lt(spec_iri_key(), s);
        let a = spec_attr(spec_iri_key(), s);
        assert forall|i: int| 0 <= i < mid2.len() implies mid2[i] != '<' as u8 by {
            if i < 5 {
                assert(mid2[i] == spec_class_tag()[i]);
            } else if i < 5 + a.len() {
                assert(mid2[i] == a[i - 5]);
            } else if i >= 7 + a.len() {
                assert(mid2[i] == b1[i - 7 - a.len()]);
            }
        }
    }
    assert(no_lt(mid3)) by {
        assert forall|i: int| 0 <= i < mid3.len() implies mid3[i] != '<' as u8 by {
            if 1 <= i < 12 {
                assert(mid3[i] == spec_declaration_tag()[i - 1]);
            }
        }
    }
    let pd = spec_decl_pattern();
    let pc = spec_class_pattern();
    // the `<Declaration>` count
    lemma_count_pass(b1, r1, pd);
    assert(r1.take(13) =~= pd);
    lemma_count_match_head(r1, pd);
    lemma_count_pass(mid1, r3, pd);
    assert(r3[1] == spec_class_tag()[0]);
    lemma_count_step_one(r3, pd);
    lemma_count_pass(mid2, r5, pd);
    assert(r5[1] == '/' as u8);
    lemma_count_step_one(r5, pd);
    lemma_count_pass(mid3, z, pd);
    // the `<Class ` count
    lemma_count_pass(b1, r1, pc);
    assert(r1[1] == spec_declaration_tag()[0]);
    lemma_count_step_one(r1, pc);
    lemma_count_pass(mid1, r3, pc);
    assert(r3.take(7) =~= pc);
    lemma_count_match_head(r3, pc);
    lemma_count_pass(mid2, r5, pc);
    lemma_count_step_one(r5, pc);
    lemma_count_pass(mid3, z, pc);
}

proof fn lemma_count_blocks(l: Seq<Seq<u8>>, z: Seq<u8>)
    ensures
        count_matches(spec_class_blocks(l) + z, spec_decl_pattern()) == l.len() + count_matches(
            z,
            spec_decl_pattern(),
        ),
        count_matches(spec_class_blocks(l) + z, spec_class_pattern()) == l.len() + count_matches(
            z,
            spec_class_pattern(),
        ),
    decreases l.len(),
{
    if l.len() == 0 {
        assert(spec_class_blocks(l) + z =~= z);
    } else {
        let rest = spec_class_blocks(l.drop_first()) + z;
        assert(spec_class_blocks(l) + z =~= spec_class_block(l[0]) + rest);
        lemma_count_block(l[0], rest);
        lemma_count_blocks(l.drop_first(), z);
    }
}

proof fn lemma_count_header(p: Option<Seq<u8>>, v: Option<Seq<u8>>, z: Seq<u8>)
    ensures
        count_matches(spec_root_open(p, v) + seq!['>' as u8] + z, spec_decl_pattern())
            == count_matches(z, spec_decl_pattern()),
        count_matches(spec_root_open(p, v) + seq!['>' as u8] + z, spec_class_pattern())
            == count_matches(z, spec_class_pattern()),
{
    let d = spec_root_open(p, v) + seq!['>' as u8] + z;
    let mid1 = spec_decl_pre().skip(1) + spec_xml_version() + spec_decl_post() + break_indent(0);
    let mid2 = spec_ontology_tag() + spec_attr(spec_xmlns_key(), spec_owl_namespace())
        + spec_attr_maybe(spec_ontology_iri_key(), p) + spec_attr_maybe(
        spec_version_iri_key(),
        v,
    ) + seq!['>' as u8];
    let r1 = seq!['<' as u8] + spec_ontology_tag() + spec_attr(spec_xmlns_key(), spec_owl_namespace())
        + spec_attr_maybe(spec_ontology_iri_key(), p) + spec_attr_maybe(
        spec_version_iri_key(),
        v,
    ) + seq!['>' as u8] + z;
    assert(d.skip(1) =~= mid1 + r1);
    assert(r1.skip(1) =~= mid2 + z);
    lemma_break_indent_no_lt(0);
    assert(no_lt(mid1)) by {
        assert forall|i: int| 0 <= i < mid1.len() implies mid1[i] != '<' as u8 by {
            if i < 14 {
                assert(mid1[i] == spec_decl_pre()[i + 1]);
            } else if i < 17 {
                assert(mid1[i] == spec_xml_version()[i - 14]);
            } else if i < 20 {
                assert(mid1[i] == spec_decl_post()[i - 17]);
            } else {
                assert(mid1[i] == break_indent(0)[i - 20]);
            }
        }
    }
    assert(no_lt(mid2)) by {
        lemma_attr_no_lt(spec_xmlns_key(), spec_owl_namespace());
        lemma_attr_maybe_no_lt(spec_ontology_iri_key(), p);
        lemma_attr_maybe_no_lt(spec_version_iri_key(), v);
        let a1 = spec_attr(spec_xmlns_key(), spec_owl_namespace());
        let a2 = spec_attr_maybe(spec_ontology_iri_key(), p);
        let a3 = spec_attr_maybe(spec_version_iri_key(), v);
        assert forall|i: int| 0 <= i < mid2.len() implies mid2[i] != '<' as u8 by {
            if i < 8 {
                assert(mid2[i] == spec_ontology_tag()[i]);
            } else if i < 8 + a1.len() {
                assert(mid2[i] == a1[i - 8]);
            } else if i < 8 + a1.len() + a2.len() {
                assert(mid2[i] == a2[i - 8 - a1.len()]);
            } else if i < 8 + a1.len() + a2.len() + a3.len() {
                assert(mid2[i] == a3[i - 8 - a1.len() - a2.len()]);
            }
        }
    }
    let pd = spec_decl_pattern();
    let pc = spec_class_pattern();
    assert(d[1] == spec_decl_pre()[1]);
    assert(r1[1] == spec_ontology_tag()[0]);
    lemma_count_step_one(d, pd);
    lemma_count_pass(mid1, r1, pd);
    lemma_count_step_one(r1, pd);
    lemma_count_pass(mid2, z, pd);
    lemma_count_step_one(d, pc);
    lemma_count_pass(mid1, r1, pc);
    lemma_count_step_one(r1, pc);
    lemma_count_pass(mid2, z, pc);
}

/// Count property: an ontology with N declared classes serializes to a
/// document with exactly N `Declaration` elements and exactly N `Class`
/// elements — one matched pair per class, and nothing else in the document
/// resembles either opening tag.
pub proof fn lemma_declaration_count(o: Ontology)
    ensures
        count_matches(doc_of(o), spec_decl_pattern()) == o.classes().len(),
        count_matches(doc_of(o), spec_class_pattern()) == o.classes().len(),
{
    let cl = o.class_strs().sort_by(lex_leq());
    lemma_lex_total_ordering();
    o.class_strs().lemma_sort_by_ensures(lex_leq());
    o.class_strs().to_multiset_ensures();
    cl.to_multiset_ensures();
    assert(cl.len() == o.classes().len());
    let t_end = seq!['<' as u8, '/' as u8] + spec_ontology_tag() + seq!['>' as u8];
    let z1 = (if cl.len() == 0 {
        Seq::<u8>::empty()
    } else {
        break_indent(0)
    }) + t_end;
    let pd = spec_decl_pattern();
    let pc = spec_class_pattern();
    assert(count_matches(z1, pd) == 0 && count_matches(z1, pc) == 0) by {
        let mid = seq!['/' as u8] + spec_ontology_tag() + seq!['>' as u8];
        assert(t_end.skip(1) =~= mid);
        assert(no_lt(mid)) by {
            assert forall|i: int| 0 <= i < mid.len() implies mid[i] != '<' as u8 by {
                if 1 <= i < 9 {
                    assert(mid[i] == spec_ontology_tag()[i - 1]);
                }
            }
        }
        assert(t_end[1] == '/' as u8);
        lemma_count_step_one(t_end, pd);
        lemma_count_pass(mid, Seq::<u8>::empty(), pd);
        lemma_count_step_one(t_end, pc);
        lemma_count_pass(mid, Seq::<u8>::empty(), pc);
        assert(mid + Seq::<u8>::empty() =~= mid);
        assert(count_matches(Seq::<u8>::empty(), pd) == 0);
        assert(count_matches(Seq::<u8>::empty(), pc) == 0);
        if cl.len() == 0 {
            assert(z1 =~= t_end);
        } else {
            lemma_break_indent_no_lt(0);
            assert(z1 =~= break_indent(0) + t_end);
            lemma_count_pass(break_indent(0), t_end, pd);
            lemma_count_pass(break_indent(0), t_end, pc);
        }
    }
    let z = spec_class_blocks(cl) + z1;
    assert(doc_of(o) =~= spec_root_open(o.primary_str(), o.version_str()) + seq!['>' as u8] + z);
    lemma_count_header(o.primary_str(), o.version_str(), z);
    lemma_count_blocks(cl, z1);
}

} // verus!
