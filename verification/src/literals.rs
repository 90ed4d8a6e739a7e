//! The byte strings of the OWL/XML wire format, as specification-level
//! sequences with matching executable constructors.

use vstd::prelude::*;

verus! {

/// `<?xml version="`
pub open spec fn spec_decl_pre() -> Seq<u8> {
    seq!['<' as u8, '?' as u8, 'x' as u8, 'm' as u8, 'l' as u8, ' ' as u8, 'v' as u8, 'e' as u8, 'r' as u8, 's' as u8, 'i' as u8, 'o' as u8, 'n' as u8, '=' as u8, '"' as u8]
}

pub fn decl_pre() -> (r: Vec<u8>)
    ensures
        r@ == spec_decl_pre(),
{
    let mut v: Vec<u8> = Vec::new();
    v.push('<' as u8);
    v.push('?' as u8);
    v.push('x' as u8);
    v.push('m' as u8);
    v.push('l' as u8);
    v.push(' ' as u8);
    v.push('v' as u8);
    v.push('e' as u8);
    v.push('r' as u8);
    v.push('s' as u8);
    v.push('i' as u8);
    v.push('o' as u8);
    v.push('n' as u8);
    v.push('=' as u8);
    v.push('"' as u8);
    proof {
        assert(v@ =~= spec_decl_pre());
    }
    v
}

/// `"?>`
pub open spec fn spec_decl_post() -> Seq<u8> {
    seq!['"' as u8, '?' as u8, '>' as u8]
}

pub fn decl_post() -> (r: Vec<u8>)
    ensures
        r@ == spec_decl_post(),
{
    let mut v: Vec<u8> = Vec::new();
    v.push('"' as u8);
    v.push('?' as u8);
    v.push('>' as u8);
    proof {
        assert(v@ =~= spec_decl_post());
    }
    v
}

/// `Ontology`
pub open spec fn spec_ontology_tag() -> Seq<u8> {
    seq!['O' as u8, 'n' as u8, 't' as u8, 'o' as u8, 'l' as u8, 'o' as u8, 'g' as u8, 'y' as u8]
}

pub fn ontology_tag() -> (r: Vec<u8>)
    ensures
        r@ == spec_ontology_tag(),
{
    let mut v: Vec<u8> = Vec::new();
    v.push('O' as u8);
    v.push('n' as u8);
    v.push('t' as u8);
    v.push('o' as u8);
    v.push('l' as u8);
    v.push('o' as u8);
    v.push('g' as u8);
    v.push('y' as u8);
    proof {
        assert(v@ =~= spec_ontology_tag());
    }
    v
}

/// `Declaration`
pub open spec fn spec_declaration_tag() -> Seq<u8> {
    seq!['D' as u8, 'e' as u8, 'c' as u8, 'l' as u8, 'a' as u8, 'r' as u8, 'a' as u8, 't' as u8, 'i' as u8, 'o' as u8, 'n' as u8]
}

pub fn declaration_tag() -> (r: Vec<u8>)
    ensures
        r@ == spec_declaration_tag(),
{
    let mut v: Vec<u8> = Vec::new();
    v.push('D' as u8);
    v.push('e' as u8);
    v.push('c' as u8);
    v.push('l' as u8);
    v.push('a' as u8);
    v.push('r' as u8);
    v.push('a' as u8);
    v.push('t' as u8);
    v.push('i' as u8);
    v.push('o' as u8);
    v.push('n' as u8);
    proof {
        assert(v@ =~= spec_declaration_tag());
    }
    v
}

/// `Class`
pub open spec fn spec_class_tag() -> Seq<u8> {
    seq!['C' as u8, 'l' as u8, 'a' as u8, 's' as u8, 's' as u8]
}

pub fn class_tag() -> (r: Vec<u8>)
    ensures
        r@ == spec_class_tag(),
{
    let mut v: Vec<u8> = Vec::new();
    v.push('C' as u8);
    v.push('l' as u8);
    v.push('a' as u8);
    v.push('s' as u8);
    v.push('s' as u8);
    proof {
        assert(v@ =~= spec_class_tag());
    }
    v
}

/// `xmlns`
pub open spec fn spec_xmlns_key() -> Seq<u8> {
    seq!['x' as u8, 'm' as u8, 'l' as u8, 'n' as u8, 's' as u8]
}

pub fn xmlns_key() -> (r: Vec<u8>)
    ensures
        r@ == spec_xmlns_key(),
{
    let mut v: Vec<u8> = Vec::new();
    v.push('x' as u8);
    v.push('m' as u8);
    v.push('l' as u8);
    v.push('n' as u8);
    v.push('s' as u8);
    proof {
        assert(v@ =~= spec_xmlns_key());
    }
    v
}

/// `ontologyIRI`
pub open spec fn spec_ontology_iri_key() -> Seq<u8> {
    seq!['o' as u8, 'n' as u8, 't' as u8, 'o' as u8, 'l' as u8, 'o' as u8, 'g' as u8, 'y' as u8, 'I' as u8, 'R' as u8, 'I' as u8]
}

pub fn ontology_iri_key() -> (r: Vec<u8>)
    ensures
        r@ == spec_ontology_iri_key(),
{
    let mut v: Vec<u8> = Vec::new();
    v.push('o' as u8);
    v.push('n' as u8);
    v.push('t' as u8);
    v.push('o' as u8);
    v.push('l' as u8);
    v.push('o' as u8);
    v.push('g' as u8);
    v.push('y' as u8);
    v.push('I' as u8);
    v.push('R' as u8);
    v.push('I' as u8);
    proof {
        assert(v@ =~= spec_ontology_iri_key());
    }
    v
}

/// `versionIRI`
pub open spec fn spec_version_iri_key() -> Seq<u8> {
    seq!['v' as u8, 'e' as u8, 'r' as u8, 's' as u8, 'i' as u8, 'o' as u8, 'n' as u8, 'I' as u8, 'R' as u8, 'I' as u8]
}

pub fn version_iri_key() -> (r: Vec<u8>)
    ensures
        r@ == spec_version_iri_key(),
{
    let mut v: Vec<u8> = Vec::new();
    v.push('v' as u8);
    v.push('e' as u8);
    v.push('r' as u8);
    v.push('s' as u8);
    v.push('i' as u8);
    v.push('o' as u8);
    v.push('n' as u8);
    v.push('I' as u8);
    v.push('R' as u8);
    v.push('I' as u8);
    proof {
        assert(v@ =~= spec_version_iri_key());
    }
    v
}

/// `IRI`
pub open spec fn spec_iri_key() -> Seq<u8> {
    seq!['I' as u8, 'R' as u8, 'I' as u8]
}

pub fn iri_key() -> (r: Vec<u8>)
    ensures
        r@ == spec_iri_key(),
{
    let mut v: Vec<u8> = Vec::new();
    v.push('I' as u8);
    v.push('R' as u8);
    v.push('I' as u8);
    proof {
        assert(v@ =~= spec_iri_key());
    }
    v
}

/// `http://www.w3.org/2002/07/owl#`
pub open spec fn spec_owl_namespace() -> Seq<u8> {
    seq!['h' as u8, 't' as u8, 't' as u8, 'p' as u8, ':' as u8, '/' as u8, '/' as u8, 'w' as u8, 'w' as u8, 'w' as u8, '.' as u8, 'w' as u8, '3' as u8, '.' as u8, 'o' as u8, 'r' as u8, 'g' as u8, '/' as u8, '2' as u8, '0' as u8, '0' as u8, '2' as u8, '/' as u8, '0' as u8, '7' as u8, '/' as u8, 'o' as u8, 'w' as u8, 'l' as u8, '#' as u8]
}

pub fn owl_namespace() -> (r: Vec<u8>)
    ensures
        r@ == spec_owl_namespace(),
{
    let mut v: Vec<u8> = Vec::new();
    v.push('h' as u8);
    v.push('t' as u8);
    v.push('t' as u8);
    v.push('p' as u8);
    v.push(':' as u8);
    v.push('/' as u8);
    v.push('/' as u8);
    v.push('w' as u8);
    v.push('w' as u8);
    v.push('w' as u8);
    v.push('.' as u8);
    v.push('w' as u8);
    v.push('3' as u8);
    v.push('.' as u8);
    v.push('o' as u8);
    v.push('r' as u8);
    v.push('g' as u8);
    v.push('/' as u8);
    v.push('2' as u8);
    v.push('0' as u8);
    v.push('0' as u8);
    v.push('2' as u8);
    v.push('/' as u8);
    v.push('0' as u8);
    v.push('7' as u8);
    v.push('/' as u8);
    v.push('o' as u8);
    v.push('w' as u8);
    v.push('l' as u8);
    v.push('#' as u8);
    proof {
        assert(v@ =~= spec_owl_namespace());
    }
    v
}

/// `1.0`
pub open spec fn spec_xml_version() -> Seq<u8> {
    seq!['1' as u8, '.' as u8, '0' as u8]
}

pub fn xml_version() -> (r: Vec<u8>)
    ensures
        r@ == spec_xml_version(),
{
    let mut v: Vec<u8> = Vec::new();
    v.push('1' as u8);
    v.push('.' as u8);
    v.push('0' as u8);
    proof {
        assert(v@ =~= spec_xml_version());
    }
    v
}

/// `&amp;`
pub open spec fn spec_amp_esc() -> Seq<u8> {
    seq!['&' as u8, 'a' as u8, 'm' as u8, 'p' as u8, ';' as u8]
}

pub fn amp_esc() -> (r: Vec<u8>)
    ensures
        r@ == spec_amp_esc(),
{
    let mut v: Vec<u8> = Vec::new();
    v.push('&' as u8);
    v.push('a' as u8);
    v.push('m' as u8);
    v.push('p' as u8);
    v.push(';' as u8);
    proof {
        assert(v@ =~= spec_amp_esc());
    }
    v
}

/// `&lt;`
pub open spec fn spec_lt_esc() -> Seq<u8> {
    seq!['&' as u8, 'l' as u8, 't' as u8, ';' as u8]
}

pub fn lt_esc() -> (r: Vec<u8>)
    ensures
        r@ == spec_lt_esc(),
{
    let mut v: Vec<u8> = Vec::new();
    v.push('&' as u8);
    v.push('l' as u8);
    v.push('t' as u8);
    v.push(';' as u8);
    proof {
        assert(v@ =~= spec_lt_esc());
    }
    v
}

/// `&gt;`
pub open spec fn spec_gt_esc() -> Seq<u8> {
    seq!['&' as u8, 'g' as u8, 't' as u8, ';' as u8]
}

pub fn gt_esc() -> (r: Vec<u8>)
    ensures
        r@ == spec_gt_esc(),
{
    let mut v: Vec<u8> = Vec::new();
    v.push('&' as u8);
    v.push('g' as u8);
    v.push('t' as u8);
    v.push(';' as u8);
    proof {
        assert(v@ =~= spec_gt_esc());
    }
    v
}

/// `&quot;`
pub open spec fn spec_quot_esc() -> Seq<u8> {
    seq!['&' as u8, 'q' as u8, 'u' as u8, 'o' as u8, 't' as u8, ';' as u8]
}

pub fn quot_esc() -> (r: Vec<u8>)
    ensures
        r@ == spec_quot_esc(),
{
    let mut v: Vec<u8> = Vec::new();
    v.push('&' as u8);
    v.push('q' as u8);
    v.push('u' as u8);
    v.push('o' as u8);
    v.push('t' as u8);
    v.push(';' as u8);
    proof {
        assert(v@ =~= spec_quot_esc());
    }
    v
}

/// `&apos;`
pub open spec fn spec_apos_esc() -> Seq<u8> {
    seq!['&' as u8, 'a' as u8, 'p' as u8, 'o' as u8, 's' as u8, ';' as u8]
}

pub fn apos_esc() -> (r: Vec<u8>)
    ensures
        r@ == spec_apos_esc(),
{
    let mut v: Vec<u8> = Vec::new();
    v.push('&' as u8);
    v.push('a' as u8);
    v.push('p' as u8);
    v.push('o' as u8);
    v.push('s' as u8);
    v.push(';' as u8);
    proof {
        assert(v@ =~= spec_apos_esc());
    }
    v
}

/// `https://www.example.com/o`
pub open spec fn spec_class_prefix() -> Seq<u8> {
    seq!['h' as u8, 't' as u8, 't' as u8, 'p' as u8, 's' as u8, ':' as u8, '/' as u8, '/' as u8, 'w' as u8, 'w' as u8, 'w' as u8, '.' as u8, 'e' as u8, 'x' as u8, 'a' as u8, 'm' as u8, 'p' as u8, 'l' as u8, 'e' as u8, '.' as u8, 'c' as u8, 'o' as u8, 'm' as u8, '/' as u8, 'o' as u8]
}

pub fn class_prefix() -> (r: Vec<u8>)
    ensures
        r@ == spec_class_prefix(),
{
    let mut v: Vec<u8> = Vec::new();
    v.push('h' as u8);
    v.push('t' as u8);
    v.push('t' as u8);
    v.push('p' as u8);
    v.push('s' as u8);
    v.push(':' as u8);
    v.push('/' as u8);
    v.push('/' as u8);
    v.push('w' as u8);
    v.push('w' as u8);
    v.push('w' as u8);
    v.push('.' as u8);
    v.push('e' as u8);
    v.push('x' as u8);
    v.push('a' as u8);
    v.push('m' as u8);
    v.push('p' as u8);
    v.push('l' as u8);
    v.push('e' as u8);
    v.push('.' as u8);
    v.push('c' as u8);
    v.push('o' as u8);
    v.push('m' as u8);
    v.push('/' as u8);
    v.push('o' as u8);
    proof {
        assert(v@ =~= spec_class_prefix());
    }
    v
}

/// Whether two byte strings hold the same bytes.
pub fn bytes_eq(a: &Vec<u8>, b: &Vec<u8>) -> (r: bool)
    ensures
        r == (a@ == b@),
{
    if a.len() != b.len() {
        proof {
            assert(a@ != b@);
        }
        return false;
    }
    let mut i: usize = 0;
    while i < a.len()
        invariant
            a@.len() == b@.len(),
            i <= a.len(),
            forall|k: int| 0 <= k < i ==> a@[k] == b@[k],
        decreases a.len() - i,
    {
        if a[i] != b[i] {
            return false;
        }
        i = i + 1;
    }
    proof {
        assert(a@ =~= b@);
    }
    true
}

/// An owned copy of a byte string.
pub fn clone_bytes(v: &Vec<u8>) -> (r: Vec<u8>)
    ensures
        r@ == v@,
{
    let mut r: Vec<u8> = Vec::new();
    let mut i: usize = 0;
    while i < v.len()
        invariant
            i <= v.len(),
            r@ == v@.take(i as int),
        decreases v.len() - i,
    {
        r.push(v[i]);
        proof {
            assert(v@.take(i as int).push(v@[i as int]) =~= v@.take(i as int + 1));
        }
        i = i + 1;
    }
    proof {
        assert(v@.take(v@.len() as int) =~= v@);
    }
    r
}

/// Appends all of `src` onto the end of `dst`.
pub fn append_bytes(dst: &mut Vec<u8>, src: &Vec<u8>)
    ensures
        final(dst)@ == old(dst)@ + src@,
{
    let mut i: usize = 0;
    while i < src.len()
        invariant
            i <= src.len(),
            dst@ == old(dst)@ + src@.take(i as int),
        decreases src.len() - i,
    {
        dst.push(src[i]);
        proof {
            assert(old(dst)@ + src@.take(i as int) + seq![src@[i as int]]
                =~= old(dst)@ + src@.take(i + 1 as int));
        }
        i = i + 1;
    }
    proof {
        assert(src@.take(src@.len() as int) =~= src@);
    }
}

} // verus!
