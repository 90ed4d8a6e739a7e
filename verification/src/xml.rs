//! The structured markup writer: an indentation-aware emitter of XML
//! declaration, start-tag, empty-tag and end-tag events onto a byte buffer.
//! A ghost stack of open element names makes mismatched nesting impossible to
//! verify: an element can only be closed under the name of the innermost open
//! one, and a fully emitted document provably closes everything it opens.

use vstd::prelude::*;
use crate::escape::{esc, escape_into};
use crate::literals::{append_bytes, spec_decl_post, spec_decl_pre};

verus! {

/// The deepest nesting the writer accepts; keeps indentation arithmetic
/// within machine bounds.
pub const MAX_DEPTH: usize = 16777216;

/// `n` spaces.
pub open spec fn spaces(n: int) -> Seq<u8> {
    Seq::new(n as nat, |i: int| ' ' as u8)
}

/// A line break followed by the indentation of nesting depth `d`, at four
/// spaces per level.
pub open spec fn break_indent(d: int) -> Seq<u8> {
    seq!['\n' as u8] + spaces(4 * d)
}

/// ` key="..."` with the value escaped: one serialized attribute.
pub open spec fn spec_attr(key: Seq<u8>, value: Seq<u8>) -> Seq<u8> {
    seq![' ' as u8] + key + seq!['=' as u8, '"' as u8] + esc(value) + seq!['"' as u8]
}

/// A pending start tag: an element name and its attributes, kept in emission
/// order.
pub struct StartTag {
    name: Vec<u8>,
    attrs: Vec<u8>,
}

impl StartTag {
    pub closed spec fn name_bytes(self) -> Seq<u8> {
        self.name@
    }

    pub closed spec fn attr_bytes(self) -> Seq<u8> {
        self.attrs@
    }

    /// A start tag with no attributes yet.
    pub fn new(name: Vec<u8>) -> (t: StartTag)
        ensures
            t.name_bytes() == name@,
            t.attr_bytes() == Seq::<u8>::empty(),
    {
        StartTag { name, attrs: Vec::new() }
    }

    /// Appends one attribute. The value is escaped; attribute order within
    /// the element is emission order and is never re-sorted.
    pub fn push_attribute(&mut self, key: &Vec<u8>, value: &Vec<u8>)
        ensures
            final(self).name_bytes() == old(self).name_bytes(),
            final(self).attr_bytes() == old(self).attr_bytes() + spec_attr(key@, value@),
    {
        self.attrs.push(' ' as u8);
        append_bytes(&mut self.attrs, key);
        self.attrs.push('=' as u8);
        self.attrs.push('"' as u8);
        escape_into(&mut self.attrs, value);
        self.attrs.push('"' as u8);
        proof {
            assert(self.attrs@ =~= old(self).attrs@ + spec_attr(key@, value@));
        }
    }
}

/// The markup writer itself: produced bytes, current depth, and the ghost
/// stack of open element names.
pub struct XmlWriter {
    out: Vec<u8>,
    depth: usize,
    just_opened: bool,
    open_names: Ghost<Seq<Seq<u8>>>,
}

impl XmlWriter {
    /// The bytes emitted so far.
    pub closed spec fn bytes(self) -> Seq<u8> {
        self.out@
    }

    /// The names of the elements that are open, outermost first.
    pub closed spec fn open_elems(self) -> Seq<Seq<u8>> {
        self.open_names@
    }

    /// Whether the last event was an element opening, so that closing it now
    /// produces an empty element body.
    pub closed spec fn at_fresh_open(self) -> bool {
        self.just_opened
    }

    pub open spec fn depth(self) -> int {
        self.open_elems().len() as int
    }

    pub closed spec fn inv(self) -> bool {
        self.depth as int == self.open_names@.len() && self.depth <= MAX_DEPTH
    }

    /// What an opening or self-closing tag is preceded by: nothing at the
    /// very start of the document, otherwise a break onto a fresh indented
    /// line.
    pub open spec fn prefix_for_open(self) -> Seq<u8> {
        if self.bytes().len() == 0 {
            Seq::<u8>::empty()
        } else {
            break_indent(self.depth())
        }
    }

    pub fn new() -> (w: XmlWriter)
        ensures
            w.inv(),
            w.bytes() == Seq::<u8>::empty(),
            w.open_elems() == Seq::<Seq<u8>>::empty(),
            !w.at_fresh_open(),
    {
        let w = XmlWriter {
            out: Vec::new(),
            depth: 0,
            just_opened: false,
            open_names: Ghost(Seq::empty()),
        };
        proof {
            assert(w.bytes() =~= Seq::<u8>::empty());
        }
        w
    }

    /// Emits the XML declaration with the given version; the first event of
    /// any document.
    pub fn write_declaration(&mut self, version: &Vec<u8>)
        requires
            old(self).inv(),
            old(self).bytes().len() == 0,
        ensures
            final(self).inv(),
            final(self).bytes() == spec_decl_pre() + version@ + spec_decl_post(),
            final(self).open_elems() == old(self).open_elems(),
            final(self).depth() == old(self).depth(),
            !final(self).at_fresh_open(),
    {
        let t = crate::literals::decl_pre();
        append_bytes(&mut self.out, &t);
        append_bytes(&mut self.out, version);
        let t = crate::literals::decl_post();
        append_bytes(&mut self.out, &t);
        self.just_opened = false;
        proof {
            assert(self.out@ =~= spec_decl_pre() + version@ + spec_decl_post());
        }
    }

    /// Emits a line break and the indentation of the current depth.
    fn emit_indent(&mut self)
        requires
            old(self).inv(),
        ensures
            final(self).inv(),
            final(self).bytes() == old(self).bytes() + break_indent(old(self).depth()),
            final(self).open_elems() == old(self).open_elems(),
            final(self).depth == old(self).depth,
            final(self).just_opened == old(self).just_opened,
    {
        self.out.push('\n' as u8);
        let n: usize = 4 * self.depth;
        let mut k: usize = 0;
        proof {
            assert(self.out@ =~= old(self).out@ + seq!['\n' as u8] + spaces(0));
        }
        while k < n
            invariant
                k <= n,
                n == 4 * old(self).depth,
                self.depth == old(self).depth,
                self.just_opened == old(self).just_opened,
                self.open_names@ == old(self).open_names@,
                old(self).inv(),
                self.out@ == old(self).out@ + seq!['\n' as u8] + spaces(k as int),
            decreases n - k,
        {
            self.out.push(' ' as u8);
            proof {
                assert(spaces(k as int).push(' ' as u8) =~= spaces(k as int + 1));
                assert(self.out@ =~= old(self).out@ + seq!['\n' as u8] + spaces(
                    k as int + 1,
                ));
            }
            k = k + 1;
        }
        proof {
            assert(self.out@ =~= old(self).out@ + break_indent(old(self).depth()));
        }
    }

    /// Opens an element: emits its start tag on a fresh line at the current
    /// indentation and pushes its name on the stack of open elements.
    pub fn open_element(&mut self, tag: StartTag)
        requires
            old(self).inv(),
            old(self).depth() < MAX_DEPTH,
        ensures
            final(self).inv(),
            final(self).bytes() == old(self).bytes() + old(self).prefix_for_open() + seq![
                '<' as u8,
            ] + tag.name_bytes() + tag.attr_bytes() + seq!['>' as u8],
            final(self).open_elems() == old(self).open_elems().push(tag.name_bytes()),
            final(self).at_fresh_open(),
    {
        if self.out.len() > 0 {
            self.emit_indent();
        }
        self.out.push('<' as u8);
        append_bytes(&mut self.out, &tag.name);
        append_bytes(&mut self.out, &tag.attrs);
        self.out.push('>' as u8);
        self.depth = self.depth + 1;
        self.just_opened = true;
        proof {
            self.open_names@ = old(self).open_names@.push(tag.name@);
            assert(self.out@ =~= old(self).out@ + old(self).prefix_for_open() + seq![
                '<' as u8,
            ] + tag.name_bytes() + tag.attr_bytes() + seq!['>' as u8]);
        }
    }

    /// Emits a whole element with no children as one self-closing tag on a
    /// fresh line at the current indentation.
    pub fn empty_element(&mut self, tag: StartTag)
        requires
            old(self).inv(),
        ensures
            final(self).inv(),
            final(self).bytes() == old(self).bytes() + old(self).prefix_for_open() + seq![
                '<' as u8,
            ] + tag.name_bytes() + tag.attr_bytes() + seq!['/' as u8, '>' as u8],
            final(self).open_elems() == old(self).open_elems(),
            final(self).depth() == old(self).depth(),
            !final(self).at_fresh_open(),
    {
        if self.out.len() > 0 {
            self.emit_indent();
        }
        self.out.push('<' as u8);
        append_bytes(&mut self.out, &tag.name);
        append_bytes(&mut self.out, &tag.attrs);
        self.out.push('/' as u8);
        self.out.push('>' as u8);
        self.just_opened = false;
        proof {
            assert(self.out@ =~= old(self).out@ + old(self).prefix_for_open() + seq![
                '<' as u8,
            ] + tag.name_bytes() + tag.attr_bytes() + seq!['/' as u8, '>' as u8]);
        }
    }

    /// Closes the innermost open element, which must be the one named `name`:
    /// strict last-opened-first-closed nesting is enforced by this contract.
    /// An element closed immediately after opening closes on the same line.
    pub fn close_element(&mut self, name: &Vec<u8>)
        requires
            old(self).inv(),
            old(self).depth() > 0,
            old(self).open_elems().last() == name@,
        ensures
            final(self).inv(),
            final(self).bytes() == old(self).bytes() + (if old(self).at_fresh_open() {
                Seq::<u8>::empty()
            } else {
                break_indent(old(self).depth() - 1)
            }) + seq!['<' as u8, '/' as u8] + name@ + seq!['>' as u8],
            final(self).open_elems() == old(self).open_elems().drop_last(),
            !final(self).at_fresh_open(),
    {
        self.depth = self.depth - 1;
        proof {
            self.open_names@ = old(self).open_names@.drop_last();
        }
        if !self.just_opened {
            self.emit_indent();
        }
        self.out.push('<' as u8);
        self.out.push('/' as u8);
        append_bytes(&mut self.out, name);
        self.out.push('>' as u8);
        self.just_opened = false;
        proof {
            assert(self.out@ =~= old(self).out@ + (if old(self).at_fresh_open() {
                Seq::<u8>::empty()
            } else {
                break_indent(old(self).depth() - 1)
            }) + seq!['<' as u8, '/' as u8] + name@ + seq!['>' as u8]);
        }
    }

    /// Hands the finished document over.
    pub fn into_bytes(self) -> (r: Vec<u8>)
        ensures
            r@ == self.bytes(),
    {
        self.out
    }
}

} // verus!
