//! The ontology model: an interning identifier registry, cheap IRI handles,
//! an ontology identity with optional primary and version identifiers, and
//! the set of declared classes.

use vstd::prelude::*;
use crate::literals::bytes_eq;
use crate::order::deep;

verus! {

/// An interned identifier handle: a cheap stand-in for one IRI string of the
/// registry it was produced by. Within one registry, two handles are equal
/// iff their resolved strings are equal.
#[derive(Clone, Copy, PartialEq, Eq, Structural, Debug)]
pub struct IRI {
    index: usize,
}

impl IRI {
    pub closed spec fn idx(self) -> int {
        self.index as int
    }
}

/// A declared class: an entity declaration naming its IRI.
#[derive(Clone, Copy, PartialEq, Eq, Structural, Debug)]
pub struct Class(pub IRI);

/// The identity of an ontology: an optional primary identifier and an
/// optional version identifier. Either may be absent.
#[derive(Clone, Copy)]
pub struct OntologyID {
    pub iri: Option<IRI>,
    pub viri: Option<IRI>,
}

/// An ontology: its interning registry of IRI strings, its identity, and its
/// declared classes. The declared-class storage has no meaningful order; the
/// serializer may not rely on it.
pub struct Ontology {
    pub strings: Vec<Vec<u8>>,
    pub id: OntologyID,
    pub class: Vec<Class>,
}

impl Ontology {
    /// The interned strings, by handle index.
    pub open spec fn strs(self) -> Seq<Seq<u8>> {
        deep(self.strings@)
    }

    /// The declared classes, in storage order.
    pub open spec fn classes(self) -> Seq<Class> {
        self.class@
    }

    /// Interning is one-to-one and each class is declared at most once.
    pub open spec fn wf(self) -> bool {
        &&& forall|i: int, j: int|
            0 <= i < j < self.strs().len() ==> self.strs()[i] != self.strs()[j]
        &&& forall|i: int, j: int|
            0 <= i < j < self.classes().len() ==> self.classes()[i] != self.classes()[j]
    }

    /// The handle was produced by this ontology's registry.
    pub open spec fn resolvable_handle(self, h: IRI) -> bool {
        0 <= h.idx() < self.strs().len()
    }

    /// The string a handle stands for.
    pub open spec fn resolve(self, h: IRI) -> Seq<u8> {
        self.strs()[h.idx()]
    }

    pub open spec fn opt_resolvable(self, o: Option<IRI>) -> bool {
        o matches Some(h) ==> self.resolvable_handle(h)
    }

    /// Every handle the ontology holds resolves against its own registry.
    pub open spec fn resolvable(self) -> bool {
        &&& self.opt_resolvable(self.id.iri)
        &&& self.opt_resolvable(self.id.viri)
        &&& forall|i: int|
            0 <= i < self.classes().len() ==> self.resolvable_handle(
                #[trigger] self.classes()[i].0,
            )
    }

    pub open spec fn opt_str(self, o: Option<IRI>) -> Option<Seq<u8>> {
        match o {
            Some(h) => Some(self.resolve(h)),
            None => None,
        }
    }

    /// The resolved primary identifier, when present.
    pub open spec fn primary_str(self) -> Option<Seq<u8>> {
        self.opt_str(self.id.iri)
    }

    /// The resolved version identifier, when present.
    pub open spec fn version_str(self) -> Option<Seq<u8>> {
        self.opt_str(self.id.viri)
    }

    /// The resolved strings of the declared classes, in storage order.
    pub open spec fn class_strs(self) -> Seq<Seq<u8>> {
        self.classes().map_values(|c: Class| self.resolve(c.0))
    }

    /// A fresh, empty ontology: no identity, nothing declared.
    pub fn new() -> (o: Ontology)
        ensures
            o.wf(),
            o.strs() == Seq::<Seq<u8>>::empty(),
            o.classes() == Seq::<Class>::empty(),
            o.id.iri is None,
            o.id.viri is None,
    {
        let o = Ontology {
            strings: Vec::new(),
            id: OntologyID { iri: None, viri: None },
            class: Vec::new(),
        };
        proof {
            assert(o.strs() =~= Seq::<Seq<u8>>::empty());
            assert(o.classes() =~= Seq::<Class>::empty());
        }
        o
    }

    /// Interns a string: returns the existing handle when the string is
    /// already registered, otherwise registers it under a fresh handle.
    /// Either way the handle resolves to exactly the given string.
    pub fn iri(&mut self, s: Vec<u8>) -> (h: IRI)
        requires
            old(self).wf(),
        ensures
            final(self).wf(),
            final(self).id == old(self).id,
            final(self).classes() == old(self).classes(),
            final(self).resolvable_handle(h),
            final(self).resolve(h) == s@,
            old(self).strs().contains(s@) ==> *final(self) == *old(self),
            !old(self).strs().contains(s@) ==> final(self).strs() == old(self).strs().push(
                s@,
            ),
    {
        let mut i: usize = 0;
        while i < self.strings.len()
            invariant
                old(self).wf(),
                *self == *old(self),
                i <= self.strings@.len(),
                forall|k: int| 0 <= k < i ==> self.strs()[k] != s@,
        decreases self.strings@.len() - i,
        {
            if bytes_eq(&self.strings[i], &s) {
                proof {
                    assert(self.strs()[i as int] == s@);
                }
                return IRI { index: i };
            }
            proof {
                assert(self.strs()[i as int] == self.strings@[i as int]@);
            }
            i = i + 1;
        }
        let index = self.strings.len();
        proof {
            assert(forall|k: int| 0 <= k < self.strs().len() ==> self.strs()[k] != s@);
        }
        self.strings.push(s);
        proof {
            assert(self.strs() =~= old(self).strs().push(s@));
            assert forall|a: int, b: int|
                0 <= a < b < self.strs().len() implies self.strs()[a] != self.strs()[b] by {
                if b < self.strs().len() - 1 {
                    assert(old(self).strs()[a] != old(self).strs()[b]);
                } else {
                    assert(self.strs()[b] == s@);
                    assert(old(self).strs()[a] != s@);
                }
            }
            assert forall|a: int, b: int|
                0 <= a < b < self.classes().len() implies self.classes()[a]
                != self.classes()[b] by {
                assert(self.classes() == old(self).classes());
                assert(old(self).classes()[a] != old(self).classes()[b]);
            }
        }
        IRI { index }
    }

    /// Declares a class: adds it to the declared set unless it is already
    /// there. Declaration order carries no meaning for serialization.
    pub fn declare(&mut self, c: Class)
        requires
            old(self).wf(),
        ensures
            final(self).wf(),
            final(self).id == old(self).id,
            final(self).strs() == old(self).strs(),
            old(self).classes().contains(c) ==> *final(self) == *old(self),
            !old(self).classes().contains(c) ==> final(self).classes() == old(
                self,
            ).classes().push(c),
    {
        let mut i: usize = 0;
        while i < self.class.len()
            invariant
                old(self).wf(),
                *self == *old(self),
                i <= self.class@.len(),
                forall|k: int| 0 <= k < i ==> self.classes()[k] != c,
            decreases self.class@.len() - i,
        {
            if self.class[i] == c {
                return ;
            }
            i = i + 1;
        }
        self.class.push(c);
        proof {
            assert(self.classes() =~= old(self).classes().push(c));
            assert forall|a: int, b: int|
                0 <= a < b < self.classes().len() implies self.classes()[a]
                != self.classes()[b] by {
                if b < self.classes().len() - 1 {
                    assert(old(self).classes()[a] != old(self).classes()[b]);
                } else {
                    assert(self.classes()[b] == c);
                    assert(old(self).classes()[a] != c);
                }
            }
            assert forall|a: int, b: int|
                0 <= a < b < self.strs().len() implies self.strs()[a] != self.strs()[b] by {
                assert(self.strs() == old(self).strs());
                assert(old(self).strs()[a] != old(self).strs()[b]);
            }
        }
    }

    /// Resolves a handle against this ontology's registry. A handle that was
    /// not produced by it is reported, never silently mapped.
    pub fn iri_to_str(&self, h: IRI) -> (r: Option<&Vec<u8>>)
        ensures
            r is Some <==> self.resolvable_handle(h),
            r matches Some(s) ==> s@ == self.resolve(h),
    {
        if h.index < self.strings.len() {
            proof {
                assert(self.strs()[h.idx()] == self.strings@[h.idx()]@);
            }
            Some(&self.strings[h.index])
        } else {
            None
        }
    }

    /// The declared classes as stored.
    pub fn declared(&self) -> (r: &Vec<Class>)
        ensures
            r@ == self.classes(),
    {
        &self.class
    }

    /// Handles are a faithful stand-in for strings: within one registry, two
    /// resolvable handles are equal exactly when their strings are equal.
    pub proof fn lemma_handle_eq(self, a: IRI, b: IRI)
        requires
            self.wf(),
            self.resolvable_handle(a),
            self.resolvable_handle(b),
        ensures
            (a == b) <==> (self.resolve(a) == self.resolve(b)),
    {
        if a.idx() < b.idx() {
            assert(self.strs()[a.idx()] != self.strs()[b.idx()]);
        } else if b.idx() < a.idx() {
            assert(self.strs()[b.idx()] != self.strs()[a.idx()]);
        }
    }
}

} // verus!
