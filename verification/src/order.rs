//! Ascending lexicographic (byte-value) ordering of byte strings, and a
//! verified insertion sort: the device that makes emission deterministic even
//! though the declared-class storage has no meaningful order.

use vstd::prelude::*;
use vstd::relations::{sorted_by, total_ordering};
use vstd::seq_lib::{lemma_multiset_commutative, lemma_sorted_unique};
use vstd::assert_multisets_equal;
use vstd::multiset::Multiset;
use crate::literals::clone_bytes;

verus! {

/// Ascending lexicographic order on byte strings: a prefix sorts before its
/// extensions, and otherwise the first differing byte decides.
pub open spec fn lex_le(a: Seq<u8>, b: Seq<u8>) -> bool
    decreases a.len(),
{
    if a.len() == 0 {
        true
    } else if b.len() == 0 {
        false
    } else if a[0] < b[0] {
        true
    } else if a[0] > b[0] {
        false
    } else {
        lex_le(a.drop_first(), b.drop_first())
    }
}

/// `lex_le` as a relation value, in the shape vstd's ordering lemmas expect.
pub open spec fn lex_leq() -> spec_fn(Seq<u8>, Seq<u8>) -> bool {
    |a: Seq<u8>, b: Seq<u8>| lex_le(a, b)
}

pub proof fn lemma_lex_refl(a: Seq<u8>)
    ensures
        lex_le(a, a),
    decreases a.len(),
{
    if a.len() > 0 {
        lemma_lex_refl(a.drop_first());
    }
}

pub proof fn lemma_lex_connected(a: Seq<u8>, b: Seq<u8>)
    ensures
        lex_le(a, b) || lex_le(b, a),
    decreases a.len(),
{
    if a.len() > 0 && b.len() > 0 && a[0] == b[0] {
        lemma_lex_connected(a.drop_first(), b.drop_first());
    }
}

pub proof fn lemma_lex_antisym(a: Seq<u8>, b: Seq<u8>)
    requires
        lex_le(a, b),
        lex_le(b, a),
    ensures
        a == b,
    decreases a.len(),
{
    if a.len() == 0 {
        assert(b.len() == 0);
        assert(a =~= b);
    } else {
        assert(b.len() > 0);
        assert(a[0] == b[0]);
        lemma_lex_antisym(a.drop_first(), b.drop_first());
        assert(a.len() == b.len());
        assert forall|i: int| 0 <= i < a.len() implies a[i] == b[i] by {
            if i > 0 {
                assert(a.drop_first()[i - 1] == b.drop_first()[i - 1]);
            }
        }
        assert(a =~= b);
    }
}

pub proof fn lemma_lex_trans(a: Seq<u8>, b: Seq<u8>, c: Seq<u8>)
    requires
        lex_le(a, b),
        lex_le(b, c),
    ensures
        lex_le(a, c),
    decreases a.len(),
{
    if a.len() > 0 && b.len() > 0 && c.len() > 0 && a[0] == b[0] && b[0] == c[0] {
        lemma_lex_trans(a.drop_first(), b.drop_first(), c.drop_first());
    }
}

/// Lexicographic order is a total order, so sorting by it has a unique result.
pub proof fn lemma_lex_total_ordering()
    ensures
        total_ordering(lex_leq()),
{
    assert forall|x: Seq<u8>| #[trigger] lex_leq()(x, x) by {
        lemma_lex_refl(x);
    }
    assert forall|x: Seq<u8>, y: Seq<u8>| #[trigger] lex_leq()(x, y) && #[trigger] lex_leq()(y, x)
        implies x == y by {
        lemma_lex_antisym(x, y);
    }
    assert forall|x: Seq<u8>, y: Seq<u8>, z: Seq<u8>|
        #[trigger] lex_leq()(x, y) && #[trigger] lex_leq()(y, z) implies lex_leq()(x, z) by {
        lemma_lex_trans(x, y, z);
    }
    assert forall|x: Seq<u8>, y: Seq<u8>| #[trigger] lex_leq()(x, y) || #[trigger] lex_leq()(y,
        x) by {
        lemma_lex_connected(x, y);
    }
}

/// Compares two byte strings in ascending lexicographic order.
pub fn bytes_le(a: &Vec<u8>, b: &Vec<u8>) -> (r: bool)
    ensures
        r == lex_le(a@, b@),
{
    let mut i: usize = 0;
    proof {
        assert(a@.skip(0) =~= a@);
        assert(b@.skip(0) =~= b@);
    }
    while i < a.len() && i < b.len()
        invariant
            i <= a.len(),
            i <= b.len(),
            lex_le(a@, b@) == lex_le(a@.skip(i as int), b@.skip(i as int)),
        decreases a.len() - i,
    {
        proof {
            assert(a@.skip(i as int)[0] == a@[i as int]);
            assert(b@.skip(i as int)[0] == b@[i as int]);
        }
        if a[i] < b[i] {
            return true;
        }
        if a[i] > b[i] {
            return false;
        }
        proof {
            assert(a@.skip(i as int).drop_first() =~= a@.skip(i as int + 1));
            assert(b@.skip(i as int).drop_first() =~= b@.skip(i as int + 1));
        }
        i = i + 1;
    }
    if i >= a.len() {
        proof {
            assert(a@.skip(i as int).len() == 0);
        }
        true
    } else {
        proof {
            assert(a@.skip(i as int).len() > 0);
            assert(b@.skip(i as int).len() == 0);
        }
        false
    }
}

/// The sequence of views of a list of byte strings.
pub open spec fn deep(s: Seq<Vec<u8>>) -> Seq<Seq<u8>> {
    Seq::new(s.len(), |i: int| s[i]@)
}

/// Finds the first position of `out` whose string does not sort at or before
/// `x`; inserting `x` there keeps `out` sorted.
fn find_insert_pos(out: &Vec<Vec<u8>>, x: &Vec<u8>) -> (j: usize)
    ensures
        j <= out@.len(),
        forall|k: int| 0 <= k < j ==> lex_le(#[trigger] deep(out@)[k], x@),
        j < out@.len() ==> !lex_le(deep(out@)[j as int], x@),
{
    let mut j: usize = 0;
    while j < out.len()
        invariant
            j <= out.len(),
            forall|k: int| 0 <= k < j ==> lex_le(#[trigger] deep(out@)[k], x@),
        decreases out.len() - j,
    {
        if !bytes_le(&out[j], x) {
            return j;
        }
        proof {
            assert(deep(out@)[j as int] == out@[j as int]@);
        }
        j = j + 1;
    }
    j
}

/// Sorts byte strings into ascending lexicographic order. The result is the
/// one sorted arrangement of the input, so it depends only on the multiset of
/// strings, never on the order they arrived in.
pub fn sort_strings(v: Vec<Vec<u8>>) -> (r: Vec<Vec<u8>>)
    ensures
        deep(r@) == deep(v@).sort_by(lex_leq()),
        r@.len() == v@.len(),
{
    proof {
        lemma_lex_total_ordering();
    }
    let mut out: Vec<Vec<u8>> = Vec::new();
    let mut i: usize = 0;
    proof {
        assert(deep(out@) =~= deep(v@.take(0)));
    }
    while i < v.len()
        invariant
            i <= v.len(),
            out@.len() == i,
            sorted_by(deep(out@), lex_leq()),
            deep(out@).to_multiset() == deep(v@.take(i as int)).to_multiset(),
        decreases v.len() - i,
    {
        let x = clone_bytes(&v[i]);
        let j = find_insert_pos(&out, &x);
        let ghost s = deep(out@);
        let ghost xv = x@;
        out.insert(j, x);
        proof {
            lemma_lex_total_ordering();
            s.insert_ensures(j as int, xv);
            assert(deep(out@) =~= s.insert(j as int, xv));
            let t = s.insert(j as int, xv);
            // sortedness of the new arrangement
            assert forall|p: int, q: int| 0 <= p < q < t.len() implies #[trigger] lex_leq()(
                t[p],
                t[q],
            ) by {
                if q < j {
                    assert(lex_leq()(s[p], s[q]));
                } else if q == j {
                    assert(t[q] == xv);
                    assert(lex_le(s[p], xv));
                } else if p < j {
                    assert(t[q] == s[q - 1]);
                    assert(lex_leq()(s[p], s[q - 1]));
                } else if p == j {
                    assert(t[p] == xv);
                    assert(t[q] == s[q - 1]);
                    assert(!lex_le(s[j as int], xv));
                    lemma_lex_connected(s[j as int], xv);
                    if j < q - 1 {
                        assert(lex_leq()(s[j as int], s[q - 1]));
                        lemma_lex_trans(xv, s[j as int], s[q - 1]);
                    }
                } else {
                    assert(t[p] == s[p - 1]);
                    assert(t[q] == s[q - 1]);
                    assert(lex_leq()(s[p - 1], s[q - 1]));
                }
            }
            // the multiset gains exactly the new string
            assert(t =~= s.take(j as int) + (seq![xv] + s.skip(j as int)));
            assert(s =~= s.take(j as int) + s.skip(j as int));
            lemma_multiset_commutative(s.take(j as int), seq![xv] + s.skip(j as int));
            lemma_multiset_commutative(seq![xv], s.skip(j as int));
            lemma_multiset_commutative(s.take(j as int), s.skip(j as int));
            assert(seq![xv] =~= Seq::<Seq<u8>>::empty().push(xv));
            Seq::<Seq<u8>>::empty().to_multiset_ensures();
            assert(seq![xv].to_multiset() =~= Multiset::<Seq<u8>>::empty().insert(xv));
            assert_multisets_equal!(t.to_multiset(), s.to_multiset().insert(xv));
            // the processed prefix gains exactly the same string
            assert(v@.take(i as int).push(v@[i as int]) =~= v@.take(i as int + 1));
            assert(deep(v@.take(i as int)).push(v@[i as int]@) =~= deep(
                v@.take(i as int + 1),
            ));
            deep(v@.take(i as int)).to_multiset_ensures();
            assert(deep(out@).to_multiset() =~= deep(v@.take(i as int + 1)).to_multiset());
        }
        i = i + 1;
    }
    proof {
        assert(v@.take(v@.len() as int) =~= v@);
        deep(v@).lemma_sort_by_ensures(lex_leq());
        lemma_sorted_unique(deep(out@), deep(v@).sort_by(lex_leq()), lex_leq());
    }
    out
}

} // verus!
