//! Standard XML attribute escaping of reserved bytes, with an inverse used to
//! state that an escaped attribute value can be read back unchanged.

use vstd::prelude::*;
use crate::literals::{
    amp_esc, append_bytes, apos_esc, gt_esc, lt_esc, quot_esc, spec_amp_esc, spec_apos_esc,
    spec_gt_esc, spec_lt_esc, spec_quot_esc,
};

verus! {

/// True of the bytes that XML attribute escaping rewrites.
pub open spec fn is_reserved(b: u8) -> bool {
    b == '&' as u8 || b == '<' as u8 || b == '>' as u8 || b == '"' as u8 || b == '\'' as u8
}

/// The escaped form of one byte.
pub open spec fn esc1(b: u8) -> Seq<u8> {
    if b == '&' as u8 {
        spec_amp_esc()
    } else if b == '<' as u8 {
        spec_lt_esc()
    } else if b == '>' as u8 {
        spec_gt_esc()
    } else if b == '"' as u8 {
        spec_quot_esc()
    } else if b == '\'' as u8 {
        spec_apos_esc()
    } else {
        seq![b]
    }
}

/// Standard XML attribute escaping of a byte string.
pub open spec fn esc(s: Seq<u8>) -> Seq<u8>
    decreases s.len(),
{
    if s.len() == 0 {
        Seq::empty()
    } else {
        esc1(s[0]) + esc(s.drop_first())
    }
}

pub proof fn lemma_esc_snoc(s: Seq<u8>, b: u8)
    ensures
        esc(s.push(b)) == esc(s) + esc1(b),
    decreases s.len(),
{
    if s.len() == 0 {
        assert(s.push(b)[0] == b);
        assert(s.push(b).drop_first() =~= Seq::<u8>::empty());
        assert(esc(s.push(b)) == esc1(b) + esc(Seq::<u8>::empty()));
        assert(esc1(b) + Seq::<u8>::empty() =~= esc1(b));
        assert(esc(s) + esc1(b) =~= esc1(b));
    } else {
        assert(s.push(b).drop_first() =~= s.drop_first().push(b));
        assert(s.push(b)[0] == s[0]);
        lemma_esc_snoc(s.drop_first(), b);
        assert(esc(s.push(b)) =~= esc(s) + esc1(b));
    }
}

/// Escaped text never contains a raw quote or a raw opening angle bracket:
/// the bytes that delimit attribute values and tags come only from the markup
/// itself, never from an attribute value.
pub proof fn lemma_esc_no_quote_lt(s: Seq<u8>)
    ensures
        forall|j: int|
            0 <= j < esc(s).len() ==> esc(s)[j] != '"' as u8 && esc(s)[j] != '<' as u8,
    decreases s.len(),
{
    if s.len() == 0 {
    } else {
        lemma_esc_no_quote_lt(s.drop_first());
        let e1 = esc1(s[0]);
        assert forall|j: int|
            0 <= j < esc(s).len() implies esc(s)[j] != '"' as u8 && esc(s)[j] != '<' as u8 by {
            if j < e1.len() {
                assert(esc(s)[j] == e1[j]);
            } else {
                assert(esc(s)[j] == esc(s.drop_first())[j - e1.len()]);
            }
        }
    }
}

/// Appends the escaped form of `s` onto `dst`.
pub fn escape_into(dst: &mut Vec<u8>, s: &Vec<u8>)
    ensures
        final(dst)@ == old(dst)@ + esc(s@),
{
    proof {
        assert(dst@ =~= old(dst)@ + esc(s@.take(0)));
    }
    let mut i: usize = 0;
    while i < s.len()
        invariant
            i <= s.len(),
            dst@ == old(dst)@ + esc(s@.take(i as int)),
        decreases s.len() - i,
    {
        let b = s[i];
        if b == '&' as u8 {
            let t = amp_esc();
            append_bytes(dst, &t);
        } else if b == '<' as u8 {
            let t = lt_esc();
            append_bytes(dst, &t);
        } else if b == '>' as u8 {
            let t = gt_esc();
            append_bytes(dst, &t);
        } else if b == '"' as u8 {
            let t = quot_esc();
            append_bytes(dst, &t);
        } else if b == '\'' as u8 {
            let t = apos_esc();
            append_bytes(dst, &t);
        } else {
            dst.push(b);
        }
        proof {
            assert(s@.take(i as int).push(s@[i as int]) =~= s@.take(i as int + 1));
            lemma_esc_snoc(s@.take(i as int), s@[i as int]);
            assert(dst@ =~= old(dst)@ + esc(s@.take(i as int + 1)));
        }
        i = i + 1;
    }
    proof {
        assert(s@.take(s@.len() as int) =~= s@);
    }
}

/// The inverse of `esc`: greedily rewrites escape sequences back to the bytes
/// they stand for.
pub open spec fn unesc(s: Seq<u8>) -> Seq<u8>
    decreases s.len(),
{
    if s.len() == 0 {
        Seq::empty()
    } else if s.len() >= 5 && s.take(5) == spec_amp_esc() {
        seq!['&' as u8] + unesc(s.skip(5))
    } else if s.len() >= 4 && s.take(4) == spec_lt_esc() {
        seq!['<' as u8] + unesc(s.skip(4))
    } else if s.len() >= 4 && s.take(4) == spec_gt_esc() {
        seq!['>' as u8] + unesc(s.skip(4))
    } else if s.len() >= 6 && s.take(6) == spec_quot_esc() {
        seq!['"' as u8] + unesc(s.skip(6))
    } else if s.len() >= 6 && s.take(6) == spec_apos_esc() {
        seq!['\'' as u8] + unesc(s.skip(6))
    } else {
        seq![s[0]] + unesc(s.drop_first())
    }
}

/// Escaping loses nothing: unescaping an escaped string restores it exactly.
pub proof fn lemma_unesc_esc(s: Seq<u8>)
    ensures
        unesc(esc(s)) == s,
    decreases s.len(),
{
    if s.len() == 0 {
        assert(unesc(esc(s)) =~= s);
    } else {
        let b = s[0];
        let rest = s.drop_first();
        lemma_unesc_esc(rest);
        let e = esc(s);
        assert(e == esc1(b) + esc(rest));
        if b == '&' as u8 {
            assert(e.take(5) =~= spec_amp_esc());
            assert(e.skip(5) =~= esc(rest));
            assert(unesc(e) =~= s);
        } else if b == '<' as u8 {
            if e.len() >= 5 {
                assert(e.take(5)[1] == 'l' as u8);
                assert(e.take(5) != spec_amp_esc());
            }
            assert(e.take(4) =~= spec_lt_esc());
            assert(e.skip(4) =~= esc(rest));
            assert(unesc(e) =~= s);
        } else if b == '>' as u8 {
            if e.len() >= 5 {
                assert(e.take(5)[1] == 'g' as u8);
                assert(e.take(5) != spec_amp_esc());
            }
            assert(e.take(4)[1] == 'g' as u8);
            assert(e.take(4) != spec_lt_esc());
            assert(e.take(4) =~= spec_gt_esc());
            assert(e.skip(4) =~= esc(rest));
            assert(unesc(e) =~= s);
        } else if b == '"' as u8 {
            assert(e.take(5)[1] == 'q' as u8);
            assert(e.take(5) != spec_amp_esc());
            assert(e.take(4)[1] == 'q' as u8);
            assert(e.take(4) != spec_lt_esc());
            assert(e.take(4) != spec_gt_esc());
            assert(e.take(6) =~= spec_quot_esc());
            assert(e.skip(6) =~= esc(rest));
            assert(unesc(e) =~= s);
        } else if b == '\'' as u8 {
            assert(e.take(5)[2] == 'p' as u8);
            assert(e.take(5) != spec_amp_esc());
            assert(e.take(4)[1] == 'a' as u8);
            assert(e.take(4) != spec_lt_esc());
            assert(e.take(4) != spec_gt_esc());
            assert(e.take(6)[1] == 'a' as u8);
            assert(e.take(6) != spec_quot_esc());
            assert(e.take(6) =~= spec_apos_esc());
            assert(e.skip(6) =~= esc(rest));
            assert(unesc(e) =~= s);
        } else {
            if e.len() >= 5 {
                assert(e.take(5)[0] == b);
                assert(e.take(5) != spec_amp_esc());
            }
            if e.len() >= 4 {
                assert(e.take(4)[0] == b);
                assert(e.take(4) != spec_lt_esc());
                assert(e.take(4) != spec_gt_esc());
            }
            if e.len() >= 6 {
                assert(e.take(6)[0] == b);
                assert(e.take(6) != spec_quot_esc());
                assert(e.take(6) != spec_apos_esc());
            }
            assert(e.drop_first() =~= esc(rest));
            assert(unesc(e) =~= s);
        }
    }
}

} // verus!
