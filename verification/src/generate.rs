//! The synthetic-ontology generator's computational core: exact base-10
//! integer parsing for the requested size, decimal rendering of class
//! numbers, and the builder that declares `https://www.example.com/o1` up to
//! `o{size}`.

use vstd::prelude::*;
use crate::literals::{append_bytes, class_prefix, spec_class_prefix};
use crate::model::{Class, Ontology};

verus! {

pub open spec fn is_digit(b: u8) -> bool {
    '0' as u8 <= b && b <= '9' as u8
}

pub open spec fn all_digits(s: Seq<u8>) -> bool {
    forall|i: int| 0 <= i < s.len() ==> is_digit(#[trigger] s[i])
}

/// The value of a digit string, most significant digit first.
pub open spec fn digits_val(s: Seq<u8>) -> int
    decreases s.len(),
{
    if s.len() == 0 {
        0
    } else {
        digits_val(s.drop_last()) * 10 + (s.last() - '0' as u8)
    }
}

/// The canonical decimal rendering of `n >= 0`: no sign, no leading zeros.
pub open spec fn dec_rep(n: int) -> Seq<u8>
    recommends
        n >= 0,
    decreases n,
{
    if n < 10 {
        seq![(48 + n) as u8]
    } else {
        dec_rep(n / 10).push((48 + n % 10) as u8)
    }
}

pub open spec fn pow10(n: int) -> int
    decreases n,
{
    if n <= 0 {
        1
    } else {
        10 * pow10(n - 1)
    }
}

/// The digits of an optionally signed integer literal.
pub open spec fn digits_part(s: Seq<u8>) -> Seq<u8> {
    if s.len() > 0 && (s[0] == '+' as u8 || s[0] == '-' as u8) {
        s.drop_first()
    } else {
        s
    }
}

pub open spec fn is_negative_literal(s: Seq<u8>) -> bool {
    s.len() > 0 && s[0] == '-' as u8
}

/// `s` is a base-10 integer literal: an optional sign, then one or more
/// digits.
pub open spec fn is_int_literal(s: Seq<u8>) -> bool {
    digits_part(s).len() > 0 && all_digits(digits_part(s))
}

pub open spec fn int_literal_value(s: Seq<u8>) -> int {
    if is_negative_literal(s) {
        -digits_val(digits_part(s))
    } else {
        digits_val(digits_part(s))
    }
}

pub proof fn lemma_pow10_mono(a: int, b: int)
    requires
        a <= b,
    ensures
        pow10(a) <= pow10(b),
        pow10(a) >= 1,
    decreases b,
{
    if b > 0 {
        if a == b {
            lemma_pow10_mono(a - 1, b - 1);
        } else {
            lemma_pow10_mono(a, b - 1);
        }
    }
}

/// A digit string's value is bounded by the power of ten of its length.
pub proof fn lemma_digits_val_upper(s: Seq<u8>)
    requires
        all_digits(s),
    ensures
        0 <= digits_val(s) < pow10(s.len() as int),
    decreases s.len(),
{
    if s.len() == 0 {
    } else {
        assert(all_digits(s.drop_last())) by {
            assert(forall|i: int|
                0 <= i < s.drop_last().len() ==> s.drop_last()[i] == #[trigger] s[i]);
        }
        lemma_digits_val_upper(s.drop_last());
        assert(pow10(s.len() as int) == 10 * pow10(s.len() - 1));
    }
}

/// Without a leading zero, a digit string's value reaches the power of ten
/// of its length less one.
pub proof fn lemma_digits_val_lower(s: Seq<u8>)
    requires
        all_digits(s),
        s.len() > 0,
        s[0] != '0' as u8,
    ensures
        digits_val(s) >= pow10(s.len() - 1),
    decreases s.len(),
{
    if s.len() == 1 {
        assert(digits_val(s.drop_last()) == 0);
    } else {
        assert(all_digits(s.drop_last())) by {
            assert(forall|i: int|
                0 <= i < s.drop_last().len() ==> s.drop_last()[i] == #[trigger] s[i]);
        }
        assert(s.drop_last()[0] == s[0]);
        lemma_digits_val_lower(s.drop_last());
        assert(pow10(s.len() - 1) == 10 * pow10(s.len() - 2));
    }
}

pub proof fn lemma_digits_val_all_zero(s: Seq<u8>)
    requires
        forall|i: int| 0 <= i < s.len() ==> #[trigger] s[i] == '0' as u8,
    ensures
        digits_val(s) == 0,
    decreases s.len(),
{
    if s.len() > 0 {
        assert(forall|i: int|
            0 <= i < s.drop_last().len() ==> #[trigger] s.drop_last()[i] == s[i]);
        lemma_digits_val_all_zero(s.drop_last());
    }
}

/// Leading zeros do not change a digit string's value.
pub proof fn lemma_digits_val_skip_zeros(s: Seq<u8>, k: int)
    requires
        0 <= k <= s.len(),
        forall|i: int| 0 <= i < k ==> #[trigger] s[i] == '0' as u8,
    ensures
        digits_val(s) == digits_val(s.skip(k)),
    decreases s.len(),
{
    if k == 0 {
        assert(s.skip(0) =~= s);
    } else if s.len() == k {
        assert(forall|i: int| 0 <= i < s.len() ==> #[trigger] s[i] == '0' as u8);
        lemma_digits_val_all_zero(s);
        assert(s.skip(k).len() == 0);
    } else {
        assert(s.skip(k).drop_last() =~= s.drop_last().skip(k));
        assert(forall|i: int|
            0 <= i < s.drop_last().len() ==> #[trigger] s.drop_last()[i] == s[i]);
        lemma_digits_val_skip_zeros(s.drop_last(), k);
        assert(s.skip(k).last() == s.last());
    }
}

/// `dec_rep` renders exactly the digit strings whose value is the rendered
/// number: reading it back yields `n`, and it never starts with a zero
/// unless it is `0` itself.
pub proof fn lemma_dec_rep_digits(n: int)
    requires
        n >= 0,
    ensures
        all_digits(dec_rep(n)),
        dec_rep(n).len() >= 1,
        digits_val(dec_rep(n)) == n,
        n >= 1 ==> dec_rep(n)[0] != '0' as u8,
    decreases n,
{
    if n < 10 {
        let s = dec_rep(n);
        assert(s.len() == 1);
        assert(s.last() == (48 + n) as u8);
        assert(s.last() - '0' as u8 == n);
        assert(s.drop_last() =~= Seq::<u8>::empty());
        assert(digits_val(s.drop_last()) == 0);
        assert(digits_val(s) == digits_val(s.drop_last()) * 10 + (s.last() - '0' as u8));
        assert(digits_val(s) == n);
    } else {
        lemma_dec_rep_digits(n / 10);
        let p = dec_rep(n / 10);
        let s = dec_rep(n);
        assert(s == p.push((48 + n % 10) as u8));
        assert(s.drop_last() =~= p);
        assert(s.last() == (48 + n % 10) as u8);
        assert(digits_val(s) == digits_val(p) * 10 + n % 10);
        assert(digits_val(s) == n);
        assert(forall|i: int| 0 <= i < p.len() ==> #[trigger] s[i] == p[i]);
        assert(s[0] == p[0]);
    }
}

/// Renders `n` in decimal.
pub fn fmt_u64(n: u64) -> (r: Vec<u8>)
    ensures
        r@ == dec_rep(n as int),
{
    let mut r: Vec<u8> = Vec::new();
    let d: u8 = (n % 10) as u8 + 48;
    r.push(d);
    let mut m: u64 = n / 10;
    proof {
        if m > 0 {
            assert(dec_rep(n as int) == dec_rep(n as int / 10).push((48 + n as int % 10) as u8));
            assert(dec_rep(m as int).push(d) =~= dec_rep(m as int) + r@);
            assert(dec_rep(n as int) == dec_rep(m as int) + r@);
        } else {
            assert(dec_rep(n as int) =~= r@);
        }
    }
    while m > 0
        invariant
            m > 0 ==> dec_rep(n as int) == dec_rep(m as int) + r@,
            m == 0 ==> dec_rep(n as int) == r@,
        decreases m,
    {
        let d: u8 = (m % 10) as u8 + 48;
        let ghost prev = r@;
        r.insert(0, d);
        proof {
            assert(r@ =~= seq![d] + prev);
        }
        let next: u64 = m / 10;
        proof {
            if m >= 10 {
                assert(dec_rep(m as int) == dec_rep(m as int / 10).push((48 + m as int % 10) as u8));
                assert(dec_rep(next as int).push(d) =~= dec_rep(next as int) + seq![d]);
                assert(dec_rep(n as int) == dec_rep(next as int) + r@) by {
                    assert((dec_rep(next as int) + seq![d]) + prev =~= dec_rep(next as int) + (
                    seq![d] + prev));
                }
            } else {
                assert(dec_rep(m as int) =~= seq![d]);
                assert(dec_rep(n as int) == r@) by {
                    assert(seq![d] + prev =~= r@);
                }
            }
        }
        m = next;
    }
    r
}

/// Parses an optionally signed base-10 integer, exactly as the generator's
/// command line requires: `Some` exactly on well-formed literals whose value
/// fits, and then the value itself.
pub fn parse_size(s: &Vec<u8>) -> (r: Option<i64>)
    ensures
        r is Some <==> (is_int_literal(s@) && i64::MIN <= int_literal_value(s@)
            <= i64::MAX),
        r matches Some(v) ==> v == int_literal_value(s@),
{
    let mut start: usize = 0;
    let mut neg = false;
    if s.len() > 0 && (s[0] == '+' as u8 || s[0] == '-' as u8) {
        neg = s[0] == '-' as u8;
        start = 1;
    }
    let ghost d = digits_part(s@);
    proof {
        assert(d =~= s@.skip(start as int));
    }
    if start >= s.len() {
        return None;
    }
    let mut i: usize = start;
    while i < s.len()
        invariant
            start <= i <= s@.len(),
            d == s@.skip(start as int),
            digits_part(s@) == s@.skip(start as int),
            forall|k: int| start <= k < i ==> is_digit(#[trigger] s@[k]),
        decreases s@.len() - i,
    {
        let b = s[i];
        if b < 48 || b > 57 {
            proof {
                assert(digits_part(s@) == s@.skip(start as int));
                assert(digits_part(s@)[i - start as int] == s@[i as int]);
                assert(!is_digit(digits_part(s@)[i - start as int]));
                assert(!all_digits(digits_part(s@)));
            }
            return None;
        }
        i = i + 1;
    }
    proof {
        assert(all_digits(d)) by {
            assert(forall|k: int| 0 <= k < d.len() ==> d[k] == #[trigger] s@[k + start as int]);
        }
        assert(is_int_literal(s@));
    }
    // skip leading zeros to bound the significant width
    let mut z: usize = start;
    while z < s.len() && s[z] == 48
        invariant
            start <= z <= s@.len(),
            forall|k: int| start <= k < z ==> #[trigger] s@[k] == '0' as u8,
        decreases s@.len() - z,
    {
        z = z + 1;
    }
    let ghost sig = s@.skip(z as int);
    proof {
        assert(sig =~= d.skip(z - start as int));
        assert(forall|k: int| 0 <= k < z - start as int ==> #[trigger] d[k] == '0' as u8);
        lemma_digits_val_skip_zeros(d, z - start as int);
        assert(digits_val(d) == digits_val(sig));
        assert(all_digits(sig)) by {
            assert(forall|k: int| 0 <= k < sig.len() ==> sig[k] == #[trigger] s@[k + z as int]);
        }
    }
    if s.len() - z > 19 {
        proof {
            assert(sig[0] == s@[z as int]);
            assert(sig[0] != '0' as u8);
            lemma_digits_val_lower(sig);
            lemma_pow10_mono(19, sig.len() - 1);
            assert(pow10(19) == 10000000000000000000) by {
                reveal_with_fuel(pow10, 21);
            }
            assert(digits_val(sig) >= 10000000000000000000);
        }
        return None;
    }
    let mut acc: u64 = 0;
    let mut j: usize = z;
    proof {
        assert(s@.subrange(z as int, z as int) =~= Seq::<u8>::empty());
        assert(pow10(0) == 1);
    }
    while j < s.len()
        invariant
            z <= j <= s@.len(),
            s@.len() - z <= 19,
            forall|k: int| z <= k < s@.len() ==> is_digit(#[trigger] s@[k]),
            acc == digits_val(s@.subrange(z as int, j as int)),
            acc < pow10(j - z as int),
        decreases s@.len() - j,
    {
        let b = s[j];
        let ghost pre = s@.subrange(z as int, j as int);
        proof {
            lemma_pow10_mono(j - z as int, 18);
            assert(pow10(19) == 10 * pow10(18));
            assert(pow10(19) == 10000000000000000000) by {
                reveal_with_fuel(pow10, 21);
            }
        }
        acc = acc * 10 + ((b - 48) as u64);
        proof {
            let post = s@.subrange(z as int, j as int + 1);
            assert(post.drop_last() =~= pre);
            assert(post.last() == s@[j as int]);
            assert(digits_val(post) == digits_val(pre) * 10 + (s@[j as int] - '0' as u8));
            assert(pow10(j + 1 - z as int) == 10 * pow10(j - z as int));
        }
        j = j + 1;
    }
    proof {
        assert(s@.subrange(z as int, s@.len() as int) =~= sig);
        assert(acc == digits_val(sig));
        assert(digits_val(d) == acc);
        lemma_digits_val_upper(d);
    }
    if neg {
        if acc > 9223372036854775808u64 {
            return None;
        }
        if acc == 9223372036854775808u64 {
            return Some(i64::MIN);
        }
        Some(-(acc as i64))
    } else {
        if acc > 9223372036854775807u64 {
            return None;
        }
        Some(acc as i64)
    }
}

/// The IRI of the `i`-th generated class.
pub open spec fn spec_gen_iri(i: int) -> Seq<u8> {
    spec_class_prefix() + dec_rep(i)
}

/// Distinct class numbers give distinct generated IRIs.
pub proof fn lemma_gen_iri_injective(a: int, b: int)
    requires
        a >= 0,
        b >= 0,
        spec_gen_iri(a) == spec_gen_iri(b),
    ensures
        a == b,
{
    lemma_dec_rep_digits(a);
    lemma_dec_rep_digits(b);
    let p = spec_class_prefix().len() as int;
    assert(dec_rep(a) =~= spec_gen_iri(a).skip(p));
    assert(dec_rep(b) =~= spec_gen_iri(b).skip(p));
    assert(digits_val(dec_rep(a)) == digits_val(dec_rep(b)));
}

/// Builds the synthetic ontology: no identity, and exactly the classes
/// `https://www.example.com/o1` up to `o{size}`, in that declaration order
/// (none at all when `size < 1`).
pub fn big_ontology(size: i64) -> (o: Ontology)
    ensures
        o.wf(),
        o.resolvable(),
        o.id.iri is None,
        o.id.viri is None,
        o.class_strs() == Seq::new(
            (if size < 1 {
                0
            } else {
                size
            }) as nat,
            |k: int| spec_gen_iri(k + 1),
        ),
{
    let mut o = Ontology::new();
    if size < 1 {
        proof {
            assert(o.class_strs() =~= Seq::new(0nat, |k: int| spec_gen_iri(k + 1)));
        }
        return o;
    }
    let count: u64 = size as u64;
    let mut i: u64 = 1;
    while i <= count
        invariant
            count == size as u64,
            1 <= size,
            1 <= i <= count + 1,
            o.wf(),
            o.resolvable(),
            o.id.iri is None,
            o.id.viri is None,
            o.strs() == Seq::new((i - 1) as nat, |k: int| spec_gen_iri(k + 1)),
            o.classes().len() == i - 1,
            o.class_strs() == Seq::new((i - 1) as nat, |k: int| spec_gen_iri(k + 1)),
        decreases count + 1 - i,
    {
        let mut iri_bytes = class_prefix();
        let digits = fmt_u64(i);
        append_bytes(&mut iri_bytes, &digits);
        proof {
            assert(iri_bytes@ == spec_gen_iri(i as int));
            assert forall|k: int| 0 <= k < o.strs().len() implies o.strs()[k]
                != iri_bytes@ by {
                if o.strs()[k] == spec_gen_iri(i as int) {
                    lemma_gen_iri_injective(k + 1, i as int);
                }
            }
            assert(!o.strs().contains(iri_bytes@));
        }
        let ghost pre = o;
        let h = o.iri(iri_bytes);
        proof {
            assert(o.strs() == pre.strs().push(spec_gen_iri(i as int)));
            assert(o.strs() =~= Seq::new(i as nat, |k: int| spec_gen_iri(k + 1)));
            // the new handle's class is not yet declared
            assert forall|k: int| 0 <= k < o.classes().len() implies o.classes()[k]
                != Class(h) by {
                assert(o.resolve(o.classes()[k].0) == pre.class_strs()[k]);
                assert(pre.class_strs()[k] == spec_gen_iri(k + 1));
                if o.classes()[k].0 == h {
                    lemma_gen_iri_injective(k + 1, i as int);
                }
            }
            assert(!o.classes().contains(Class(h)));
        }
        let ghost mid = o;
        o.declare(Class(h));
        proof {
            assert(o.classes() == mid.classes().push(Class(h)));
            assert forall|k: int| 0 <= k < o.class_strs().len() implies o.class_strs()[k]
                == Seq::new(i as nat, |k2: int| spec_gen_iri(k2 + 1))[k] by {
                if k < i - 1 {
                    assert(o.classes()[k] == mid.classes()[k]);
                    assert(o.resolve(o.classes()[k].0) == mid.class_strs()[k]);
                } else {
                    assert(o.classes()[k] == Class(h));
                    assert(o.resolve(h) == spec_gen_iri(i as int));
                }
            }
            assert(o.class_strs() =~= Seq::new(i as nat, |k: int| spec_gen_iri(k + 1)));
        }
        i = i + 1;
    }
    o
}

} // verus!
