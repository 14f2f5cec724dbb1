//! The order of terms.
//!
//! Terms are ordered as strings are: lexicographically by the bytes of
//! their UTF-8 encoding. A term that is a proper prefix of another comes
//! first.

use vstd::prelude::*;
use vstd::utf8::encode_utf8;

verus! {

/// Lexicographic order on byte strings.
pub open spec fn lex_less(a: Seq<u8>, b: Seq<u8>) -> bool
    decreases a.len(),
{
    if b.len() == 0 {
        false
    } else if a.len() == 0 {
        true
    } else if a[0] != b[0] {
        a[0] < b[0]
    } else {
        lex_less(a.drop_first(), b.drop_first())
    }
}

/// Whether term `a` comes strictly before term `b`.
pub open spec fn term_less(a: Seq<char>, b: Seq<char>) -> bool {
    lex_less(encode_utf8(a), encode_utf8(b))
}

/// Strictly ascending by term: nothing occurs twice and smaller terms come
/// first.
pub open spec fn terms_ascending(terms: Seq<Seq<char>>) -> bool {
    forall|i: int, j: int| 0 <= i < j < terms.len() ==> term_less(terms[i], terms[j])
}

/// How one term stands to another.
#[derive(Clone, Copy, Debug, PartialEq, Eq)]
pub enum TermOrder {
    Before,
    Same,
    After,
}

/// No byte string is less than itself.
pub proof fn lemma_lex_irreflexive(a: Seq<u8>)
    ensures
        !lex_less(a, a),
    decreases a.len(),
{
    if a.len() > 0 {
        lemma_lex_irreflexive(a.drop_first());
    }
}

/// Of two byte strings, at most one is less than the other.
pub proof fn lemma_lex_asymmetric(a: Seq<u8>, b: Seq<u8>)
    requires
        lex_less(a, b),
    ensures
        !lex_less(b, a),
    decreases a.len(),
{
    if a.len() > 0 && b.len() > 0 && a[0] == b[0] {
        lemma_lex_asymmetric(a.drop_first(), b.drop_first());
    }
}

/// The lexicographic order is transitive.
pub proof fn lemma_lex_transitive(a: Seq<u8>, b: Seq<u8>, c: Seq<u8>)
    requires
        lex_less(a, b),
        lex_less(b, c),
    ensures
        lex_less(a, c),
    decreases a.len(),
{
    if a.len() > 0 && b.len() > 0 && c.len() > 0 && a[0] == b[0] && b[0] == c[0] {
        lemma_lex_transitive(a.drop_first(), b.drop_first(), c.drop_first());
    }
}

/// Two byte strings of which neither is less than the other are equal.
pub proof fn lemma_lex_total(a: Seq<u8>, b: Seq<u8>)
    requires
        !lex_less(a, b),
        !lex_less(b, a),
    ensures
        a == b,
    decreases a.len(),
{
    if a.len() > 0 && b.len() > 0 {
        lemma_lex_total(a.drop_first(), b.drop_first());
        assert(a =~= seq![a[0]] + a.drop_first());
        assert(b =~= seq![b[0]] + b.drop_first());
    } else {
        assert(a =~= b);
    }
}

/// Terms with one encoding are one term.
pub proof fn lemma_encoding_injective(a: Seq<char>, b: Seq<char>)
    requires
        encode_utf8(a) == encode_utf8(b),
    ensures
        a == b,
{
    vstd::utf8::encode_utf8_decode_utf8(a);
    vstd::utf8::encode_utf8_decode_utf8(b);
}

/// No term comes before itself.
pub proof fn lemma_term_irreflexive(a: Seq<char>)
    ensures
        !term_less(a, a),
{
    lemma_lex_irreflexive(encode_utf8(a));
}

/// Of two terms, at most one comes before the other.
pub proof fn lemma_term_asymmetric(a: Seq<char>, b: Seq<char>)
    requires
        term_less(a, b),
    ensures
        !term_less(b, a),
        a != b,
{
    lemma_lex_asymmetric(encode_utf8(a), encode_utf8(b));
    lemma_lex_irreflexive(encode_utf8(a));
}

/// The order of terms is transitive.
pub proof fn lemma_term_transitive(a: Seq<char>, b: Seq<char>, c: Seq<char>)
    requires
        term_less(a, b),
        term_less(b, c),
    ensures
        term_less(a, c),
{
    lemma_lex_transitive(encode_utf8(a), encode_utf8(b), encode_utf8(c));
}

/// Two terms of which neither comes before the other are the same term.
pub proof fn lemma_term_total(a: Seq<char>, b: Seq<char>)
    requires
        !term_less(a, b),
        !term_less(b, a),
    ensures
        a == b,
{
    lemma_lex_total(encode_utf8(a), encode_utf8(b));
    lemma_encoding_injective(a, b);
}

/// A strictly ascending list of terms is determined by the terms it
/// holds.
pub proof fn lemma_terms_determined(a: Seq<Seq<char>>, b: Seq<Seq<char>>)
    requires
        terms_ascending(a),
        terms_ascending(b),
        forall|t: Seq<char>| a.contains(t) <==> b.contains(t),
    ensures
        a == b,
    decreases a.len(),
{
    if a.len() == 0 {
        if b.len() > 0 {
            assert(b.contains(b[0]));
        }
        assert(a =~= b);
    } else {
        let x = a.last();
        assert(a.contains(x));
        assert(b.contains(x));
        let y = b.last();
        assert(b.contains(y));
        assert(a.contains(y));
        let i = b.index_of(x);
        let j = a.index_of(y);
        assert(x == y) by {
            if i < b.len() - 1 {
                assert(term_less(b[i], b[b.len() - 1]));
                if j < a.len() - 1 {
                    assert(term_less(a[j], a[a.len() - 1]));
                    lemma_term_asymmetric(x, y);
                }
            }
        }
        let a0 = a.drop_last();
        let b0 = b.drop_last();
        lemma_term_irreflexive(x);
        assert forall|t: Seq<char>| a0.contains(t) <==> b0.contains(t) by {
            if a0.contains(t) {
                let p = a0.index_of(t);
                assert(a[p] == t);
                assert(term_less(a[p], a[a.len() - 1]));
                assert(a.contains(t));
                let q = b.index_of(t);
                assert(q < b.len() - 1);
                assert(b0[q] == t);
            }
            if b0.contains(t) {
                let q = b0.index_of(t);
                assert(b[q] == t);
                assert(term_less(b[q], b[b.len() - 1]));
                assert(b.contains(t));
                let p = a.index_of(t);
                assert(p < a.len() - 1);
                assert(a0[p] == t);
            }
        }
        lemma_terms_determined(a0, b0);
        assert(a =~= a0.push(x));
        assert(b =~= b0.push(y));
    }
}

/// Where two byte strings agree in a byte, the bytes behind it decide.
proof fn lemma_lex_step(a: Seq<u8>, b: Seq<u8>, i: int)
    requires
        0 <= i < a.len(),
        i < b.len(),
        a[i] == b[i],
    ensures
        lex_less(a.skip(i), b.skip(i)) == lex_less(a.skip(i + 1), b.skip(i + 1)),
        lex_less(b.skip(i), a.skip(i)) == lex_less(b.skip(i + 1), a.skip(i + 1)),
{
    assert(a.skip(i).drop_first() =~= a.skip(i + 1));
    assert(b.skip(i).drop_first() =~= b.skip(i + 1));
}

/// Compares two byte strings lexicographically.
pub fn order_bytes(x: &[u8], y: &[u8]) -> (r: TermOrder)
    ensures
        (r == TermOrder::Before) == lex_less(x@, y@),
        (r == TermOrder::After) == lex_less(y@, x@),
        (r == TermOrder::Same) == (x@ == y@),
{
    let mut i: usize = 0;
    proof {
        assert(x@.skip(0) =~= x@);
        assert(y@.skip(0) =~= y@);
    }
    while i < x.len() && i < y.len()
        invariant
            i <= x.len(),
            i <= y.len(),
            lex_less(x@, y@) == lex_less(x@.skip(i as int), y@.skip(i as int)),
            lex_less(y@, x@) == lex_less(y@.skip(i as int), x@.skip(i as int)),
        decreases x.len() - i,
    {
        let p = x[i];
        let q = y[i];
        if p < q {
            proof {
                lemma_lex_asymmetric(x@.skip(i as int), y@.skip(i as int));
                lemma_lex_irreflexive(x@);
            }
            return TermOrder::Before;
        }
        if q < p {
            proof {
                lemma_lex_asymmetric(y@.skip(i as int), x@.skip(i as int));
                lemma_lex_irreflexive(x@);
            }
            return TermOrder::After;
        }
        proof {
            lemma_lex_step(x@, y@, i as int);
        }
        i = i + 1;
    }
    proof {
        lemma_lex_irreflexive(x@);
        if lex_less(x@, y@) {
            lemma_lex_asymmetric(x@, y@);
        }
    }
    if x.len() < y.len() {
        TermOrder::Before
    } else if y.len() < x.len() {
        TermOrder::After
    } else {
        proof {
            lemma_lex_total(x@, y@);
        }
        TermOrder::Same
    }
}

/// Compares two terms.
pub fn order_terms(a: &str, b: &str) -> (r: TermOrder)
    ensures
        (r == TermOrder::Before) == term_less(a@, b@),
        (r == TermOrder::After) == term_less(b@, a@),
        (r == TermOrder::Same) == (a@ == b@),
{
    proof {
        if encode_utf8(a@) == encode_utf8(b@) {
            lemma_encoding_injective(a@, b@);
        }
    }
    order_bytes(a.as_bytes(), b.as_bytes())
}

} // verus!
