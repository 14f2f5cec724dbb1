//! Document identifiers and their order.
//!
//! A document identifier is twelve opaque bytes. Identifiers are ordered by
//! comparing their bytes from the first to the last; the model used in
//! contracts is the big-endian number that the twelve bytes spell, which
//! orders identifiers the same way (`lemma_doc_key_is_bytewise`).

use vstd::prelude::*;

verus! {

/// A document identifier: twelve bytes, assigned by the corpus source.
pub type DocId = [u8; 12];

/// The number that a byte string spells when read most significant byte first.
pub open spec fn big_endian(s: Seq<u8>) -> nat
    decreases s.len(),
{
    if s.len() == 0 {
        0
    } else {
        big_endian(s.drop_last()) * 256 + s.last() as nat
    }
}

/// 256 to the power `n`.
pub open spec fn radix_pow(n: nat) -> nat
    decreases n,
{
    if n == 0 {
        1
    } else {
        256 * radix_pow((n - 1) as nat)
    }
}

/// The position of an identifier in the total order of identifiers.
pub open spec fn doc_key(id: DocId) -> nat {
    big_endian(id@)
}

/// Byte-wise order on byte strings of one length: the first byte in which
/// the two differ decides.
pub open spec fn bytewise_less(a: Seq<u8>, b: Seq<u8>) -> bool {
    exists|k: int|
        0 <= k < a.len() && k < b.len() && #[trigger] a.take(k) == b.take(k) && a[k] < b[k]
}

/// Strictly ascending by identifier: nothing occurs twice and smaller
/// identifiers come first.
pub open spec fn ascending(ids: Seq<DocId>) -> bool {
    forall|i: int, j: int| 0 <= i < j < ids.len() ==> doc_key(ids[i]) < doc_key(ids[j])
}

/// A strictly ascending list is determined by the identifiers it holds.
pub proof fn lemma_ascending_determined(a: Seq<DocId>, b: Seq<DocId>)
    requires
        ascending(a),
        ascending(b),
        forall|id: DocId| a.contains(id) <==> b.contains(id),
    ensures
        a == b,
    decreases a.len(),
{
    if a.len() == 0 {
        if b.len() > 0 {
            assert(b.contains(b[0]));
        }
        assert(a =~= b);
    } else {
        let x = a.last();
        assert(a.contains(x));
        assert(b.contains(x));
        let y = b.last();
        assert(b.contains(y));
        assert(a.contains(y));
        let i = b.index_of(x);
        let j = a.index_of(y);
        assert(doc_key(x) <= doc_key(y)) by {
            if i < b.len() - 1 {
                assert(doc_key(b[i]) < doc_key(b[b.len() - 1]));
            }
        }
        assert(doc_key(y) <= doc_key(x)) by {
            if j < a.len() - 1 {
                assert(doc_key(a[j]) < doc_key(a[a.len() - 1]));
            }
        }
        lemma_doc_key_injective(x, y);
        let a0 = a.drop_last();
        let b0 = b.drop_last();
        assert forall|id: DocId| a0.contains(id) <==> b0.contains(id) by {
            if a0.contains(id) {
                let p = a0.index_of(id);
                assert(a[p] == id);
                assert(doc_key(a[p]) < doc_key(a[a.len() - 1]));
                assert(a.contains(id));
                let q = b.index_of(id);
                assert(q < b.len() - 1);
                assert(b0[q] == id);
            }
            if b0.contains(id) {
                let q = b0.index_of(id);
                assert(b[q] == id);
                assert(doc_key(b[q]) < doc_key(b[b.len() - 1]));
                assert(b.contains(id));
                let p = a.index_of(id);
                assert(p < a.len() - 1);
                assert(a0[p] == id);
            }
        }
        lemma_ascending_determined(a0, b0);
        assert(a =~= a0.push(x));
        assert(b =~= b0.push(y));
    }
}

/// A string of `n` bytes spells a number below 256 to the power `n`.
pub proof fn lemma_big_endian_bound(s: Seq<u8>)
    ensures
        big_endian(s) < radix_pow(s.len()),
    decreases s.len(),
{
    if s.len() > 0 {
        lemma_big_endian_bound(s.drop_last());
    }
}

/// 256 to the power 12 is 2 to the power 96.
proof fn lemma_radix_pow_12()
    ensures
        radix_pow(12) == 0x1_0000_0000_0000_0000_0000_0000,
{
    assert(radix_pow(1) == 0x100) by {
        assert(radix_pow(0) == 1);
    }
    assert(radix_pow(2) == 0x1_0000);
    assert(radix_pow(3) == 0x100_0000);
    assert(radix_pow(4) == 0x1_0000_0000);
    assert(radix_pow(5) == 0x100_0000_0000);
    assert(radix_pow(6) == 0x1_0000_0000_0000);
    assert(radix_pow(7) == 0x100_0000_0000_0000);
    assert(radix_pow(8) == 0x1_0000_0000_0000_0000);
    assert(radix_pow(9) == 0x100_0000_0000_0000_0000);
    assert(radix_pow(10) == 0x1_0000_0000_0000_0000_0000);
    assert(radix_pow(11) == 0x100_0000_0000_0000_0000_0000);
}

/// Every identifier's key fits in 96 bits.
pub proof fn lemma_doc_key_bound(id: DocId)
    ensures
        doc_key(id) < 0x1_0000_0000_0000_0000_0000_0000,
{
    lemma_big_endian_bound(id@);
    lemma_radix_pow_12();
}

/// Byte strings of one length that spell the same number are equal.
pub proof fn lemma_big_endian_injective(a: Seq<u8>, b: Seq<u8>)
    requires
        a.len() == b.len(),
        big_endian(a) == big_endian(b),
    ensures
        a == b,
    decreases a.len(),
{
    if a.len() > 0 {
        let x = big_endian(a.drop_last());
        let y = big_endian(b.drop_last());
        assert(x * 256 + a.last() as nat == y * 256 + b.last() as nat);
        assert(x == y && a.last() == b.last());
        lemma_big_endian_injective(a.drop_last(), b.drop_last());
        assert(a =~= a.drop_last().push(a.last()));
        assert(b =~= b.drop_last().push(b.last()));
    } else {
        assert(a =~= b);
    }
}

/// Two identifiers with one key are one identifier.
pub proof fn lemma_doc_key_injective(a: DocId, b: DocId)
    requires
        doc_key(a) == doc_key(b),
    ensures
        a == b,
{
    lemma_big_endian_injective(a@, b@);
    assert(a@ =~= b@);
    assert(a =~= b);
}

/// On byte strings of one length, the number spelled orders them byte-wise.
pub proof fn lemma_big_endian_is_bytewise(a: Seq<u8>, b: Seq<u8>)
    requires
        a.len() == b.len(),
    ensures
        big_endian(a) < big_endian(b) <==> bytewise_less(a, b),
    decreases a.len(),
{
    if a.len() == 0 {
        assert(!bytewise_less(a, b));
    } else {
        let a0 = a.drop_last();
        let b0 = b.drop_last();
        let n = a.len() - 1;
        lemma_big_endian_is_bytewise(a0, b0);
        if bytewise_less(a, b) {
            let k = choose|k: int|
                0 <= k < a.len() && k < b.len() && #[trigger] a.take(k) == b.take(k) && a[k]
                    < b[k];
            if k < n {
                assert(a0.take(k) =~= a.take(k));
                assert(b0.take(k) =~= b.take(k));
                assert(a0[k] == a[k] && b0[k] == b[k]);
                assert(bytewise_less(a0, b0));
            } else {
                assert(a0 =~= a.take(k));
                assert(b0 =~= b.take(k));
            }
            assert(big_endian(a) < big_endian(b));
        }
        if big_endian(a) < big_endian(b) {
            let x = big_endian(a0);
            let y = big_endian(b0);
            if x < y {
                let k = choose|k: int|
                    0 <= k < a0.len() && k < b0.len() && #[trigger] a0.take(k) == b0.take(k)
                        && a0[k] < b0[k];
                assert(a.take(k) =~= a0.take(k));
                assert(b.take(k) =~= b0.take(k));
                assert(a[k] == a0[k] && b[k] == b0[k]);
                assert(bytewise_less(a, b));
            } else {
                assert(x == y);
                lemma_big_endian_injective(a0, b0);
                assert(a.take(n) =~= a0);
                assert(b.take(n) =~= b0);
                assert(a.take(n) == b.take(n));
                assert(a[n] < b[n]);
                assert(bytewise_less(a, b));
            }
        }
    }
}

/// The key orders identifiers exactly as byte-wise comparison does.
pub proof fn lemma_doc_key_is_bytewise(a: DocId, b: DocId)
    ensures
        doc_key(a) < doc_key(b) <==> bytewise_less(a@, b@),
{
    lemma_big_endian_is_bytewise(a@, b@);
}

/// Computes the key of an identifier.
pub fn key_of(id: &DocId) -> (k: u128)
    ensures
        k == doc_key(*id),
{
    let mut k: u128 = 0;
    let mut i: usize = 0;
    proof {
        lemma_radix_pow_12();
        assert(id@.take(0) =~= Seq::<u8>::empty());
    }
    while i < 12
        invariant
            i <= 12,
            k == big_endian(id@.take(i as int)),
            id@.len() == 12,
        decreases 12 - i,
    {
        proof {
            lemma_big_endian_bound(id@.take(i as int));
            lemma_big_endian_bound(id@.take(i as int + 1));
            lemma_radix_pow_le(i as nat + 1, 12);
            lemma_radix_pow_12();
            assert(id@.take(i as int + 1).drop_last() =~= id@.take(i as int));
            assert(id@.take(i as int + 1).last() == id@[i as int]);
        }
        k = k * 256 + id[i] as u128;
        i = i + 1;
    }
    proof {
        assert(id@.take(12) =~= id@);
    }
    k
}

/// The powers of 256 grow with the exponent.
proof fn lemma_radix_pow_le(m: nat, n: nat)
    requires
        m <= n,
    ensures
        radix_pow(m) <= radix_pow(n),
    decreases n,
{
    if m < n {
        lemma_radix_pow_le(m, (n - 1) as nat);
    }
}

/// Whether `a` comes strictly before `b`.
pub fn doc_id_less(a: &DocId, b: &DocId) -> (r: bool)
    ensures
        r == (doc_key(*a) < doc_key(*b)),
{
    key_of(a) < key_of(b)
}

/// Whether two identifiers are the same.
pub fn doc_id_equal(a: &DocId, b: &DocId) -> (r: bool)
    ensures
        r == (*a == *b),
{
    proof {
        if doc_key(*a) == doc_key(*b) {
            lemma_doc_key_injective(*a, *b);
        }
    }
    key_of(a) == key_of(b)
}

/// Whether a list of identifiers is strictly ascending.
pub fn is_ascending(ids: &Vec<DocId>) -> (r: bool)
    ensures
        r == ascending(ids@),
{
    if ids.len() < 2 {
        return true;
    }
    let mut i: usize = 1;
    let mut prev: u128 = key_of(&ids[0]);
    while i < ids.len()
        invariant
            1 <= i <= ids.len(),
            prev == doc_key(ids@[i - 1]),
            forall|p: int, q: int| 0 <= p < q < i ==> doc_key(ids@[p]) < doc_key(ids@[q]),
        decreases ids.len() - i,
    {
        let cur = key_of(&ids[i]);
        if !(prev < cur) {
            return false;
        }
        assert forall|p: int, q: int| 0 <= p < q < i + 1 implies doc_key(ids@[p]) < doc_key(
            ids@[q],
        ) by {
            if q == i && p < i - 1 {
                assert(doc_key(ids@[p]) < doc_key(ids@[i - 1]));
            }
        }
        prev = cur;
        i = i + 1;
    }
    true
}

} // verus!
