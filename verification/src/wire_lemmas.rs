//! The byte layout is unambiguous: a buffer starts with the encoding of at
//! most one value of each kind. This is what makes reading back what was
//! written give the value that was written.

use vstd::prelude::*;
use vstd::bytes::lemma_auto_spec_u64_to_from_le_bytes;
use vstd::utf8::encode_utf8;
use crate::doc_id::DocId;
use crate::forward_index::{ForwardIndexRecordMetadata, LemmaView, RecordView};
use crate::reversed_index::EntryView;
use crate::term::lemma_encoding_injective;
use crate::wire::{
    entries_wire, entry_wire, ids_wire, index_wire, lemma_wire, lemmas_wire, len_wire,
    metadata_wire, record_wire, text_wire, u64_wire,
};

verus! {

/// Two ways of cutting one sequence at one place cut it into the same
/// parts.
proof fn lemma_split_at<A>(a: Seq<A>, s: Seq<A>, b: Seq<A>, t: Seq<A>)
    requires
        a + s == b + t,
        a.len() == b.len(),
    ensures
        a == b,
        s == t,
{
    assert(a =~= (a + s).subrange(0, a.len() as int));
    assert(b =~= (b + t).subrange(0, b.len() as int));
    assert(s =~= (a + s).subrange(a.len() as int, (a + s).len() as int));
    assert(t =~= (b + t).subrange(b.len() as int, (b + t).len() as int));
}

/// A sequence that starts with `a` is `a` and a rest.
proof fn lemma_prefix_rest<A>(a: Seq<A>, whole: Seq<A>)
    requires
        a.is_prefix_of(whole),
    ensures
        whole == a + whole.skip(a.len() as int),
{
    assert(whole =~= a + whole.skip(a.len() as int));
}

/// A `u64` takes eight bytes.
proof fn lemma_u64_wire_len(x: u64)
    ensures
        u64_wire(x).len() == 8,
{
    lemma_auto_spec_u64_to_from_le_bytes();
}

/// Bytes that start with the encoding of a `u64` have one such start and
/// one rest.
proof fn lemma_u64_split(x: u64, s: Seq<u8>, y: u64, t: Seq<u8>)
    requires
        u64_wire(x) + s == u64_wire(y) + t,
    ensures
        x == y,
        s == t,
{
    lemma_auto_spec_u64_to_from_le_bytes();
    lemma_split_at(u64_wire(x), s, u64_wire(y), t);
}

/// The same of a length that fits a `u64`.
proof fn lemma_len_split(n: nat, s: Seq<u8>, m: nat, t: Seq<u8>)
    requires
        len_wire(n) + s == len_wire(m) + t,
        n <= u64::MAX,
        m <= u64::MAX,
    ensures
        n == m,
        s == t,
{
    lemma_u64_split(n as u64, s, m as u64, t);
}

/// The same of an identifier.
proof fn lemma_id_split(a: DocId, s: Seq<u8>, b: DocId, t: Seq<u8>)
    requires
        a@ + s == b@ + t,
    ensures
        a == b,
        s == t,
{
    lemma_split_at(a@, s, b@, t);
    assert(a =~= b);
}

/// The same of a string, in a buffer whose length fits a `u64`.
proof fn lemma_text_split(a: Seq<char>, s: Seq<u8>, b: Seq<char>, t: Seq<u8>)
    requires
        text_wire(a) + s == text_wire(b) + t,
        (text_wire(a) + s).len() <= u64::MAX,
    ensures
        a == b,
        s == t,
{
    let ea = encode_utf8(a);
    let eb = encode_utf8(b);
    lemma_u64_wire_len(ea.len() as u64);
    lemma_u64_wire_len(eb.len() as u64);
    assert(text_wire(a) + s =~= len_wire(ea.len()) + (ea + s));
    assert(text_wire(b) + t =~= len_wire(eb.len()) + (eb + t));
    lemma_u64_split(ea.len() as u64, ea + s, eb.len() as u64, eb + t);
    assert(ea.len() <= u64::MAX);
    assert((eb + t).len() <= u64::MAX);
    lemma_split_at(ea, s, eb, t);
    lemma_encoding_injective(a, b);
}

/// The same of a lemma.
proof fn lemma_lemma_split(a: LemmaView, s: Seq<u8>, b: LemmaView, t: Seq<u8>)
    requires
        lemma_wire(a) + s == lemma_wire(b) + t,
        (lemma_wire(a) + s).len() <= u64::MAX,
    ensures
        a == b,
        s == t,
{
    assert(lemma_wire(a) + s =~= u64_wire(a.frequency_bits) + (text_wire(a.text) + s));
    assert(lemma_wire(b) + t =~= u64_wire(b.frequency_bits) + (text_wire(b.text) + t));
    lemma_u64_split(a.frequency_bits, text_wire(a.text) + s, b.frequency_bits, text_wire(b.text) + t);
    lemma_text_split(a.text, s, b.text, t);
}

/// Every lemma takes at least one byte.
proof fn lemma_lemmas_wire_len(ls: Seq<LemmaView>)
    ensures
        ls.len() <= lemmas_wire(ls).len(),
    decreases ls.len(),
{
    if ls.len() > 0 {
        lemma_u64_wire_len(ls[0].frequency_bits);
        lemma_lemmas_wire_len(ls.drop_first());
    }
}

/// The same of two lists of lemmas of one length.
proof fn lemma_lemmas_split(a: Seq<LemmaView>, s: Seq<u8>, b: Seq<LemmaView>, t: Seq<u8>)
    requires
        a.len() == b.len(),
        lemmas_wire(a) + s == lemmas_wire(b) + t,
        (lemmas_wire(a) + s).len() <= u64::MAX,
    ensures
        a == b,
        s == t,
    decreases a.len(),
{
    if a.len() == 0 {
        assert(lemmas_wire(a) + s =~= s);
        assert(lemmas_wire(b) + t =~= t);
        assert(a =~= b);
    } else {
        let ra = a.drop_first();
        let rb = b.drop_first();
        assert(lemmas_wire(a) + s =~= lemma_wire(a[0]) + (lemmas_wire(ra) + s));
        assert(lemmas_wire(b) + t =~= lemma_wire(b[0]) + (lemmas_wire(rb) + t));
        lemma_lemma_split(a[0], lemmas_wire(ra) + s, b[0], lemmas_wire(rb) + t);
        lemma_lemmas_split(ra, s, rb, t);
        assert(a =~= seq![a[0]] + ra);
        assert(b =~= seq![b[0]] + rb);
    }
}

/// A buffer starts with the encoding of at most one record.
pub proof fn lemma_record_unique(a: RecordView, b: RecordView, bytes: Seq<u8>)
    requires
        record_wire(a).is_prefix_of(bytes),
        record_wire(b).is_prefix_of(bytes),
        bytes.len() <= u64::MAX,
    ensures
        a == b,
{
    let s = bytes.skip(record_wire(a).len() as int);
    let t = bytes.skip(record_wire(b).len() as int);
    lemma_prefix_rest(record_wire(a), bytes);
    lemma_prefix_rest(record_wire(b), bytes);
    lemma_lemmas_wire_len(a.lemmas);
    lemma_lemmas_wire_len(b.lemmas);
    let ta = len_wire(a.lemmas.len()) + (lemmas_wire(a.lemmas) + s);
    let tb = len_wire(b.lemmas.len()) + (lemmas_wire(b.lemmas) + t);
    assert(record_wire(a) + s =~= a.id@ + ta);
    assert(record_wire(b) + t =~= b.id@ + tb);
    lemma_id_split(a.id, ta, b.id, tb);
    lemma_len_split(
        a.lemmas.len(),
        lemmas_wire(a.lemmas) + s,
        b.lemmas.len(),
        lemmas_wire(b.lemmas) + t,
    );
    lemma_lemmas_split(a.lemmas, s, b.lemmas, t);
}

/// An entry of the metadata file takes 28 bytes.
pub proof fn lemma_metadata_wire_len(m: ForwardIndexRecordMetadata)
    ensures
        metadata_wire(m).len() == 28,
{
    lemma_auto_spec_u64_to_from_le_bytes();
}

/// A buffer starts with the encoding of at most one metadata entry.
pub proof fn lemma_metadata_unique(
    a: ForwardIndexRecordMetadata,
    b: ForwardIndexRecordMetadata,
    bytes: Seq<u8>,
)
    requires
        metadata_wire(a).is_prefix_of(bytes),
        metadata_wire(b).is_prefix_of(bytes),
    ensures
        a == b,
{
    let s = bytes.skip(metadata_wire(a).len() as int);
    let t = bytes.skip(metadata_wire(b).len() as int);
    lemma_prefix_rest(metadata_wire(a), bytes);
    lemma_prefix_rest(metadata_wire(b), bytes);
    let ta = u64_wire(a.offset_in_index_file) + (u64_wire(a.size_of_record) + s);
    let tb = u64_wire(b.offset_in_index_file) + (u64_wire(b.size_of_record) + t);
    assert(metadata_wire(a) + s =~= a.id@ + ta);
    assert(metadata_wire(b) + t =~= b.id@ + tb);
    lemma_id_split(a.id, ta, b.id, tb);
    lemma_u64_split(
        a.offset_in_index_file,
        u64_wire(a.size_of_record) + s,
        b.offset_in_index_file,
        u64_wire(b.size_of_record) + t,
    );
    lemma_u64_split(a.size_of_record, s, b.size_of_record, t);
}

/// Every identifier takes at least one byte.
proof fn lemma_ids_wire_len(ids: Seq<DocId>)
    ensures
        ids.len() <= ids_wire(ids).len(),
    decreases ids.len(),
{
    if ids.len() > 0 {
        lemma_ids_wire_len(ids.drop_first());
    }
}

/// The same of two lists of identifiers of one length.
proof fn lemma_ids_split(a: Seq<DocId>, s: Seq<u8>, b: Seq<DocId>, t: Seq<u8>)
    requires
        a.len() == b.len(),
        ids_wire(a) + s == ids_wire(b) + t,
    ensures
        a == b,
        s == t,
    decreases a.len(),
{
    if a.len() == 0 {
        assert(ids_wire(a) + s =~= s);
        assert(ids_wire(b) + t =~= t);
        assert(a =~= b);
    } else {
        let ra = a.drop_first();
        let rb = b.drop_first();
        assert(ids_wire(a) + s =~= a[0]@ + (ids_wire(ra) + s));
        assert(ids_wire(b) + t =~= b[0]@ + (ids_wire(rb) + t));
        lemma_id_split(a[0], ids_wire(ra) + s, b[0], ids_wire(rb) + t);
        lemma_ids_split(ra, s, rb, t);
        assert(a =~= seq![a[0]] + ra);
        assert(b =~= seq![b[0]] + rb);
    }
}

/// The same of an entry of the inverted index.
proof fn lemma_entry_split(a: EntryView, s: Seq<u8>, b: EntryView, t: Seq<u8>)
    requires
        entry_wire(a) + s == entry_wire(b) + t,
        (entry_wire(a) + s).len() <= u64::MAX,
    ensures
        a == b,
        s == t,
{
    let ia = ids_wire(a.doc_ids) + (u64_wire(a.idf_bits) + s);
    let ib = ids_wire(b.doc_ids) + (u64_wire(b.idf_bits) + t);
    let ca = len_wire(a.doc_ids.len()) + ia;
    let cb = len_wire(b.doc_ids.len()) + ib;
    assert(entry_wire(a) + s =~= text_wire(a.word) + ca);
    assert(entry_wire(b) + t =~= text_wire(b.word) + cb);
    lemma_text_split(a.word, ca, b.word, cb);
    lemma_ids_wire_len(a.doc_ids);
    lemma_ids_wire_len(b.doc_ids);
    lemma_len_split(a.doc_ids.len(), ia, b.doc_ids.len(), ib);
    lemma_ids_split(a.doc_ids, u64_wire(a.idf_bits) + s, b.doc_ids, u64_wire(b.idf_bits) + t);
    lemma_u64_split(a.idf_bits, s, b.idf_bits, t);
}

/// Every entry takes at least one byte.
proof fn lemma_entries_wire_len(es: Seq<EntryView>)
    ensures
        es.len() <= entries_wire(es).len(),
    decreases es.len(),
{
    if es.len() > 0 {
        lemma_u64_wire_len(es[0].idf_bits);
        lemma_entries_wire_len(es.drop_first());
    }
}

/// The same of two lists of entries of one length.
proof fn lemma_entries_split(a: Seq<EntryView>, s: Seq<u8>, b: Seq<EntryView>, t: Seq<u8>)
    requires
        a.len() == b.len(),
        entries_wire(a) + s == entries_wire(b) + t,
        (entries_wire(a) + s).len() <= u64::MAX,
    ensures
        a == b,
        s == t,
    decreases a.len(),
{
    if a.len() == 0 {
        assert(entries_wire(a) + s =~= s);
        assert(entries_wire(b) + t =~= t);
        assert(a =~= b);
    } else {
        let ra = a.drop_first();
        let rb = b.drop_first();
        assert(entries_wire(a) + s =~= entry_wire(a[0]) + (entries_wire(ra) + s));
        assert(entries_wire(b) + t =~= entry_wire(b[0]) + (entries_wire(rb) + t));
        lemma_entry_split(a[0], entries_wire(ra) + s, b[0], entries_wire(rb) + t);
        lemma_entries_split(ra, s, rb, t);
        assert(a =~= seq![a[0]] + ra);
        assert(b =~= seq![b[0]] + rb);
    }
}

/// A buffer starts with the encoding of at most one list of entries.
pub proof fn lemma_index_unique(a: Seq<EntryView>, b: Seq<EntryView>, bytes: Seq<u8>)
    requires
        index_wire(a).is_prefix_of(bytes),
        index_wire(b).is_prefix_of(bytes),
        bytes.len() <= u64::MAX,
    ensures
        a == b,
{
    let s = bytes.skip(index_wire(a).len() as int);
    let t = bytes.skip(index_wire(b).len() as int);
    lemma_prefix_rest(index_wire(a), bytes);
    lemma_prefix_rest(index_wire(b), bytes);
    lemma_entries_wire_len(a);
    lemma_entries_wire_len(b);
    assert(index_wire(a) + s =~= len_wire(a.len()) + (entries_wire(a) + s));
    assert(index_wire(b) + t =~= len_wire(b.len()) + (entries_wire(b) + t));
    lemma_len_split(a.len(), entries_wire(a) + s, b.len(), entries_wire(b) + t);
    lemma_entries_split(a, s, b, t);
}

} // verus!
