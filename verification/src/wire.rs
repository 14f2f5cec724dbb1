//! The byte layout of the index files, and the calls that encode and
//! decode it.
//!
//! The files are written and read with `bincode`, in the configuration of
//! its functions `serialize` and `deserialize`: integers take a fixed
//! number of bytes, least significant byte first; a fixed-size array is its
//! items one after the other; a tuple is its fields one after the other; a
//! string is the number of its UTF-8 bytes as a `u64`, then the bytes; a
//! vector is the number of its items as a `u64`, then the items. The spec
//! functions of this module state this layout for the three kinds of value
//! that the index files hold. The functions that call `bincode` are trusted
//! to follow it; what the library promises of the files is proved from
//! that.
//!
//! Encoding into a vector does not fail for these values: no size limit is
//! set, and every sequence knows its length.

use vstd::prelude::*;
use vstd::bytes::spec_u64_to_le_bytes;
use vstd::utf8::encode_utf8;
use crate::doc_id::DocId;
use crate::forward_index::{
    ForwardIdexRecord, ForwardIndexRecordMetadata, Lemma, LemmaView, RecordView,
};
use crate::reversed_index::{entry_views, EntryView, ReversedIndexRecord};

verus! {

/// The number of bytes that one entry of the metadata file takes.
pub const METADATA_SIZE: usize = 28;

/// A `u64`: eight bytes, least significant first.
pub open spec fn u64_wire(x: u64) -> Seq<u8> {
    spec_u64_to_le_bytes(x)
}

/// A length: as a `u64`.
pub open spec fn len_wire(n: nat) -> Seq<u8> {
    spec_u64_to_le_bytes(n as u64)
}

/// A string: the length of its UTF-8 encoding, then the encoding.
pub open spec fn text_wire(t: Seq<char>) -> Seq<u8> {
    len_wire(encode_utf8(t).len()) + encode_utf8(t)
}

/// A lemma: its frequency, then its text.
pub open spec fn lemma_wire(l: LemmaView) -> Seq<u8> {
    u64_wire(l.frequency_bits) + text_wire(l.text)
}

/// Lemmas one after the other.
pub open spec fn lemmas_wire(ls: Seq<LemmaView>) -> Seq<u8>
    decreases ls.len(),
{
    if ls.len() == 0 {
        Seq::empty()
    } else {
        lemma_wire(ls[0]) + lemmas_wire(ls.drop_first())
    }
}

/// A record of the forward index: the identifier, the number of lemmas,
/// the lemmas.
pub open spec fn record_wire(r: RecordView) -> Seq<u8> {
    r.id@ + len_wire(r.lemmas.len()) + lemmas_wire(r.lemmas)
}

/// An entry of the metadata file: the identifier, the offset, the size.
pub open spec fn metadata_wire(m: ForwardIndexRecordMetadata) -> Seq<u8> {
    m.id@ + u64_wire(m.offset_in_index_file) + u64_wire(m.size_of_record)
}

/// Identifiers one after the other.
pub open spec fn ids_wire(ids: Seq<DocId>) -> Seq<u8>
    decreases ids.len(),
{
    if ids.len() == 0 {
        Seq::empty()
    } else {
        ids[0]@ + ids_wire(ids.drop_first())
    }
}

/// An entry of the inverted index: the term, the number of documents, their
/// identifiers, the inverse document frequency.
pub open spec fn entry_wire(e: EntryView) -> Seq<u8> {
    text_wire(e.word) + len_wire(e.doc_ids.len()) + ids_wire(e.doc_ids) + u64_wire(e.idf_bits)
}

/// Entries one after the other.
pub open spec fn entries_wire(es: Seq<EntryView>) -> Seq<u8>
    decreases es.len(),
{
    if es.len() == 0 {
        Seq::empty()
    } else {
        entry_wire(es[0]) + entries_wire(es.drop_first())
    }
}

/// The inverted index file: the number of entries, then the entries.
pub open spec fn index_wire(es: Seq<EntryView>) -> Seq<u8> {
    len_wire(es.len()) + entries_wire(es)
}

/// Encodes a record with `bincode::serialize`, as the pair of its
/// identifier and the list of its lemmas, each a pair of frequency and
/// text. Trusted: the bytes are those of `record_wire`.
#[verifier::external_body]
pub(crate) fn encode_record(record: &ForwardIdexRecord) -> (out: Vec<u8>)
    ensures
        out@ == record_wire(record@),
{
    let lemmas: Vec<(u64, &str)> =
        record.lemmas.iter().map(|l| (l.frequency_bits, l.text.as_str())).collect();
    bincode::serialize(&(record.id, lemmas)).unwrap()
}

/// Decodes a record with `bincode::deserialize`, which reads a value from
/// the front of the buffer and lets further bytes follow it. Trusted: a
/// record that comes back is one whose encoding the buffer starts with, and
/// none comes back only where the buffer starts with no record's encoding.
#[verifier::external_body]
pub(crate) fn decode_record(bytes: &[u8]) -> (r: Option<ForwardIdexRecord>)
    ensures
        r matches Some(record) ==> record_wire(record@).is_prefix_of(bytes@),
        r is None ==> forall|v: RecordView| !(#[trigger] record_wire(v)).is_prefix_of(bytes@),
{
    match bincode::deserialize::<(DocId, Vec<(u64, String)>)>(bytes) {
        Ok((id, pairs)) => {
            let lemmas = pairs.into_iter().map(|(f, t)| Lemma { frequency_bits: f, text: t });
            Some(ForwardIdexRecord { id, lemmas: lemmas.collect() })
        },
        Err(_) => None,
    }
}

/// Encodes an entry of the metadata file with `bincode::serialize`, as the
/// triple of identifier, offset and size. Trusted: the bytes are those of
/// `metadata_wire`.
#[verifier::external_body]
pub(crate) fn encode_metadata(entry: &ForwardIndexRecordMetadata) -> (out: Vec<u8>)
    ensures
        out@ == metadata_wire(*entry),
{
    bincode::serialize(&(entry.id, entry.offset_in_index_file, entry.size_of_record)).unwrap()
}

/// Decodes an entry of the metadata file with `bincode::deserialize`.
/// Trusted: an entry that comes back is the one whose encoding the buffer
/// starts with, and none comes back only where the buffer is shorter than
/// an entry.
#[verifier::external_body]
pub(crate) fn decode_metadata(bytes: &[u8]) -> (r: Option<ForwardIndexRecordMetadata>)
    ensures
        r matches Some(entry) ==> metadata_wire(entry).is_prefix_of(bytes@),
        r is None ==> bytes@.len() < METADATA_SIZE,
{
    match bincode::deserialize::<(DocId, u64, u64)>(bytes) {
        Ok((id, offset, size)) => Some(
            ForwardIndexRecordMetadata { id, offset_in_index_file: offset, size_of_record: size },
        ),
        Err(_) => None,
    }
}

/// Encodes the entries of the inverted index with `bincode::serialize`, as
/// a list of triples of term, identifiers and inverse document frequency.
/// Trusted: the bytes are those of `index_wire`.
#[verifier::external_body]
pub(crate) fn encode_index(entries: &Vec<ReversedIndexRecord>) -> (out: Vec<u8>)
    ensures
        out@ == index_wire(entry_views(entries@)),
{
    let triples: Vec<(&str, &Vec<DocId>, u64)> =
        entries.iter().map(|e| (e.word.as_str(), &e.doc_ids, e.idf_bits)).collect();
    bincode::serialize(&triples).unwrap()
}

/// Decodes the entries of the inverted index with `bincode::deserialize`.
/// Trusted: entries that come back are such that the buffer starts with
/// their encoding, and none come back only where the buffer starts with the
/// encoding of no list of entries.
#[verifier::external_body]
pub(crate) fn decode_index(bytes: &[u8]) -> (r: Option<Vec<ReversedIndexRecord>>)
    ensures
        r matches Some(entries) ==> index_wire(entry_views(entries@)).is_prefix_of(bytes@),
        r is None ==> forall|es: Seq<EntryView>| !(#[trigger] index_wire(es)).is_prefix_of(bytes@),
{
    match bincode::deserialize::<Vec<(String, Vec<DocId>, u64)>>(bytes) {
        Ok(triples) => {
            let entries = triples.into_iter().map(
                |(word, doc_ids, idf_bits)| ReversedIndexRecord { word, doc_ids, idf_bits },
            );
            Some(entries.collect())
        },
        Err(_) => None,
    }
}

} // verus!
