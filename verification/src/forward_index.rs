//! The forward index: one record per document, stored back to back in a
//! data file, with a metadata file that says where each record lies.

use vstd::prelude::*;
use vstd::slice::slice_subrange;
use std::collections::HashMap;
use crate::doc_id::{doc_key, key_of, lemma_doc_key_bound, lemma_doc_key_injective, DocId};
use crate::term_map::TermMap;
use crate::wire::{
    decode_metadata, decode_record, encode_metadata, encode_record, metadata_wire, record_wire,
    METADATA_SIZE,
};
use crate::wire_lemmas::{lemma_metadata_unique, lemma_metadata_wire_len, lemma_record_unique};

verus! {

/// A term of a document with its relative frequency in that document.
///
/// The frequency is a floating-point number; the index carries it as the
/// 64 bits of its IEEE 754 representation and never computes with it.
#[derive(Clone, Debug, PartialEq, Eq)]
pub struct Lemma {
    pub frequency_bits: u64,
    pub text: String,
}

/// A lemma as the contracts see it.
pub struct LemmaView {
    pub frequency_bits: u64,
    pub text: Seq<char>,
}

impl View for Lemma {
    type V = LemmaView;

    open spec fn view(&self) -> LemmaView {
        LemmaView { frequency_bits: self.frequency_bits, text: self.text@ }
    }
}

/// The record of one document: its identifier and its lemmas, each term
/// once.
#[derive(Clone, Debug, PartialEq, Eq)]
pub struct ForwardIdexRecord {
    pub id: DocId,
    pub lemmas: Vec<Lemma>,
}

/// A record as the contracts see it.
pub struct RecordView {
    pub id: DocId,
    pub lemmas: Seq<LemmaView>,
}

impl View for ForwardIdexRecord {
    type V = RecordView;

    open spec fn view(&self) -> RecordView {
        RecordView { id: self.id, lemmas: self.lemmas@.map_values(|l: Lemma| l@) }
    }
}

/// Where one record lies in the data file.
#[derive(Clone, Copy, Debug, Default)]
pub struct ForwardIndexRecordMetadata {
    pub id: DocId,
    pub offset_in_index_file: u64,
    pub size_of_record: u64,
}

/// The terms of a document as the contracts see them.
pub open spec fn term_views(terms: Seq<String>) -> Seq<Seq<char>> {
    terms.map_values(|t: String| t@)
}

/// How often `term` occurs among the terms of a document.
pub open spec fn occurrences(terms: Seq<Seq<char>>, term: Seq<char>) -> nat
    decreases terms.len(),
{
    if terms.len() == 0 {
        0
    } else {
        occurrences(terms.drop_last(), term) + if terms.last() == term {
            1nat
        } else {
            0nat
        }
    }
}

/// The terms that occur, each with the number of its occurrences.
pub open spec fn term_counts(terms: Seq<Seq<char>>) -> Map<Seq<char>, u64> {
    Map::new(
        |term: Seq<char>| occurrences(terms, term) > 0,
        |term: Seq<char>| occurrences(terms, term) as u64,
    )
}

/// No term occurs more often than there are terms.
pub proof fn lemma_occurrences_bound(terms: Seq<Seq<char>>, term: Seq<char>)
    ensures
        occurrences(terms, term) <= terms.len(),
    decreases terms.len(),
{
    if terms.len() > 0 {
        lemma_occurrences_bound(terms.drop_last(), term);
    }
}

/// Counts the terms of a document: each term that occurs, once, with the
/// number of its occurrences. The relative frequency of a term is this
/// number divided by the number of all the document's terms.
pub fn count_lemmas(lemmas: &Vec<String>) -> (counts: TermMap<u64>)
    ensures
        counts.wf(),
        counts@ == term_counts(term_views(lemmas@)),
{
    let ghost terms = term_views(lemmas@);
    let mut lemmas_count: TermMap<u64> = TermMap::new();
    let mut i: usize = 0;
    proof {
        assert(terms.take(0) =~= Seq::<Seq<char>>::empty());
        assert(lemmas_count@ =~= term_counts(terms.take(0)));
    }
    while i < lemmas.len()
        invariant
            i <= lemmas@.len(),
            terms == term_views(lemmas@),
            lemmas_count.wf(),
            lemmas_count@ == term_counts(terms.take(i as int)),
        decreases lemmas@.len() - i,
    {
        let lemma: &String = &lemmas[i];
        let ghost seen = terms.take(i as int);
        let ghost next = terms.take(i as int + 1);
        let ghost held = lemmas_count@;
        proof {
            assert(next.drop_last() =~= seen);
            assert(next.last() == lemma@);
            lemma_occurrences_bound(seen, lemma@);
            lemmas_count.lemma_entries();
        }
        match lemmas_count.position(lemma.as_str()) {
            Ok(p) => {
                let count = *lemmas_count.value_at(p);
                assert(count == occurrences(seen, lemma@));
                lemmas_count.replace_at(p, count + 1);
            },
            Err(p) => {
                assert(!held.contains_key(lemma@));
                lemmas_count.insert_at(p, lemma.clone(), 1);
            },
        }
        proof {
            assert(lemmas_count@ =~= term_counts(next));
        }
        i = i + 1;
    }
    proof {
        assert(terms.take(lemmas@.len() as int) =~= terms);
    }
    lemmas_count
}

/// The records of a list as the contracts see them.
pub open spec fn record_views(records: Seq<ForwardIdexRecord>) -> Seq<RecordView> {
    records.map_values(|r: ForwardIdexRecord| r@)
}

/// Why reading the forward index failed.
#[derive(Clone, Copy, Debug, PartialEq, Eq)]
pub enum ForwardIndexError {
    /// A file ends before the bytes that were to be read.
    UnexpectedEof,
    /// The bytes read are not the encoding of a record.
    Corrupt,
    /// The offset table has no entry for the identifier.
    UnknownDocument,
}

/// The record whose encoding the buffer starts with; none where it starts
/// with no record's encoding.
pub open spec fn parse_record(bytes: Seq<u8>) -> Option<RecordView> {
    if exists|v: RecordView| (#[trigger] record_wire(v)).is_prefix_of(bytes) {
        Some(choose|v: RecordView| (#[trigger] record_wire(v)).is_prefix_of(bytes))
    } else {
        None
    }
}

/// The metadata entry whose encoding the buffer starts with; none where the
/// buffer is too short to hold one.
pub open spec fn parse_metadata(bytes: Seq<u8>) -> Option<ForwardIndexRecordMetadata> {
    if exists|m: ForwardIndexRecordMetadata| (#[trigger] metadata_wire(m)).is_prefix_of(bytes) {
        Some(
            choose|m: ForwardIndexRecordMetadata| (#[trigger] metadata_wire(m)).is_prefix_of(bytes),
        )
    } else {
        None
    }
}

/// Reading the encoding of a record, with whatever follows it, gives the
/// record.
pub proof fn lemma_parse_record_wire(v: RecordView, rest: Seq<u8>)
    requires
        (record_wire(v) + rest).len() <= u64::MAX,
    ensures
        parse_record(record_wire(v) + rest) == Some(v),
{
    let bytes = record_wire(v) + rest;
    assert(record_wire(v).is_prefix_of(bytes));
    let w = choose|w: RecordView| (#[trigger] record_wire(w)).is_prefix_of(bytes);
    lemma_record_unique(v, w, bytes);
}

/// Reading the encoding of a metadata entry, with whatever follows it,
/// gives the entry.
pub proof fn lemma_parse_metadata_wire(m: ForwardIndexRecordMetadata, rest: Seq<u8>)
    ensures
        parse_metadata(metadata_wire(m) + rest) == Some(m),
{
    let bytes = metadata_wire(m) + rest;
    assert(metadata_wire(m).is_prefix_of(bytes));
    let w = choose|w: ForwardIndexRecordMetadata| (#[trigger] metadata_wire(w)).is_prefix_of(bytes);
    lemma_metadata_unique(m, w, bytes);
}

/// Decodes the record at the front of the buffer.
pub fn read_record(bytes: &[u8]) -> (r: Option<ForwardIdexRecord>)
    ensures
        match r {
            Some(record) => parse_record(bytes@) == Some(record@),
            None => parse_record(bytes@) is None,
        },
{
    let r = decode_record(bytes);
    proof {
        assert(bytes@.len() == bytes.len());
        if r is Some {
            let v = r->Some_0@;
            assert(record_wire(v).is_prefix_of(bytes@));
            let w = choose|w: RecordView| (#[trigger] record_wire(w)).is_prefix_of(bytes@);
            lemma_record_unique(v, w, bytes@);
        }
    }
    r
}

/// Decodes the metadata entry at the front of the buffer.
pub fn read_metadata(bytes: &[u8]) -> (r: Option<ForwardIndexRecordMetadata>)
    ensures
        r == parse_metadata(bytes@),
        r is Some <==> bytes@.len() >= METADATA_SIZE,
{
    let r = decode_metadata(bytes);
    proof {
        match r {
            Some(entry) => {
                lemma_metadata_wire_len(entry);
                assert(metadata_wire(entry).is_prefix_of(bytes@));
                let w = choose|w: ForwardIndexRecordMetadata|
                    (#[trigger] metadata_wire(w)).is_prefix_of(bytes@);
                lemma_metadata_unique(entry, w, bytes@);
            },
            None => {
                assert forall|m: ForwardIndexRecordMetadata|
                    !(#[trigger] metadata_wire(m)).is_prefix_of(bytes@) by {
                    lemma_metadata_wire_len(m);
                }
            },
        }
    }
    r
}

/// The data file of a corpus: the encodings of its records, back to back.
pub open spec fn data_bytes(records: Seq<RecordView>) -> Seq<u8>
    decreases records.len(),
{
    if records.len() == 0 {
        Seq::empty()
    } else {
        data_bytes(records.drop_last()) + record_wire(records.last())
    }
}

/// The metadata of a corpus: for each record its identifier, the length of
/// the data file before it, and the length of its encoding.
pub open spec fn metadata_of(records: Seq<RecordView>) -> Seq<ForwardIndexRecordMetadata>
    decreases records.len(),
{
    if records.len() == 0 {
        Seq::empty()
    } else {
        metadata_of(records.drop_last()).push(
            ForwardIndexRecordMetadata {
                id: records.last().id,
                offset_in_index_file: data_bytes(records.drop_last()).len() as u64,
                size_of_record: record_wire(records.last()).len() as u64,
            },
        )
    }
}

/// The metadata file: the encodings of the entries, back to back.
pub open spec fn metadata_bytes(entries: Seq<ForwardIndexRecordMetadata>) -> Seq<u8>
    decreases entries.len(),
{
    if entries.len() == 0 {
        Seq::empty()
    } else {
        metadata_bytes(entries.drop_last()) + metadata_wire(entries.last())
    }
}

/// Builds the forward index of a corpus: the contents of the data file
/// and of the metadata file. The records are written in the order given,
/// which is expected to be ascending by identifier; nothing is sorted.
pub fn build_forward_index(records: &Vec<ForwardIdexRecord>) -> (files: (Vec<u8>, Vec<u8>))
    ensures
        files.0@ == data_bytes(record_views(records@)),
        files.1@ == metadata_bytes(metadata_of(record_views(records@))),
{
    let ghost views = record_views(records@);
    let mut index_file: Vec<u8> = Vec::new();
    let mut index_metadata_file: Vec<u8> = Vec::new();
    let mut i: usize = 0;
    proof {
        assert(views.take(0) =~= Seq::<RecordView>::empty());
    }
    while i < records.len()
        invariant
            i <= records@.len(),
            views == record_views(records@),
            index_file@ == data_bytes(views.take(i as int)),
            index_metadata_file@ == metadata_bytes(metadata_of(views.take(i as int))),
        decreases records@.len() - i,
    {
        let record = &records[i];
        let mut record_as_bytes = encode_record(record);
        let current_metadata = ForwardIndexRecordMetadata {
            id: record.id,
            offset_in_index_file: index_file.len() as u64,
            size_of_record: record_as_bytes.len() as u64,
        };
        let mut metadata_as_bytes = encode_metadata(&current_metadata);
        proof {
            let next = views.take(i as int + 1);
            assert(next.drop_last() =~= views.take(i as int));
            assert(next.last() == record@);
            assert(metadata_of(next).last() == current_metadata);
            assert(metadata_of(next).drop_last() =~= metadata_of(views.take(i as int)));
        }
        index_file.append(&mut record_as_bytes);
        index_metadata_file.append(&mut metadata_as_bytes);
        i = i + 1;
    }
    proof {
        assert(views.take(records@.len() as int) =~= views);
    }
    (index_file, index_metadata_file)
}

/// The number of whole entries in a metadata file.
pub open spec fn entry_count(metadata: Seq<u8>) -> nat {
    metadata.len() / 28
}

/// The bytes of the `i`-th entry of a metadata file.
pub open spec fn entry_bytes(metadata: Seq<u8>, i: int) -> Seq<u8> {
    metadata.subrange(28 * i, 28 * i + 28)
}

/// The offset table of the first `n` entries of a metadata file: each
/// identifier with the offset and the size of its record. Of two entries
/// with one identifier the later one counts.
pub open spec fn offset_table_upto(metadata: Seq<u8>, n: nat) -> Map<DocId, (u64, u64)>
    decreases n,
{
    if n == 0 {
        Map::empty()
    } else {
        let entry = parse_metadata(entry_bytes(metadata, n - 1))->Some_0;
        offset_table_upto(metadata, (n - 1) as nat).insert(
            entry.id,
            (entry.offset_in_index_file, entry.size_of_record),
        )
    }
}

/// The offset table of a metadata file. Bytes behind the last whole entry
/// are left aside.
pub open spec fn offset_table(metadata: Seq<u8>) -> Map<DocId, (u64, u64)> {
    offset_table_upto(metadata, entry_count(metadata))
}

/// What random access by identifier gives: the record that the offset
/// table places in the data file.
pub open spec fn lookup(data: Seq<u8>, metadata: Seq<u8>, id: DocId) -> Result<
    RecordView,
    ForwardIndexError,
> {
    let table = offset_table(metadata);
    if !table.contains_key(id) {
        Err(ForwardIndexError::UnknownDocument)
    } else {
        let offset = table[id].0;
        let size = table[id].1;
        if offset + size > data.len() {
            Err(ForwardIndexError::UnexpectedEof)
        } else {
            match parse_record(data.subrange(offset as int, offset + size)) {
                Some(record) => Ok(record),
                None => Err(ForwardIndexError::Corrupt),
            }
        }
    }
}

/// The forward index as the contracts see it: the two files, how far the
/// sequential reader has come in each, and whether the offset table is
/// loaded.
pub struct ForwardIndexView {
    pub data: Seq<u8>,
    pub metadata: Seq<u8>,
    pub data_position: nat,
    pub metadata_position: nat,
    pub loaded: bool,
}

/// What the sequential reader does next. At the end of the metadata file
/// the stream ends. Otherwise the next entry of the metadata file is read
/// and then as many bytes of the data file as it says, which hold the next
/// record. A file that ends too early and bytes that are no record are
/// errors, and leave the reader where it was.
pub open spec fn next_step(v: ForwardIndexView) -> (Result<Option<RecordView>, ForwardIndexError>, ForwardIndexView) {
    if v.metadata_position >= v.metadata.len() {
        (Ok(None), v)
    } else if v.metadata.len() - v.metadata_position < 28 {
        (Err(ForwardIndexError::UnexpectedEof), v)
    } else {
        let entry = parse_metadata(
            v.metadata.subrange(v.metadata_position as int, v.metadata_position as int + 28),
        )->Some_0;
        let size = entry.size_of_record;
        if v.data_position + size > v.data.len() {
            (Err(ForwardIndexError::UnexpectedEof), v)
        } else {
            match parse_record(v.data.subrange(v.data_position as int, v.data_position as int + size)) {
                None => (Err(ForwardIndexError::Corrupt), v),
                Some(record) => (
                    Ok(Some(record)),
                    ForwardIndexView {
                        data_position: (v.data_position + size) as nat,
                        metadata_position: (v.metadata_position + 28) as nat,
                        ..v
                    },
                ),
            }
        }
    }
}

/// What the sequential reader still has before it: all the records up to
/// the end of the stream, or the first error on the way.
pub open spec fn remaining_records(v: ForwardIndexView) -> Result<Seq<RecordView>, ForwardIndexError>
    decreases v.metadata.len() - v.metadata_position,
{
    match next_step(v).0 {
        Err(e) => Err(e),
        Ok(None) => Ok(Seq::empty()),
        Ok(Some(record)) => match remaining_records(next_step(v).1) {
            Ok(rest) => Ok(seq![record] + rest),
            Err(e) => Err(e),
        },
    }
}

/// The result of a read as the contracts see it.
pub open spec fn read_view(r: Result<Option<ForwardIdexRecord>, ForwardIndexError>) -> Result<
    Option<RecordView>,
    ForwardIndexError,
> {
    match r {
        Ok(Some(record)) => Ok(Some(record@)),
        Ok(None) => Ok(None),
        Err(e) => Err(e),
    }
}

/// The result of a lookup as the contracts see it.
pub open spec fn lookup_view(r: Result<ForwardIdexRecord, ForwardIndexError>) -> Result<
    RecordView,
    ForwardIndexError,
> {
    match r {
        Ok(record) => Ok(record@),
        Err(e) => Err(e),
    }
}

/// The hash table holds the offset table, each identifier under its key.
spec fn holds_table(held: Map<u128, (u64, u64)>, table: Map<DocId, (u64, u64)>) -> bool {
    forall|id: DocId|
        #![trigger table.contains_key(id)]
        #![trigger held.contains_key(doc_key(id) as u128)]
        held.contains_key(doc_key(id) as u128) == table.contains_key(id) && (table.contains_key(
            id,
        ) ==> held[doc_key(id) as u128] == table[id])
}

/// A reader of the forward index: sequential, record by record, and, once
/// the offset table is loaded, by identifier.
pub struct ForwardIndexApi {
    index_file: Vec<u8>,
    index_metadata: Vec<u8>,
    file_position: usize,
    metadata_position: usize,
    loaded_metadata: Option<HashMap<u128, (u64, u64)>>,
}

impl View for ForwardIndexApi {
    type V = ForwardIndexView;

    closed spec fn view(&self) -> ForwardIndexView {
        ForwardIndexView {
            data: self.index_file@,
            metadata: self.index_metadata@,
            data_position: self.file_position as nat,
            metadata_position: self.metadata_position as nat,
            loaded: self.loaded_metadata is Some,
        }
    }
}

impl ForwardIndexApi {
    /// Well-formedness: the reader stands inside its files, and a loaded
    /// offset table is the table of the metadata file.
    pub closed spec fn wf(&self) -> bool {
        &&& self.file_position <= self.index_file@.len()
        &&& self.metadata_position <= self.index_metadata@.len()
        &&& self.loaded_metadata matches Some(held) ==> holds_table(
            held@,
            offset_table(self.index_metadata@),
        )
    }

    /// The reader stands inside its files, and a file is no longer than a
    /// buffer can be.
    pub proof fn lemma_bounds(&self)
        requires
            self.wf(),
        ensures
            self@.data_position <= self@.data.len() <= usize::MAX,
            self@.metadata_position <= self@.metadata.len() <= usize::MAX,
    {
        assert(self.index_file@.len() == self.index_file.len());
        assert(self.index_metadata@.len() == self.index_metadata.len());
    }

    /// A reader at the start of the two files, given by their contents.
    pub fn new(index_file: Vec<u8>, index_metadata: Vec<u8>) -> (api: Self)
        ensures
            api.wf(),
            api@ == (ForwardIndexView {
                data: index_file@,
                metadata: index_metadata@,
                data_position: 0,
                metadata_position: 0,
                loaded: false,
            }),
    {
        ForwardIndexApi {
            index_file,
            index_metadata,
            file_position: 0,
            metadata_position: 0,
            loaded_metadata: None,
        }
    }

    /// Reads the next record of the stream; `Ok(None)` at its end.
    pub fn next(&mut self) -> (r: Result<Option<ForwardIdexRecord>, ForwardIndexError>)
        requires
            old(self).wf(),
        ensures
            final(self).wf(),
            read_view(r) == next_step(old(self)@).0,
            final(self)@ == next_step(old(self)@).1,
    {
        let metadata_len = self.index_metadata.len();
        if self.metadata_position == metadata_len {
            return Ok(None);
        }
        if metadata_len - self.metadata_position < METADATA_SIZE {
            return Err(ForwardIndexError::UnexpectedEof);
        }
        let metadata_end = self.metadata_position + METADATA_SIZE;
        let entry = read_metadata(
            slice_subrange(self.index_metadata.as_slice(), self.metadata_position, metadata_end),
        );
        match entry {
            None => Err(ForwardIndexError::UnexpectedEof),
            Some(next_record_info) => {
                let size = next_record_info.size_of_record;
                let left = self.index_file.len() - self.file_position;
                if size > left as u64 {
                    return Err(ForwardIndexError::UnexpectedEof);
                }
                let record_end = self.file_position + size as usize;
                let record = read_record(
                    slice_subrange(self.index_file.as_slice(), self.file_position, record_end),
                );
                match record {
                    None => Err(ForwardIndexError::Corrupt),
                    Some(next_record) => {
                        self.file_position = record_end;
                        self.metadata_position = metadata_end;
                        Ok(Some(next_record))
                    },
                }
            },
        }
    }

    /// Loads the offset table from the metadata file, unless it is loaded
    /// already. The sequential reader stays where it is.
    pub fn load_metadata(&mut self)
        requires
            old(self).wf(),
        ensures
            final(self).wf(),
            final(self)@ == (ForwardIndexView { loaded: true, ..old(self)@ }),
    {
        if self.loaded_metadata.is_some() {
            return;
        }
        let mut metadata: HashMap<u128, (u64, u64)> = HashMap::new();
        let count = self.index_metadata.len() / METADATA_SIZE;
        let mut i: usize = 0;
        while i < count
            invariant
                i <= count,
                count == entry_count(self.index_metadata@),
                holds_table(metadata@, offset_table_upto(self.index_metadata@, i as nat)),
            decreases count - i,
        {
            assert(METADATA_SIZE == 28);
            assert(self.index_metadata@.len() == self.index_metadata.len());
            assert((i + 1) * 28 <= self.index_metadata@.len()) by {
                assert(i + 1 <= self.index_metadata@.len() / 28);
            }
            let start = i * METADATA_SIZE;
            let entry = read_metadata(
                slice_subrange(self.index_metadata.as_slice(), start, start + METADATA_SIZE),
            );
            match entry {
                Some(next_record) => {
                    let ghost held = metadata@;
                    let ghost table = offset_table_upto(self.index_metadata@, i as nat);
                    let value = (next_record.offset_in_index_file, next_record.size_of_record);
                    metadata.insert(key_of(&next_record.id), value);
                    proof {
                        let after = table.insert(next_record.id, value);
                        assert(after == offset_table_upto(self.index_metadata@, (i + 1) as nat));
                        assert forall|id: DocId|
                            #![trigger after.contains_key(id)]
                            #![trigger metadata@.contains_key(doc_key(id) as u128)]
                            metadata@.contains_key(doc_key(id) as u128) == after.contains_key(id)
                                && (after.contains_key(id) ==> metadata@[doc_key(id) as u128]
                                == after[id]) by {
                            lemma_doc_key_bound(id);
                            lemma_doc_key_bound(next_record.id);
                            if doc_key(id) == doc_key(next_record.id) {
                                lemma_doc_key_injective(id, next_record.id);
                            }
                            assert(held.contains_key(doc_key(id) as u128) == table.contains_key(
                                id,
                            ));
                        }
                    }
                },
                None => {},
            }
            i = i + 1;
        }
        self.loaded_metadata = Some(metadata);
    }

    /// Whether the offset table is loaded.
    pub fn is_loaded(&self) -> (r: bool)
        ensures
            r == self@.loaded,
    {
        self.loaded_metadata.is_some()
    }

    /// Reads the record of the document `id` from the place that the loaded
    /// offset table gives for it. The reader itself is left untouched, so
    /// that a loaded index can be read from many places at once.
    pub fn get_by_id(&self, id: &DocId) -> (r: Result<ForwardIdexRecord, ForwardIndexError>)
        requires
            self.wf(),
            self@.loaded,
        ensures
            lookup_view(r) == lookup(self@.data, self@.metadata, *id),
    {
        proof {
            lemma_doc_key_bound(*id);
        }
        let key = key_of(id);
        let found = match &self.loaded_metadata {
            Some(loaded_meta) => match loaded_meta.get(&key) {
                Some(meta_info) => Some(*meta_info),
                None => None,
            },
            None => None,
        };
        match found {
            None => Err(ForwardIndexError::UnknownDocument),
            Some(meta_info) => {
                let offset = meta_info.0;
                let size = meta_info.1;
                let len = self.index_file.len() as u64;
                if offset > len || size > len - offset {
                    return Err(ForwardIndexError::UnexpectedEof);
                }
                let start = offset as usize;
                let end = start + size as usize;
                match read_record(slice_subrange(self.index_file.as_slice(), start, end)) {
                    Some(record) => Ok(record),
                    None => Err(ForwardIndexError::Corrupt),
                }
            },
        }
    }

    /// Reads the record of the document `id` from the place that the offset
    /// table gives for it. The offset table is loaded first where it is not
    /// loaded yet.
    pub fn load_record_by(&mut self, id: &DocId) -> (r: Result<ForwardIdexRecord, ForwardIndexError>)
        requires
            old(self).wf(),
        ensures
            final(self).wf(),
            final(self)@ == (ForwardIndexView { loaded: true, ..old(self)@ }),
            lookup_view(r) == lookup(old(self)@.data, old(self)@.metadata, *id),
    {
        self.load_metadata();
        self.get_by_id(id)
    }
}

} // verus!
