//! The inverted index: for each term the documents that hold it, built in
//! one pass over the forward index, and the file that keeps it.

use vstd::prelude::*;
use crate::boolean_search::{
    answers, boolean_search, postings_ascending, postings_view, request_terms,
};
use crate::doc_id::{ascending, is_ascending, DocId};
use crate::wire::{decode_index, encode_index, index_wire};
use crate::wire_lemmas::lemma_index_unique;
use crate::forward_index::{
    next_step, remaining_records, ForwardIndexApi, ForwardIndexError, LemmaView, RecordView,
};
use crate::term_map::TermMap;

verus! {

/// One entry of the inverted index file: a term, the documents that hold
/// it, and its inverse document frequency.
///
/// The inverse document frequency is a floating-point number; the index
/// carries it as the 64 bits of its IEEE 754 representation.
#[derive(Clone, Debug, PartialEq, Eq)]
pub struct ReversedIndexRecord {
    pub word: String,
    pub doc_ids: Vec<DocId>,
    pub idf_bits: u64,
}

/// An entry as the contracts see it.
pub struct EntryView {
    pub word: Seq<char>,
    pub doc_ids: Seq<DocId>,
    pub idf_bits: u64,
}

impl View for ReversedIndexRecord {
    type V = EntryView;

    open spec fn view(&self) -> EntryView {
        EntryView { word: self.word@, doc_ids: self.doc_ids@, idf_bits: self.idf_bits }
    }
}

/// The entries of a list as the contracts see them.
pub open spec fn entry_views(entries: Seq<ReversedIndexRecord>) -> Seq<EntryView> {
    entries.map_values(|e: ReversedIndexRecord| e@)
}

/// What the lemmas of one document add to the postings list of `term`: the
/// document's identifier, once for each lemma with this text.
pub open spec fn hits(lemmas: Seq<LemmaView>, id: DocId, term: Seq<char>) -> Seq<DocId>
    decreases lemmas.len(),
{
    if lemmas.len() == 0 {
        Seq::empty()
    } else {
        let before = hits(lemmas.drop_last(), id, term);
        if lemmas.last().text == term {
            before.push(id)
        } else {
            before
        }
    }
}

/// The postings list of `term` over a stream of records: the identifiers of
/// the records that hold the term, in the order of the stream.
pub open spec fn postings(records: Seq<RecordView>, term: Seq<char>) -> Seq<DocId>
    decreases records.len(),
{
    if records.len() == 0 {
        Seq::empty()
    } else {
        postings(records.drop_last(), term) + hits(
            records.last().lemmas,
            records.last().id,
            term,
        )
    }
}

/// The postings list of `term` over the records and the first lemmas of one
/// more document.
pub open spec fn postings_with(
    records: Seq<RecordView>,
    lemmas: Seq<LemmaView>,
    id: DocId,
    term: Seq<char>,
) -> Seq<DocId> {
    postings(records, term) + hits(lemmas, id, term)
}

/// The inverted index of a stream of records: each term that occurs, with
/// its postings list.
pub open spec fn inverted(records: Seq<RecordView>) -> Map<Seq<char>, Seq<DocId>> {
    Map::new(
        |term: Seq<char>| postings(records, term).len() > 0,
        |term: Seq<char>| postings(records, term),
    )
}

/// The inverted index of the records and the first lemmas of one more
/// document.
pub open spec fn inverted_with(records: Seq<RecordView>, lemmas: Seq<LemmaView>, id: DocId) -> Map<
    Seq<char>,
    Seq<DocId>,
> {
    Map::new(
        |term: Seq<char>| postings_with(records, lemmas, id, term).len() > 0,
        |term: Seq<char>| postings_with(records, lemmas, id, term),
    )
}

/// The list that the index holds for `term`; the empty list where it holds
/// none.
pub open spec fn held(index: Map<Seq<char>, Vec<DocId>>, term: Seq<char>) -> Seq<DocId> {
    if index.contains_key(term) {
        index[term]@
    } else {
        Seq::empty()
    }
}

/// Appends `id` to the postings list of `term`, which is created where the
/// term is new.
pub fn append_posting(dictionary: &mut TermMap<Vec<DocId>>, term: &str, id: DocId)
    requires
        old(dictionary).wf(),
    ensures
        final(dictionary).wf(),
        postings_view(final(dictionary)@) == postings_view(old(dictionary)@).insert(
            term@,
            held(old(dictionary)@, term@).push(id),
        ),
{
    let ghost before = dictionary@;
    match dictionary.position(term) {
        Ok(i) => {
            proof {
                dictionary.lemma_entries();
            }
            let mut list = dictionary.replace_at(i, Vec::new());
            list.push(id);
            dictionary.replace_at(i, list);
        },
        Err(i) => {
            let mut list: Vec<DocId> = Vec::new();
            list.push(id);
            dictionary.insert_at(i, term.to_owned(), list);
        },
    }
    proof {
        assert(postings_view(dictionary@) =~= postings_view(before).insert(
            term@,
            held(before, term@).push(id),
        ));
    }
}

/// What is expected of a finished inversion, given that the stream had
/// `outcome` before it.
pub open spec fn inversion_of(
    outcome: Result<Seq<RecordView>, ForwardIndexError>,
    r: Result<(TermMap<Vec<DocId>>, u64), ForwardIndexError>,
) -> bool {
    match outcome {
        Ok(records) => r matches Ok(pair) && pair.0.wf() && postings_view(pair.0@) == inverted(
            records,
        ) && pair.1 == records.len(),
        Err(e) => r matches Err(f) && f == e,
    }
}

/// The records read so far, then what the stream still has before it.
spec fn continued(
    consumed: Seq<RecordView>,
    rest: Result<Seq<RecordView>, ForwardIndexError>,
) -> Result<Seq<RecordView>, ForwardIndexError> {
    match rest {
        Ok(records) => Ok(consumed + records),
        Err(e) => Err(e),
    }
}

/// Inverts the forward index in one pass: reads the stream to its end and
/// gives each term the identifiers of the records that hold it, in the
/// order of the stream, together with the number of records read. An error
/// of the stream ends the pass and is handed on. The reader is left at the
/// end of the stream, or where the error stopped it.
///
/// The whole dictionary is kept in memory: nothing is spilled to disk, so
/// memory bounds the size of the corpus.
pub fn spimi_invert(stream: &mut ForwardIndexApi) -> (r: Result<
    (TermMap<Vec<DocId>>, u64),
    ForwardIndexError,
>)
    requires
        old(stream).wf(),
    ensures
        final(stream).wf(),
        final(stream)@.data == old(stream)@.data,
        final(stream)@.metadata == old(stream)@.metadata,
        final(stream)@.loaded == old(stream)@.loaded,
        inversion_of(remaining_records(old(stream)@), r),
        match r {
            Ok(_) => next_step(final(stream)@).0 == Ok::<Option<RecordView>, ForwardIndexError>(
                None,
            ),
            Err(e) => next_step(final(stream)@).0 == Err::<Option<RecordView>, ForwardIndexError>(
                e,
            ),
        },
{
    let ghost start = stream@;
    let ghost mut consumed: Seq<RecordView> = Seq::empty();
    let mut dictionary: TermMap<Vec<DocId>> = TermMap::new();
    let mut count_documents: u64 = 0;
    proof {
        assert(postings_view(dictionary@) =~= inverted(consumed));
        assert(consumed + remaining_records(start)->Ok_0 =~= remaining_records(start)->Ok_0);
    }
    loop
        invariant
            start == old(stream)@,
            stream.wf(),
            dictionary.wf(),
            stream@.data == start.data,
            stream@.metadata == start.metadata,
            stream@.loaded == start.loaded,
            postings_view(dictionary@) == inverted(consumed),
            count_documents == consumed.len(),
            28 * consumed.len() <= stream@.metadata_position,
            remaining_records(start) == continued(consumed, remaining_records(stream@)),
        decreases stream@.metadata.len() - stream@.metadata_position,
    {
        let ghost before = stream@;
        proof {
            stream.lemma_bounds();
        }
        match stream.next() {
            Err(e) => {
                return Err(e);
            },
            Ok(None) => {
                proof {
                    assert(consumed + Seq::<RecordView>::empty() =~= consumed);
                }
                return Ok((dictionary, count_documents));
            },
            Ok(Some(docs)) => {
                proof {
                    stream.lemma_bounds();
                }
                count_documents = count_documents + 1;
                let ghost record = docs@;
                let mut j: usize = 0;
                proof {
                    assert(record.lemmas.take(0) =~= Seq::<LemmaView>::empty());
                    assert(postings_view(dictionary@) =~= inverted_with(
                        consumed,
                        record.lemmas.take(0),
                        record.id,
                    )) by {
                        assert forall|t: Seq<char>| postings_with(
                            consumed,
                            record.lemmas.take(0),
                            record.id,
                            t,
                        ) =~= postings(consumed, t) by {}
                    }
                }
                while j < docs.lemmas.len()
                    invariant
                        j <= docs.lemmas@.len(),
                        record == docs@,
                        dictionary.wf(),
                        postings_view(dictionary@) == inverted_with(
                            consumed,
                            record.lemmas.take(j as int),
                            record.id,
                        ),
                    decreases docs.lemmas@.len() - j,
                {
                    let lemma = &docs.lemmas[j];
                    let ghost index = dictionary@;
                    let ghost taken = record.lemmas.take(j as int);
                    append_posting(&mut dictionary, lemma.text.as_str(), docs.id);
                    proof {
                        let next = record.lemmas.take(j as int + 1);
                        assert(next.drop_last() =~= taken);
                        assert(next.last() == record.lemmas[j as int]);
                        assert(next.last().text == lemma.text@);
                        assert forall|t: Seq<char>| #[trigger]
                            postings_with(consumed, next, record.id, t) == (if t == lemma.text@ {
                                postings_with(consumed, taken, record.id, t).push(record.id)
                            } else {
                                postings_with(consumed, taken, record.id, t)
                            }) by {
                            if t == lemma.text@ {
                                assert(postings_with(consumed, next, record.id, t)
                                    =~= postings_with(consumed, taken, record.id, t).push(
                                    record.id,
                                ));
                            }
                        }
                        assert(held(index, lemma.text@) =~= postings_with(
                            consumed,
                            taken,
                            record.id,
                            lemma.text@,
                        )) by {
                            let t = lemma.text@;
                            let known = inverted_with(consumed, taken, record.id);
                            assert(postings_view(index).contains_key(t) == index.contains_key(t));
                            assert(known.contains_key(t) == (postings_with(
                                consumed,
                                taken,
                                record.id,
                                t,
                            ).len() > 0));
                            if index.contains_key(t) {
                                assert(postings_view(index)[t] == index[t]@);
                                assert(known[t] == postings_with(consumed, taken, record.id, t));
                            }
                        }
                        assert(postings_view(dictionary@) =~= inverted_with(
                            consumed,
                            next,
                            record.id,
                        ));
                    }
                    j = j + 1;
                }
                proof {
                    assert(record.lemmas.take(docs.lemmas@.len() as int) =~= record.lemmas);
                    let grown = consumed.push(record);
                    assert(grown.drop_last() =~= consumed);
                    assert(grown.last() == record);
                    assert(inverted_with(consumed, record.lemmas, record.id) =~= inverted(grown));
                    let rest = remaining_records(stream@);
                    if rest is Ok {
                        assert(consumed + (seq![record] + rest->Ok_0) =~= grown + rest->Ok_0);
                    }
                    consumed = grown;
                }
            },
        }
    }
}

/// The entries whose encoding the buffer starts with; none where it starts
/// with the encoding of no list of entries.
pub open spec fn parse_index(bytes: Seq<u8>) -> Option<Seq<EntryView>> {
    if exists|es: Seq<EntryView>| (#[trigger] index_wire(es)).is_prefix_of(bytes) {
        Some(choose|es: Seq<EntryView>| (#[trigger] index_wire(es)).is_prefix_of(bytes))
    } else {
        None
    }
}

/// Reading the encoding of a list of entries, with whatever follows it,
/// gives the entries.
pub proof fn lemma_parse_index_wire(es: Seq<EntryView>, rest: Seq<u8>)
    requires
        (index_wire(es) + rest).len() <= u64::MAX,
    ensures
        parse_index(index_wire(es) + rest) == Some(es),
{
    let bytes = index_wire(es) + rest;
    assert(index_wire(es).is_prefix_of(bytes));
    let other = choose|other: Seq<EntryView>| (#[trigger] index_wire(other)).is_prefix_of(bytes);
    lemma_index_unique(es, other, bytes);
}

/// The postings that a list of entries stands for. Of two entries with one
/// term the later one counts.
pub open spec fn entries_postings(es: Seq<EntryView>) -> Map<Seq<char>, Seq<DocId>>
    decreases es.len(),
{
    if es.len() == 0 {
        Map::empty()
    } else {
        entries_postings(es.drop_last()).insert(es.last().word, es.last().doc_ids)
    }
}

/// The inverse document frequencies that a list of entries stands for. Of
/// two entries with one term the later one counts.
pub open spec fn entries_idf(es: Seq<EntryView>) -> Map<Seq<char>, u64>
    decreases es.len(),
{
    if es.len() == 0 {
        Map::empty()
    } else {
        entries_idf(es.drop_last()).insert(es.last().word, es.last().idf_bits)
    }
}

/// The postings list of every entry is strictly ascending.
pub open spec fn entries_ascending(es: Seq<EntryView>) -> bool {
    forall|i: int| 0 <= i < es.len() ==> ascending(#[trigger] es[i].doc_ids)
}

/// The entries that are written for a dictionary: one for each term, in
/// term order, with the inverse document frequency given for it.
pub open spec fn dump_entries(
    terms: Seq<Seq<char>>,
    lists: Seq<Vec<DocId>>,
    idf_bits: Seq<u64>,
) -> Seq<EntryView> {
    Seq::new(
        terms.len(),
        |i: int| EntryView { word: terms[i], doc_ids: lists[i]@, idf_bits: idf_bits[i] },
    )
}

/// Why loading the inverted index failed.
#[derive(Clone, Copy, Debug, PartialEq, Eq)]
pub enum ReversedIndexError {
    /// The file is not the encoding of a list of entries.
    Corrupt,
    /// An entry holds a postings list that is not strictly ascending.
    UnsortedPostings,
}

/// A copy of a list of identifiers.
fn copy_ids(ids: &Vec<DocId>) -> (copy: Vec<DocId>)
    ensures
        copy@ == ids@,
{
    let mut copy: Vec<DocId> = Vec::with_capacity(ids.len());
    let mut i: usize = 0;
    while i < ids.len()
        invariant
            i <= ids@.len(),
            copy@ == ids@.take(i as int),
        decreases ids@.len() - i,
    {
        copy.push(ids[i]);
        proof {
            assert(ids@.take(i as int).push(ids@[i as int]) =~= ids@.take(i as int + 1));
        }
        i = i + 1;
    }
    proof {
        assert(ids@.take(ids@.len() as int) =~= ids@);
    }
    copy
}

/// Whether every postings list of the dictionary is strictly ascending.
pub fn has_ascending_postings(dictionary: &TermMap<Vec<DocId>>) -> (r: bool)
    requires
        dictionary.wf(),
    ensures
        r == postings_ascending(postings_view(dictionary@)),
{
    proof {
        dictionary.lemma_entries();
    }
    let mut i: usize = 0;
    while i < dictionary.len()
        invariant
            dictionary.wf(),
            i <= dictionary.terms().len(),
            forall|j: int| 0 <= j < i ==> ascending(#[trigger] dictionary.values()[j]@),
        decreases dictionary.terms().len() - i,
    {
        if !is_ascending(dictionary.value_at(i)) {
            proof {
                dictionary.lemma_entries();
                let t = dictionary.terms()[i as int];
                assert(dictionary@.contains_key(t));
                assert(postings_view(dictionary@).contains_key(t));
                assert(postings_view(dictionary@)[t] == dictionary.values()[i as int]@);
            }
            return false;
        }
        i = i + 1;
    }
    proof {
        dictionary.lemma_entries();
        assert forall|t: Seq<char>| postings_view(dictionary@).contains_key(t) implies ascending(
            #[trigger] postings_view(dictionary@)[t],
        ) by {
            assert(dictionary@.contains_key(t));
            let j = dictionary.terms().index_of(t);
            assert(dictionary.terms()[j] == t);
            assert(ascending(dictionary.values()[j]@));
        }
    }
    true
}

/// The loaded inverted index: the postings list and the inverse document
/// frequency of each term. It is built once and read from then on.
pub struct ReversedIndexAPI {
    postings: TermMap<Vec<DocId>>,
    idf: TermMap<u64>,
}

impl ReversedIndexAPI {
    /// The postings list of each term.
    pub closed spec fn postings_map(&self) -> Map<Seq<char>, Seq<DocId>> {
        postings_view(self.postings@)
    }

    /// The inverse document frequency of each term.
    pub closed spec fn idf_map(&self) -> Map<Seq<char>, u64> {
        self.idf@
    }

    /// Well-formedness: both maps are, and every postings list is strictly
    /// ascending.
    pub closed spec fn wf(&self) -> bool {
        &&& self.postings.wf()
        &&& self.idf.wf()
        &&& postings_ascending(postings_view(self.postings@))
    }

    /// The contents of the inverted index file for a dictionary and the
    /// inverse document frequencies of its terms, given in term order.
    /// Nothing is written where the two do not have the same length.
    pub fn dump_to_file(dictionary: &TermMap<Vec<DocId>>, idf_bits: &Vec<u64>) -> (r: Option<
        Vec<u8>,
    >)
        requires
            dictionary.wf(),
        ensures
            r is Some <==> idf_bits@.len() == dictionary.terms().len(),
            r matches Some(bytes) ==> bytes@ == index_wire(
                dump_entries(dictionary.terms(), dictionary.values(), idf_bits@),
            ),
    {
        let n = dictionary.len();
        if idf_bits.len() != n {
            return None;
        }
        let ghost wanted = dump_entries(dictionary.terms(), dictionary.values(), idf_bits@);
        let mut index: Vec<ReversedIndexRecord> = Vec::with_capacity(n);
        let mut i: usize = 0;
        while i < n
            invariant
                dictionary.wf(),
                n == dictionary.terms().len(),
                n == idf_bits@.len(),
                i <= n,
                wanted == dump_entries(dictionary.terms(), dictionary.values(), idf_bits@),
                index@.len() == i,
                entry_views(index@) == wanted.take(i as int),
            decreases n - i,
        {
            let record = ReversedIndexRecord {
                word: dictionary.term_at(i).clone(),
                doc_ids: copy_ids(dictionary.value_at(i)),
                idf_bits: idf_bits[i],
            };
            proof {
                assert(record@ == wanted[i as int]);
                let grown = entry_views(index@.push(record));
                assert forall|j: int| 0 <= j < i + 1 implies grown[j] == wanted[j] by {
                    if j < i {
                        assert(entry_views(index@)[j] == wanted.take(i as int)[j]);
                        assert(index@.push(record)[j] == index@[j]);
                    } else {
                        assert(index@.push(record)[j] == record);
                    }
                }
                assert(grown =~= wanted.take(i as int + 1));
            }
            index.push(record);
            i = i + 1;
        }
        proof {
            assert(wanted.take(n as int) =~= wanted);
        }
        Some(encode_index(&index))
    }

    /// Loads the inverted index from the contents of its file. A file that
    /// is not the encoding of a list of entries is refused, and so is one
    /// with a postings list that is not strictly ascending.
    pub fn load_from_file(file: &[u8]) -> (r: Result<ReversedIndexAPI, ReversedIndexError>)
        ensures
            match parse_index(file@) {
                None => r == Err::<ReversedIndexAPI, ReversedIndexError>(
                    ReversedIndexError::Corrupt,
                ),
                Some(es) => if entries_ascending(es) {
                    r matches Ok(index) && index.wf() && index.postings_map() == entries_postings(
                        es,
                    ) && index.idf_map() == entries_idf(es)
                } else {
                    r == Err::<ReversedIndexAPI, ReversedIndexError>(
                        ReversedIndexError::UnsortedPostings,
                    )
                },
            },
    {
        let decoded = decode_index(file);
        proof {
            assert(file@.len() == file.len());
            if decoded is Some {
                let es = entry_views(decoded->Some_0@);
                let chosen = choose|other: Seq<EntryView>|
                    (#[trigger] index_wire(other)).is_prefix_of(file@);
                lemma_index_unique(es, chosen, file@);
            }
        }
        let mut index = match decoded {
            None => {
                return Err(ReversedIndexError::Corrupt);
            },
            Some(index) => index,
        };
        let ghost es = entry_views(index@);
        assert(parse_index(file@) == Some(es));
        let mut postings: TermMap<Vec<DocId>> = TermMap::new();
        let mut idf: TermMap<u64> = TermMap::new();
        let mut i: usize = 0;
        proof {
            assert(es.take(0) =~= Seq::<EntryView>::empty());
            assert(postings_view(postings@) =~= entries_postings(es.take(0)));
        }
        while i < index.len()
            invariant
                i <= index@.len(),
                es.len() == index@.len(),
                parse_index(file@) == Some(es),
                forall|j: int| i <= j < index@.len() ==> (#[trigger] index@[j])@ == es[j],
                postings.wf(),
                idf.wf(),
                postings_ascending(postings_view(postings@)),
                entries_ascending(es.take(i as int)),
                postings_view(postings@) == entries_postings(es.take(i as int)),
                idf@ == entries_idf(es.take(i as int)),
            decreases index@.len() - i,
        {
            let ghost held_postings = postings@;
            let mut word = String::new();
            let mut doc_ids: Vec<DocId> = Vec::new();
            let idf_bits = index[i].idf_bits;
            std::mem::swap(&mut index[i].word, &mut word);
            std::mem::swap(&mut index[i].doc_ids, &mut doc_ids);
            assert(word@ == es[i as int].word);
            assert(doc_ids@ == es[i as int].doc_ids);
            if !is_ascending(&doc_ids) {
                proof {
                    assert(!entries_ascending(es));
                }
                return Err(ReversedIndexError::UnsortedPostings);
            }
            let word_for_idf = word.clone();
            postings.insert(word, doc_ids);
            idf.insert(word_for_idf, idf_bits);
            proof {
                let next = es.take(i as int + 1);
                assert(next.drop_last() =~= es.take(i as int));
                assert(next.last() == es[i as int]);
                assert(postings_view(postings@) =~= entries_postings(next));
                assert forall|j: int| 0 <= j < next.len() implies ascending(
                    #[trigger] next[j].doc_ids,
                ) by {
                    if j < i {
                        assert(es.take(i as int)[j] == next[j]);
                    }
                }
                assert forall|t: Seq<char>|
                    postings_view(postings@).contains_key(t) implies ascending(
                    #[trigger] postings_view(postings@)[t],
                ) by {
                    if t != es[i as int].word {
                        assert(postings_view(held_postings).contains_key(t));
                        assert(postings_view(postings@)[t] == postings_view(held_postings)[t]);
                    }
                }
            }
            i = i + 1;
        }
        proof {
            assert(es.take(index@.len() as int) =~= es);
        }
        Ok(ReversedIndexAPI { postings, idf })
    }

    /// The documents that answer the request, in ascending order of
    /// identifier.
    pub fn retrieve(&self, request: &Vec<String>) -> (result: Vec<DocId>)
        requires
            self.wf(),
        ensures
            ascending(result@),
            forall|id: DocId|
                result@.contains(id) <==> answers(
                    request_terms(request@),
                    self.postings_map(),
                    id,
                ),
    {
        boolean_search(request, &self.postings)
    }

    /// The postings of the index, for retrieval.
    pub fn postings(&self) -> (r: &TermMap<Vec<DocId>>)
        requires
            self.wf(),
        ensures
            r.wf(),
            postings_ascending(postings_view(r@)),
            postings_view(r@) == self.postings_map(),
    {
        &self.postings
    }

    /// The inverse document frequencies of the index, for ranking.
    pub fn idf(&self) -> (r: &TermMap<u64>)
        requires
            self.wf(),
        ensures
            r.wf(),
            r@ == self.idf_map(),
    {
        &self.idf
    }
}

/// The size in bytes beyond which a dictionary is taken to be too large to
/// be kept in memory: eight mebibytes.
pub const MEMORY_LIMIT: usize = 8388608;

/// The number of bytes that the dictionary is taken to hold when
/// `count_pages_processed` documents have gone into it: seven for each
/// term, and twelve for each term and document.
pub open spec fn dictionary_size(terms: nat, count_pages_processed: nat) -> nat {
    terms * 7 + terms * count_pages_processed * 12
}

/// An estimate of the memory that the dictionary takes, for deciding when
/// it has grown too large; an estimate beyond `usize::MAX` is given as
/// `usize::MAX`.
pub fn size_of_dictionary(dict: &TermMap<Vec<DocId>>, count_pages_processed: usize) -> (r: usize)
    requires
        dict.wf(),
    ensures
        r == if dictionary_size(dict.terms().len(), count_pages_processed as nat) <= usize::MAX {
            dictionary_size(dict.terms().len(), count_pages_processed as nat)
        } else {
            usize::MAX as nat
        },
{
    let average_word_len: usize = 7;
    let keys = dict.len();
    let ghost k = keys as nat;
    let ghost p = count_pages_processed as nat;
    assert(k * p * 12 >= k * p) by (nonlinear_arith);
    assert(k * p >= 0) by (nonlinear_arith);
    let keys_size = match keys.checked_mul(average_word_len) {
        Some(size) => size,
        None => {
            return usize::MAX;
        },
    };
    let pairs = match keys.checked_mul(count_pages_processed) {
        Some(pairs) => pairs,
        None => {
            return usize::MAX;
        },
    };
    let values_size = match pairs.checked_mul(12) {
        Some(size) => size,
        None => {
            return usize::MAX;
        },
    };
    match keys_size.checked_add(values_size) {
        Some(size) => size,
        None => usize::MAX,
    }
}

/// Whether the dictionary is taken to have outgrown the memory limit, so
/// that it has to be handed on and started afresh.
pub fn exceeds_memory_limit(dict: &TermMap<Vec<DocId>>, count_pages_processed: usize) -> (r: bool)
    requires
        dict.wf(),
    ensures
        r == (dictionary_size(dict.terms().len(), count_pages_processed as nat) > MEMORY_LIMIT),
{
    size_of_dictionary(dict, count_pages_processed) > MEMORY_LIMIT
}

} // verus!
