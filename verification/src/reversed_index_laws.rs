//! What holds of the inverted index: over a corpus in ascending order of
//! identifier its postings lists are the sorted sets of the documents that
//! hold each term, and what is written for a corpus is a matter of the
//! corpus alone.

use vstd::prelude::*;
use crate::boolean_search::postings_view;
use crate::doc_id::{ascending, doc_key, DocId};
use crate::forward_index::RecordView;
use crate::reversed_index::{
    dump_entries, entries_idf, entries_postings, hits, inverted, postings, EntryView,
};
use crate::wire::index_wire;
use crate::term::{lemma_term_asymmetric, term_less};
use crate::term_map::TermMap;

verus! {

/// The record has a lemma with the text `term`.
pub open spec fn holds_term(record: RecordView, term: Seq<char>) -> bool {
    exists|j: int| 0 <= j < record.lemmas.len() && (#[trigger] record.lemmas[j]).text == term
}

/// No two lemmas of the record have one text.
pub open spec fn terms_unique(record: RecordView) -> bool {
    forall|i: int, j: int|
        0 <= i < j < record.lemmas.len() ==> record.lemmas[i].text != record.lemmas[j].text
}

/// The records come in strictly ascending order of identifier.
pub open spec fn records_ascending(records: Seq<RecordView>) -> bool {
    forall|i: int, j: int|
        0 <= i < j < records.len() ==> doc_key(records[i].id) < doc_key(records[j].id)
}

/// Some record with the identifier `id` holds `term`.
pub open spec fn held_by(records: Seq<RecordView>, term: Seq<char>, id: DocId) -> bool {
    exists|i: int|
        0 <= i < records.len() && (#[trigger] records[i]).id == id && holds_term(records[i], term)
}

/// The number of records that hold `term`.
pub open spec fn document_frequency(records: Seq<RecordView>, term: Seq<char>) -> nat
    decreases records.len(),
{
    if records.len() == 0 {
        0
    } else {
        document_frequency(records.drop_last(), term) + if holds_term(records.last(), term) {
            1nat
        } else {
            0nat
        }
    }
}

/// A document whose lemmas are distinct adds its identifier to the
/// postings list of a term once if it holds the term, and not at all
/// otherwise.
pub proof fn lemma_hits_of_unique(record: RecordView, term: Seq<char>)
    requires
        terms_unique(record),
    ensures
        hits(record.lemmas, record.id, term) == if holds_term(record, term) {
            seq![record.id]
        } else {
            Seq::<DocId>::empty()
        },
    decreases record.lemmas.len(),
{
    let lemmas = record.lemmas;
    if lemmas.len() == 0 {
    } else {
        let shorter = RecordView { id: record.id, lemmas: lemmas.drop_last() };
        assert forall|i: int, j: int| 0 <= i < j < shorter.lemmas.len() implies shorter.lemmas[i].text
            != shorter.lemmas[j].text by {
            assert(lemmas[i].text != lemmas[j].text);
        }
        lemma_hits_of_unique(shorter, term);
        let last = lemmas.len() - 1;
        if holds_term(shorter, term) {
            let j = choose|j: int|
                0 <= j < shorter.lemmas.len() && (#[trigger] shorter.lemmas[j]).text == term;
            assert(lemmas[j].text == term);
            assert(lemmas[j].text != lemmas[last].text);
            assert(holds_term(record, term));
        } else if lemmas[last].text == term {
            assert(holds_term(record, term));
            assert(Seq::<DocId>::empty().push(record.id) =~= seq![record.id]);
        } else {
            if holds_term(record, term) {
                let j = choose|j: int|
                    0 <= j < lemmas.len() && (#[trigger] lemmas[j]).text == term;
                assert(shorter.lemmas[j].text == term);
            }
        }
    }
}

/// Inversion is correct: over records in strictly ascending order of
/// identifier, each with distinct lemmas, the postings list of a term is
/// strictly ascending, holds exactly the identifiers of the records that
/// hold the term, and is as long as the number of those records; the
/// index has the term if a record holds it.
pub proof fn lemma_inversion_correct(records: Seq<RecordView>, term: Seq<char>)
    requires
        records_ascending(records),
        forall|i: int| 0 <= i < records.len() ==> terms_unique(#[trigger] records[i]),
    ensures
        ascending(postings(records, term)),
        forall|id: DocId| postings(records, term).contains(id) <==> held_by(records, term, id),
        postings(records, term).len() == document_frequency(records, term),
        inverted(records).contains_key(term) <==> exists|i: int|
            0 <= i < records.len() && holds_term(#[trigger] records[i], term),
    decreases records.len(),
{
    if records.len() == 0 {
        assert forall|id: DocId| !held_by(records, term, id) by {}
    } else {
        let init = records.drop_last();
        let last = records.last();
        let n = records.len() - 1;
        assert forall|i: int, j: int| 0 <= i < j < init.len() implies doc_key(init[i].id)
            < doc_key(init[j].id) by {
            assert(doc_key(records[i].id) < doc_key(records[j].id));
        }
        assert forall|i: int| 0 <= i < init.len() implies terms_unique(#[trigger] init[i]) by {
            assert(terms_unique(records[i]));
        }
        lemma_inversion_correct(init, term);
        lemma_hits_of_unique(last, term);
        let before = postings(init, term);
        let whole = postings(records, term);
        assert forall|id: DocId| before.contains(id) implies doc_key(id) < doc_key(last.id) by {
            assert(held_by(init, term, id));
            let i = choose|i: int|
                0 <= i < init.len() && (#[trigger] init[i]).id == id && holds_term(init[i], term);
            assert(doc_key(records[i].id) < doc_key(records[n].id));
        }
        if holds_term(last, term) {
            assert(whole =~= before.push(last.id));
            assert forall|i: int, j: int| 0 <= i < j < whole.len() implies doc_key(whole[i])
                < doc_key(whole[j]) by {
                if j == before.len() {
                    assert(before.contains(before[i]));
                }
            }
        } else {
            assert(whole =~= before);
        }
        assert forall|id: DocId| whole.contains(id) <==> held_by(records, term, id) by {
            if whole.contains(id) {
                let p = whole.index_of(id);
                if p < before.len() {
                    assert(before[p] == id);
                    assert(before.contains(id));
                    assert(held_by(init, term, id));
                    let i = choose|i: int|
                        0 <= i < init.len() && (#[trigger] init[i]).id == id && holds_term(
                            init[i],
                            term,
                        );
                    assert(records[i].id == id && holds_term(records[i], term));
                } else {
                    assert(records[n].id == id && holds_term(records[n], term));
                }
            }
            if held_by(records, term, id) {
                let i = choose|i: int|
                    0 <= i < records.len() && (#[trigger] records[i]).id == id && holds_term(
                        records[i],
                        term,
                    );
                if i < n {
                    assert(init[i].id == id && holds_term(init[i], term));
                    assert(held_by(init, term, id));
                    let p = before.index_of(id);
                    assert(whole[p] == id);
                } else {
                    assert(whole[whole.len() - 1] == id);
                }
            }
        }
        if inverted(records).contains_key(term) {
            assert(whole.len() > 0);
            assert(whole.contains(whole[0]));
            assert(held_by(records, term, whole[0]));
        }
        if exists|i: int| 0 <= i < records.len() && holds_term(#[trigger] records[i], term) {
            let i = choose|i: int| 0 <= i < records.len() && holds_term(#[trigger] records[i], term);
            assert(held_by(records, term, records[i].id));
            assert(whole.contains(records[i].id));
        }
    }
}

/// What is written for a dictionary is a matter of its postings and of the
/// inverse document frequencies alone: two dictionaries with the same
/// postings give the same entries, in the same order.
pub proof fn lemma_dump_determined(
    first: &TermMap<Vec<DocId>>,
    second: &TermMap<Vec<DocId>>,
    idf_bits: Seq<u64>,
)
    requires
        first.wf(),
        second.wf(),
        postings_view(first@) == postings_view(second@),
    ensures
        dump_entries(first.terms(), first.values(), idf_bits) == dump_entries(
            second.terms(),
            second.values(),
            idf_bits,
        ),
{
    assert(first@.dom() =~= second@.dom()) by {
        assert forall|t: Seq<char>| first@.dom().contains(t) == second@.dom().contains(t) by {
            assert(postings_view(first@).contains_key(t) == first@.contains_key(t));
            assert(postings_view(second@).contains_key(t) == second@.contains_key(t));
        }
    }
    first.lemma_order_determined(second);
    first.lemma_entries();
    second.lemma_entries();
    let a = dump_entries(first.terms(), first.values(), idf_bits);
    let b = dump_entries(second.terms(), second.values(), idf_bits);
    assert forall|i: int| 0 <= i < a.len() implies a[i] == b[i] by {
        let t = first.terms()[i];
        assert(first@.contains_key(t));
        assert(postings_view(first@)[t] == first.values()[i]@);
        assert(second.terms()[i] == t);
        assert(second@.contains_key(t));
        assert(postings_view(second@)[t] == second.values()[i]@);
    }
    assert(a =~= b);
}

/// Idempotence: two inversions of one corpus are written as the same
/// bytes, given the same inverse document frequencies.
pub proof fn lemma_rebuild_identical(
    records: Seq<RecordView>,
    first: &TermMap<Vec<DocId>>,
    second: &TermMap<Vec<DocId>>,
    idf_bits: Seq<u64>,
)
    requires
        first.wf(),
        second.wf(),
        postings_view(first@) == inverted(records),
        postings_view(second@) == inverted(records),
    ensures
        index_wire(dump_entries(first.terms(), first.values(), idf_bits)) == index_wire(
            dump_entries(second.terms(), second.values(), idf_bits),
        ),
{
    lemma_dump_determined(first, second, idf_bits);
}

/// What the first `k` of the entries written for a dictionary stand for:
/// the first `k` terms, each with its list and its inverse document
/// frequency.
proof fn lemma_entries_upto(
    dictionary: &TermMap<Vec<DocId>>,
    idf_bits: Seq<u64>,
    es: Seq<EntryView>,
    k: int,
)
    requires
        dictionary.wf(),
        idf_bits.len() == dictionary.terms().len(),
        es == dump_entries(dictionary.terms(), dictionary.values(), idf_bits),
        0 <= k <= es.len(),
    ensures
        forall|t: Seq<char>|
            entries_postings(es.take(k)).contains_key(t) <==> exists|j: int|
                0 <= j < k && #[trigger] dictionary.terms()[j] == t,
        forall|t: Seq<char>|
            entries_idf(es.take(k)).contains_key(t) <==> exists|j: int|
                0 <= j < k && #[trigger] dictionary.terms()[j] == t,
        forall|j: int|
            0 <= j < k ==> entries_postings(es.take(k))[#[trigger] dictionary.terms()[j]]
                == dictionary.values()[j]@ && entries_idf(es.take(k))[dictionary.terms()[j]]
                == idf_bits[j],
    decreases k,
{
    let terms = dictionary.terms();
    if k == 0 {
        assert(es.take(0) =~= Seq::<EntryView>::empty());
    } else {
        lemma_entries_upto(dictionary, idf_bits, es, k - 1);
        let shorter = es.take(k - 1);
        let longer = es.take(k);
        assert(longer.drop_last() =~= shorter);
        assert(longer.last() == es[k - 1]);
        assert(es[k - 1].word == terms[k - 1]);
        dictionary.lemma_entries();
        assert forall|t: Seq<char>|
            entries_postings(longer).contains_key(t) <==> exists|j: int|
                0 <= j < k && #[trigger] terms[j] == t by {
            if entries_postings(longer).contains_key(t) && t != terms[k - 1] {
                assert(entries_postings(shorter).contains_key(t));
                let j = choose|j: int| 0 <= j < k - 1 && #[trigger] terms[j] == t;
                assert(0 <= j < k && terms[j] == t);
            }
            if exists|j: int| 0 <= j < k && #[trigger] terms[j] == t {
                let j = choose|j: int| 0 <= j < k && #[trigger] terms[j] == t;
                if j < k - 1 {
                    assert(0 <= j < k - 1 && terms[j] == t);
                }
            }
        }
        assert forall|t: Seq<char>|
            entries_idf(longer).contains_key(t) <==> exists|j: int|
                0 <= j < k && #[trigger] terms[j] == t by {
            if entries_idf(longer).contains_key(t) && t != terms[k - 1] {
                assert(entries_idf(shorter).contains_key(t));
                let j = choose|j: int| 0 <= j < k - 1 && #[trigger] terms[j] == t;
                assert(0 <= j < k && terms[j] == t);
            }
            if exists|j: int| 0 <= j < k && #[trigger] terms[j] == t {
                let j = choose|j: int| 0 <= j < k && #[trigger] terms[j] == t;
                if j < k - 1 {
                    assert(0 <= j < k - 1 && terms[j] == t);
                }
            }
        }
        assert forall|j: int| 0 <= j < k implies entries_postings(longer)[#[trigger] terms[j]]
            == dictionary.values()[j]@ && entries_idf(longer)[terms[j]] == idf_bits[j] by {
            if j < k - 1 {
                assert(term_less(terms[j], terms[k - 1]));
                lemma_term_asymmetric(terms[j], terms[k - 1]);
            }
        }
    }
}

/// Round trip of the inverted index file: the entries written for a
/// dictionary stand for the postings of the dictionary, and give each term
/// the inverse document frequency that was given for it.
pub proof fn lemma_dump_stands_for_dictionary(dictionary: &TermMap<Vec<DocId>>, idf_bits: Seq<u64>)
    requires
        dictionary.wf(),
        idf_bits.len() == dictionary.terms().len(),
    ensures
        entries_postings(dump_entries(dictionary.terms(), dictionary.values(), idf_bits))
            == postings_view(dictionary@),
        forall|j: int|
            0 <= j < idf_bits.len() ==> entries_idf(
                dump_entries(dictionary.terms(), dictionary.values(), idf_bits),
            )[#[trigger] dictionary.terms()[j]] == idf_bits[j],
        entries_idf(dump_entries(dictionary.terms(), dictionary.values(), idf_bits)).dom()
            == dictionary@.dom(),
{
    let es = dump_entries(dictionary.terms(), dictionary.values(), idf_bits);
    let terms = dictionary.terms();
    lemma_entries_upto(dictionary, idf_bits, es, es.len() as int);
    assert(es.take(es.len() as int) =~= es);
    dictionary.lemma_entries();
    let left = entries_postings(es);
    let right = postings_view(dictionary@);
    assert forall|t: Seq<char>| left.contains_key(t) == right.contains_key(t) by {
        if left.contains_key(t) {
            let j = choose|j: int| 0 <= j < es.len() && #[trigger] terms[j] == t;
            assert(dictionary@.contains_key(terms[j]));
        }
        if right.contains_key(t) {
            assert(dictionary@.contains_key(t));
            let j = terms.index_of(t);
            assert(0 <= j < es.len() && terms[j] == t);
        }
    }
    assert forall|t: Seq<char>| left.contains_key(t) implies left[t] == right[t] by {
        let j = choose|j: int| 0 <= j < es.len() && #[trigger] terms[j] == t;
        assert(left[terms[j]] == dictionary.values()[j]@);
        assert(dictionary@[terms[j]] == dictionary.values()[j]);
    }
    assert(left =~= right);
    assert(entries_idf(es).dom() =~= dictionary@.dom()) by {
        assert forall|t: Seq<char>|
            entries_idf(es).dom().contains(t) == dictionary@.dom().contains(t) by {
            if entries_idf(es).contains_key(t) {
                let j = choose|j: int| 0 <= j < es.len() && #[trigger] terms[j] == t;
                assert(dictionary@.contains_key(terms[j]));
            }
            if dictionary@.contains_key(t) {
                let j = terms.index_of(t);
                assert(0 <= j < es.len() && terms[j] == t);
            }
        }
    }
}

} // verus!
