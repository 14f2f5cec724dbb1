//! Ranking: the order in which matched documents are returned.
//!
//! The similarity of a document to the request is a floating-point number
//! that the caller computes and hands over as an integer score (the
//! similarity scaled by 1000 and truncated). This module does what comes
//! before and after: it lines the term frequencies of a document up with
//! the terms of the request, and it orders the scored documents.

use vstd::prelude::*;
use itertools::Itertools;
use crate::doc_id::DocId;
use crate::forward_index::{ForwardIdexRecord, LemmaView};

verus! {

/// A matched document with its score.
#[derive(Clone, Copy, Debug)]
pub struct ScoredDoc {
    pub id: DocId,
    pub score: i64,
}

/// The documents of `docs` that have the score `s`, in the order of `docs`.
pub open spec fn with_score(docs: Seq<ScoredDoc>, s: i64) -> Seq<ScoredDoc> {
    docs.filter(|d: ScoredDoc| d.score == s)
}

/// No document is followed by one with a smaller score.
pub open spec fn scores_ascending(docs: Seq<ScoredDoc>) -> bool {
    forall|i: int, j: int| 0 <= i < j < docs.len() ==> docs[i].score <= docs[j].score
}

/// No document is followed by one with a greater score.
pub open spec fn scores_descending(docs: Seq<ScoredDoc>) -> bool {
    forall|i: int, j: int| 0 <= i < j < docs.len() ==> docs[i].score >= docs[j].score
}

/// `ranked` is the ranking of `docs`: highest score first, and among
/// documents of one score the one that stood later in `docs` first.
pub open spec fn is_ranking(docs: Seq<ScoredDoc>, ranked: Seq<ScoredDoc>) -> bool {
    &&& ranked.len() == docs.len()
    &&& scores_descending(ranked)
    &&& forall|s: i64| with_score(ranked, s) == with_score(docs, s).reverse()
}

/// The identifiers of a list of scored documents.
pub open spec fn ids_of(docs: Seq<ScoredDoc>) -> Seq<DocId> {
    docs.map_values(|d: ScoredDoc| d.id)
}

/// Sorts by score with `itertools::Itertools::sorted_by_key`, which sorts
/// with the standard library's stable `sort_by_key`. The contract states
/// what is documented of the two: the result holds the same items, in
/// ascending order of the key, and items with equal keys keep their order.
#[verifier::external_body]
fn sort_by_score(docs: Vec<ScoredDoc>) -> (sorted: Vec<ScoredDoc>)
    ensures
        sorted@.to_multiset() == docs@.to_multiset(),
        scores_ascending(sorted@),
        forall|s: i64| with_score(sorted@, s) == with_score(docs@, s),
{
    docs.into_iter().sorted_by_key(|d| d.score).collect()
}

/// Filtering a reversed sequence gives the reversed filtered sequence.
pub proof fn lemma_filter_reverse<A>(s: Seq<A>, pred: spec_fn(A) -> bool)
    ensures
        s.reverse().filter(pred) == s.filter(pred).reverse(),
    decreases s.len(),
{
    reveal_with_fuel(Seq::filter, 2);
    if s.len() == 0 {
        assert(s.reverse() =~= s);
        assert(s.filter(pred).reverse() =~= s.filter(pred));
    } else {
        let init = s.drop_last();
        let x = s.last();
        lemma_filter_reverse(init, pred);
        assert(s.reverse() =~= seq![x] + init.reverse());
        Seq::filter_distributes_over_add(seq![x], init.reverse(), pred);
        assert(seq![x].drop_last() =~= Seq::<A>::empty());
        let kept = init.filter(pred);
        if pred(x) {
            assert(seq![x].filter(pred) =~= seq![x]);
            assert(kept.push(x).reverse() =~= seq![x] + kept.reverse());
        } else {
            assert(seq![x].filter(pred) =~= Seq::<A>::empty());
            assert(Seq::<A>::empty() + kept.reverse() =~= kept.reverse());
        }
    }
}

/// A list filtered by score is its head, where the head has the score,
/// and then its tail filtered.
proof fn lemma_with_score_head(docs: Seq<ScoredDoc>, s: i64)
    requires
        docs.len() > 0,
    ensures
        with_score(docs, s) == (if docs[0].score == s {
            seq![docs[0]]
        } else {
            Seq::<ScoredDoc>::empty()
        }) + with_score(docs.drop_first(), s),
{
    assert(docs =~= seq![docs[0]] + docs.drop_first());
    docs.drop_first().lemma_filter_prepend(docs[0], |d: ScoredDoc| d.score == s);
}

/// Some document of the list has the score `s` if one is left when the
/// list is filtered by `s`.
proof fn lemma_with_score_witness(docs: Seq<ScoredDoc>, s: i64) -> (i: int)
    requires
        with_score(docs, s).len() > 0,
    ensures
        0 <= i < docs.len(),
        docs[i].score == s,
{
    let pred = |d: ScoredDoc| d.score == s;
    let kept = docs.filter(pred);
    docs.lemma_filter_pred(pred, 0);
    assert(kept.contains(kept[0]));
    docs.lemma_filter_contains_rev(pred, kept[0]);
    docs.index_of(kept[0])
}

/// Two lists in descending order of score that hold, for every score, the
/// same documents in the same order are one list.
pub proof fn lemma_descending_determined(first: Seq<ScoredDoc>, second: Seq<ScoredDoc>)
    requires
        first.len() == second.len(),
        scores_descending(first),
        scores_descending(second),
        forall|s: i64| with_score(first, s) == with_score(second, s),
    ensures
        first == second,
    decreases first.len(),
{
    if first.len() == 0 {
        assert(first =~= second);
    } else {
        let a = first[0];
        let b = second[0];
        lemma_with_score_head(first, a.score);
        lemma_with_score_head(second, b.score);
        assert(with_score(first, a.score) == with_score(second, a.score));
        assert(with_score(first, b.score) == with_score(second, b.score));
        let i = lemma_with_score_witness(second, a.score);
        let j = lemma_with_score_witness(first, b.score);
        assert(a.score == b.score) by {
            if 0 < i {
                assert(second[0].score >= second[i].score);
            }
            if 0 < j {
                assert(first[0].score >= first[j].score);
            }
        }
        assert(with_score(first, a.score)[0] == a);
        assert(with_score(second, a.score)[0] == b);
        let first_tail = first.drop_first();
        let second_tail = second.drop_first();
        assert forall|s: i64| with_score(first_tail, s) == with_score(second_tail, s) by {
            lemma_with_score_head(first, s);
            lemma_with_score_head(second, s);
            assert(with_score(first, s) == with_score(second, s));
            let head = if a.score == s {
                seq![a]
            } else {
                Seq::<ScoredDoc>::empty()
            };
            assert(with_score(first_tail, s) =~= (head + with_score(first_tail, s)).skip(
                head.len() as int,
            ));
            assert(with_score(second_tail, s) =~= (head + with_score(second_tail, s)).skip(
                head.len() as int,
            ));
        }
        assert forall|p: int, q: int| 0 <= p < q < first_tail.len() implies first_tail[p].score
            >= first_tail[q].score by {
            assert(first[p + 1].score >= first[q + 1].score);
        }
        assert forall|p: int, q: int| 0 <= p < q < second_tail.len() implies second_tail[p].score
            >= second_tail[q].score by {
            assert(second[p + 1].score >= second[q + 1].score);
        }
        lemma_descending_determined(first_tail, second_tail);
        assert(first =~= seq![a] + first_tail);
        assert(second =~= seq![b] + second_tail);
    }
}

/// The scored documents have one ranking only.
pub proof fn lemma_ranking_determined(
    docs: Seq<ScoredDoc>,
    first: Seq<ScoredDoc>,
    second: Seq<ScoredDoc>,
)
    requires
        is_ranking(docs, first),
        is_ranking(docs, second),
    ensures
        first == second,
{
    lemma_descending_determined(first, second);
}

/// Orders scored documents for output: highest score first; among
/// documents of one score, the one that stood later in the input first.
pub fn rank_scored(docs: Vec<ScoredDoc>) -> (ranked: Vec<ScoredDoc>)
    ensures
        is_ranking(docs@, ranked@),
{
    let ghost input = docs@;
    let sorted = sort_by_score(docs);
    let n = sorted.len();
    proof {
        vstd::seq_lib::to_multiset_len(sorted@);
        vstd::seq_lib::to_multiset_len(input);
    }
    let mut ranked: Vec<ScoredDoc> = Vec::with_capacity(n);
    let mut i: usize = 0;
    while i < n
        invariant
            i <= n,
            n == sorted@.len(),
            ranked@.len() == i,
            forall|j: int| 0 <= j < i ==> ranked@[j] == sorted@[n - 1 - j],
        decreases n - i,
    {
        ranked.push(sorted[n - 1 - i]);
        i = i + 1;
    }
    proof {
        assert(ranked@ =~= sorted@.reverse());
        assert forall|s: i64| with_score(ranked@, s) == with_score(input, s).reverse() by {
            lemma_filter_reverse(sorted@, |d: ScoredDoc| d.score == s);
            assert(with_score(sorted@, s) == with_score(input, s));
        }
    }
    ranked
}

/// The matched documents in the order of their ranking: the identifiers of
/// the ranking of `docs`.
pub fn rank_docs(docs: Vec<ScoredDoc>) -> (result: Vec<DocId>)
    ensures
        exists|ranked: Seq<ScoredDoc>| #[trigger]
            is_ranking(docs@, ranked) && result@ == ids_of(ranked),
{
    let ranked = rank_scored(docs);
    let mut result: Vec<DocId> = Vec::with_capacity(ranked.len());
    let mut i: usize = 0;
    while i < ranked.len()
        invariant
            i <= ranked@.len(),
            result@.len() == i,
            forall|j: int| 0 <= j < i ==> result@[j] == ranked@[j].id,
        decreases ranked@.len() - i,
    {
        result.push(ranked[i].id);
        i = i + 1;
    }
    proof {
        assert(result@ =~= ids_of(ranked@));
    }
    result
}

/// The position of the first lemma with the text `term`, if there is one.
pub open spec fn first_lemma_of(lemmas: Seq<LemmaView>, term: Seq<char>) -> Option<int> {
    if exists|j: int| 0 <= j < lemmas.len() && (#[trigger] lemmas[j]).text == term {
        Some(
            choose|j: int|
                0 <= j < lemmas.len() && (#[trigger] lemmas[j]).text == term && forall|k: int|
                    0 <= k < j ==> (#[trigger] lemmas[k]).text != term,
        )
    } else {
        None
    }
}

/// The frequency that the record holds for `term`: that of the first lemma
/// with this text; none where the record has no such lemma.
pub open spec fn frequency_of(lemmas: Seq<LemmaView>, term: Seq<char>) -> Option<u64> {
    match first_lemma_of(lemmas, term) {
        Some(j) => Some(lemmas[j].frequency_bits),
        None => None,
    }
}

/// Looks the term up among the lemmas of a record.
pub fn find_frequency(record: &ForwardIdexRecord, term: &String) -> (r: Option<u64>)
    ensures
        r == frequency_of(record@.lemmas, term@),
{
    let ghost lemmas = record@.lemmas;
    let mut j: usize = 0;
    while j < record.lemmas.len()
        invariant
            j <= record.lemmas@.len(),
            lemmas == record@.lemmas,
            lemmas.len() == record.lemmas@.len(),
            forall|k: int| 0 <= k < j ==> (#[trigger] lemmas[k]).text != term@,
        decreases record.lemmas@.len() - j,
    {
        let lemma = &record.lemmas[j];
        assert(lemma@ == lemmas[j as int]);
        if lemma.text == *term {
            proof {
                assert(lemmas[j as int].text == term@);
                let w = first_lemma_of(lemmas, term@)->Some_0;
                assert(w == j) by {
                    if w < j {
                        assert(lemmas[w].text != term@);
                    } else if j < w {
                        assert(lemmas[j as int].text != term@);
                    }
                }
            }
            return Some(lemma.frequency_bits);
        }
        j = j + 1;
    }
    None
}

/// The term frequencies of a document lined up with the request: the
/// `i`-th item is the frequency that the record holds for the `i`-th term
/// of the request, or nothing where the document lacks the term. Built
/// over the request's terms, the vector of the document and that of the
/// request have one component per term, in one order.
pub fn aligned_frequencies(request: &Vec<String>, record: &ForwardIdexRecord) -> (r: Vec<
    Option<u64>,
>)
    ensures
        r@.len() == request@.len(),
        forall|i: int|
            0 <= i < request@.len() ==> r@[i] == frequency_of(record@.lemmas, request@[i]@),
{
    let mut r: Vec<Option<u64>> = Vec::with_capacity(request.len());
    let mut i: usize = 0;
    while i < request.len()
        invariant
            i <= request@.len(),
            r@.len() == i,
            forall|k: int| 0 <= k < i ==> r@[k] == frequency_of(record@.lemmas, request@[k]@),
        decreases request@.len() - i,
    {
        let f = find_frequency(record, &request[i]);
        r.push(f);
        i = i + 1;
    }
    r
}

} // verus!
