//! Conjunctive retrieval: the documents that hold every known term of a
//! request, found by walking the sorted postings lists side by side.

use vstd::prelude::*;
use crate::doc_id::{
    ascending, doc_key, key_of, lemma_ascending_determined, lemma_doc_key_injective, DocId,
};
use crate::term_map::TermMap;

verus! {

/// The terms of a request as the contracts see them.
pub open spec fn request_terms(request: Seq<String>) -> Seq<Seq<char>> {
    request.map_values(|s: String| s@)
}

/// The postings lists of an index as sequences.
pub open spec fn postings_view(index: Map<Seq<char>, Vec<DocId>>) -> Map<Seq<char>, Seq<DocId>> {
    index.map_values(|ids: Vec<DocId>| ids@)
}

/// Every postings list of the index is strictly ascending.
pub open spec fn postings_ascending(index: Map<Seq<char>, Seq<DocId>>) -> bool {
    forall|t: Seq<char>| index.contains_key(t) ==> ascending(#[trigger] index[t])
}

/// The request names at least one term that the index knows.
pub open spec fn some_term_known(
    request: Seq<Seq<char>>,
    index: Map<Seq<char>, Seq<DocId>>,
) -> bool {
    exists|i: int| 0 <= i < request.len() && index.contains_key(#[trigger] request[i])
}

/// The document `id` answers the request: the request names a known term,
/// and the postings list of every known term it names holds `id`. Terms
/// that the index does not know put no condition on the document.
pub open spec fn answers(
    request: Seq<Seq<char>>,
    index: Map<Seq<char>, Seq<DocId>>,
    id: DocId,
) -> bool {
    &&& some_term_known(request, index)
    &&& forall|i: int|
        0 <= i < request.len() && index.contains_key(#[trigger] request[i])
            ==> index[request[i]].contains(id)
}

/// The lists as sequences.
pub open spec fn lists_view(lists: Seq<&Vec<DocId>>) -> Seq<Seq<DocId>> {
    lists.map_values(|l: &Vec<DocId>| l@)
}

/// `id` occurs in every one of the lists.
pub open spec fn in_all(lists: Seq<Seq<DocId>>, id: DocId) -> bool {
    forall|j: int| 0 <= j < lists.len() ==> (#[trigger] lists[j]).contains(id)
}

/// What the cursors have still before them: the sum, over the first `n`
/// lists, of the items at or behind the cursor.
spec fn remaining(lists: Seq<Seq<DocId>>, pos: Seq<usize>, n: nat) -> int
    decreases n,
{
    if n == 0 {
        0
    } else {
        remaining(lists, pos, (n - 1) as nat) + (lists[n - 1].len() - pos[n - 1])
    }
}

/// Cursors that move on leave less before them.
proof fn lemma_remaining_advances(
    lists: Seq<Seq<DocId>>,
    p: Seq<usize>,
    q: Seq<usize>,
    n: nat,
    moved: int,
)
    requires
        n <= lists.len(),
        n <= p.len(),
        n <= q.len(),
        forall|j: int| 0 <= j < n ==> p[j] <= #[trigger] q[j] <= lists[j].len(),
        0 <= moved < n ==> p[moved] < q[moved],
    ensures
        0 <= remaining(lists, q, n) <= remaining(lists, p, n),
        0 <= moved < n ==> remaining(lists, q, n) < remaining(lists, p, n),
    decreases n,
{
    if n > 0 {
        lemma_remaining_advances(lists, p, q, (n - 1) as nat, moved);
    }
}

/// Moves every cursor one item on.
fn advance_all(pos: &mut Vec<usize>)
    requires
        forall|j: int| 0 <= j < old(pos)@.len() ==> old(pos)@[j] < usize::MAX,
    ensures
        final(pos)@.len() == old(pos)@.len(),
        forall|j: int| 0 <= j < old(pos)@.len() ==> final(pos)@[j] == old(pos)@[j] + 1,
{
    let n = pos.len();
    let mut j: usize = 0;
    while j < n
        invariant
            j <= n,
            pos@.len() == n,
            n == old(pos)@.len(),
            forall|i: int| 0 <= i < j ==> pos@[i] == old(pos)@[i] + 1,
            forall|i: int| j <= i < n ==> pos@[i] == old(pos)@[i],
            forall|i: int| 0 <= i < n ==> old(pos)@[i] < usize::MAX,
        decreases n - j,
    {
        let p = pos[j];
        pos.set(j, p + 1);
        j = j + 1;
    }
}

/// The identifiers that occur in every one of the lists, in ascending
/// order; none where there is no list. Each list has to be strictly
/// ascending.
///
/// The lists are walked side by side. A candidate identifier is carried
/// along; every cursor skips what lies before the candidate, a cursor that
/// finds a greater identifier raises the candidate, and a candidate on
/// which all cursors agree is part of the result. The walk ends when one
/// list is used up.
pub fn intersect(lists: &Vec<&Vec<DocId>>) -> (result: Vec<DocId>)
    requires
        forall|j: int| 0 <= j < lists@.len() ==> ascending(#[trigger] lists@[j]@),
    ensures
        ascending(result@),
        forall|id: DocId|
            result@.contains(id) <==> lists@.len() > 0 && in_all(lists_view(lists@), id),
{
    let ghost lv = lists_view(lists@);
    let n = lists.len();
    let mut result: Vec<DocId> = Vec::new();
    if n == 0 {
        return result;
    }
    if lists[0].len() == 0 {
        proof {
            assert forall|id: DocId| in_all(lv, id) implies false by {
                assert(lv[0].contains(id));
            }
        }
        return result;
    }
    let mut pos: Vec<usize> = Vec::new();
    while pos.len() < n
        invariant
            pos@.len() <= n,
            forall|j: int| 0 <= j < pos@.len() ==> pos@[j] == 0,
        decreases n - pos@.len(),
    {
        pos.push(0);
    }
    let mut cand: DocId = lists[0][0];
    let mut c: u128 = key_of(&cand);
    let mut k: usize = 1;
    proof {
        assert forall|id: DocId| in_all(lv, id) && doc_key(id) < c implies result@.contains(
            id,
        ) by {
            assert(lv[0].contains(id));
            let i = lv[0].index_of(id);
            if 0 < i {
                assert(doc_key(lv[0][0]) < doc_key(lv[0][i]));
            }
        }
    }
    loop
        invariant
            n == lists@.len(),
            n > 0,
            lv == lists_view(lists@),
            pos@.len() == n,
            k <= n,
            c == doc_key(cand),
            forall|j: int| 0 <= j < n ==> ascending(#[trigger] lv[j]),
            forall|j: int| 0 <= j < n ==> (#[trigger] pos@[j]) <= lv[j].len(),
            forall|j: int| 0 <= j < k ==> (#[trigger] pos@[j]) < lv[j].len() && lv[j][pos@[j] as int]
                == cand,
            forall|j: int, i: int|
                0 <= j < n && 0 <= i < pos@[j] ==> doc_key(#[trigger] lv[j][i]) < c,
            ascending(result@),
            forall|i: int|
                0 <= i < result@.len() ==> doc_key(#[trigger] result@[i]) < c && in_all(
                    lv,
                    result@[i],
                ),
            forall|id: DocId| in_all(lv, id) && doc_key(id) < c ==> result@.contains(id),
        decreases remaining(lv, pos@, n as nat), n - k,
    {
        let ghost old_pos = pos@;
        let ghost old_result = result@;
        let ghost old_c = c;
        let ghost old_cand = cand;
        if k == n {
            // All cursors agree on the candidate.
            assert(in_all(lv, cand)) by {
                assert forall|j: int| 0 <= j < lv.len() implies (#[trigger] lv[j]).contains(
                    cand,
                ) by {
                    assert(lv[j][pos@[j] as int] == cand);
                }
            }
            result.push(cand);
            assert forall|j: int| 0 <= j < pos@.len() implies pos@[j] < usize::MAX by {
                assert(lv[j].len() == lists@[j].len());
            }
            advance_all(&mut pos);
            proof {
                lemma_remaining_advances(lv, old_pos, pos@, n as nat, 0);
                assert(result@.last() == old_cand);
                assert forall|j: int, i: int| 0 <= j < n && 0 <= i < pos@[j] implies doc_key(
                    #[trigger] lv[j][i],
                ) <= old_c by {
                    if i == old_pos[j] {
                        assert(lv[j][old_pos[j] as int] == old_cand);
                    }
                }
                assert forall|id: DocId| in_all(lv, id) && doc_key(id) <= old_c implies result@.contains(
                    id,
                ) by {
                    if doc_key(id) < old_c {
                        let w = old_result.index_of(id);
                        assert(old_result.contains(id));
                        assert(result@[w] == id);
                    } else {
                        lemma_doc_key_injective(id, old_cand);
                        assert(result@[result@.len() - 1] == id);
                    }
                }
                assert forall|i: int| 0 <= i < result@.len() implies doc_key(
                    #[trigger] result@[i],
                ) <= old_c && in_all(lv, result@[i]) by {
                    if i < old_result.len() {
                        assert(result@[i] == old_result[i]);
                    }
                }
            }
            let first: &Vec<DocId> = lists[0];
            assert(first@ == lv[0]);
            let front = pos[0];
            if front == first.len() {
                proof {
                    assert forall|id: DocId| in_all(lv, id) implies result@.contains(id) by {
                        assert(lv[0].contains(id));
                        let i = lv[0].index_of(id);
                        assert(doc_key(lv[0][i]) <= old_c);
                    }
                    assert forall|id: DocId| result@.contains(id) implies in_all(lv, id) by {
                        let i = result@.index_of(id);
                        assert(in_all(lv, result@[i]));
                    }
                }
                return result;
            }
            cand = first[front];
            c = key_of(&cand);
            k = 1;
            proof {
                assert(old_pos[0] as int == front - 1);
                assert(lv[0][front - 1] == old_cand);
                assert(doc_key(lv[0][front - 1]) < doc_key(lv[0][front as int]));
                assert(old_c < c);
                assert forall|id: DocId| in_all(lv, id) && doc_key(id) < c implies result@.contains(
                    id,
                ) by {
                    assert(lv[0].contains(id));
                    let i = lv[0].index_of(id);
                    if i < front {
                        assert(doc_key(lv[0][i]) <= old_c);
                    } else if front < i {
                        assert(doc_key(lv[0][front as int]) < doc_key(lv[0][i]));
                    }
                }
            }
        } else {
            let list: &Vec<DocId> = lists[k];
            assert(list@ == lv[k as int]);
            let p = pos[k];
            if p == list.len() {
                // This list is used up: nothing more can be in all of them.
                proof {
                    assert forall|id: DocId| in_all(lv, id) implies result@.contains(id) by {
                        assert(lv[k as int].contains(id));
                        let i = lv[k as int].index_of(id);
                        assert(doc_key(lv[k as int][i]) < c);
                    }
                    assert forall|id: DocId| result@.contains(id) implies in_all(lv, id) by {
                        let i = result@.index_of(id);
                        assert(in_all(lv, result@[i]));
                    }
                }
                return result;
            }
            let e: DocId = list[p];
            let ek = key_of(&e);
            if ek < c {
                pos.set(k, p + 1);
                proof {
                    lemma_remaining_advances(lv, old_pos, pos@, n as nat, k as int);
                }
            } else if ek == c {
                proof {
                    lemma_doc_key_injective(e, cand);
                }
                k = k + 1;
            } else {
                cand = e;
                c = ek;
                proof {
                    assert forall|id: DocId| in_all(lv, id) && doc_key(id) < c implies result@.contains(
                        id,
                    ) by {
                        assert(lv[k as int].contains(id));
                        let i = lv[k as int].index_of(id);
                        if i < p {
                            assert(doc_key(lv[k as int][i]) < old_c);
                        } else if p < i {
                            assert(doc_key(lv[k as int][p as int]) < doc_key(lv[k as int][i]));
                        }
                    }
                }
                if k == 0 {
                    k = 1;
                } else {
                    // The first cursor sits on the stale candidate: it moves on at once.
                    let front = pos[0];
                    assert(lv[0].len() == lists@[0].len());
                    pos.set(0, front + 1);
                    k = 0;
                    proof {
                        lemma_remaining_advances(lv, old_pos, pos@, n as nat, 0);
                        assert forall|j: int, i: int|
                            0 <= j < n && 0 <= i < pos@[j] implies doc_key(#[trigger] lv[j][i])
                            < c by {
                            if j == 0 && i == old_pos[0] {
                                assert(lv[0][old_pos[0] as int] == old_cand);
                            } else {
                                assert(doc_key(lv[j][i]) < old_c);
                            }
                        }
                    }
                }
            }
        }
    }
}

/// `list` is the postings list of a known term among the first `r` terms.
spec fn drawn_from_request(
    terms: Seq<Seq<char>>,
    index: Map<Seq<char>, Seq<DocId>>,
    r: int,
    list: Seq<DocId>,
) -> bool {
    exists|i: int| 0 <= i < r && index.contains_key(#[trigger] terms[i]) && index[terms[i]] == list
}

/// `list` is one of the lists.
spec fn among(lists: Seq<&Vec<DocId>>, list: Seq<DocId>) -> bool {
    exists|j: int| 0 <= j < lists.len() && (#[trigger] lists[j])@ == list
}

/// Collects, in the order of the request, the postings lists of the terms
/// that the index knows.
fn known_postings<'a>(request: &Vec<String>, reversed_index: &'a TermMap<Vec<DocId>>) -> (lists:
    Vec<&'a Vec<DocId>>)
    requires
        reversed_index.wf(),
        postings_ascending(postings_view(reversed_index@)),
    ensures
        forall|j: int| 0 <= j < lists@.len() ==> ascending(#[trigger] lists@[j]@),
        lists@.len() > 0 <==> some_term_known(request_terms(request@), postings_view(reversed_index@)),
        forall|id: DocId|
            in_all(lists_view(lists@), id) <==> (forall|i: int|
                0 <= i < request@.len() && postings_view(reversed_index@).contains_key(
                    #[trigger] request_terms(request@)[i],
                ) ==> postings_view(reversed_index@)[request_terms(request@)[i]].contains(id)),
{
    let ghost terms = request_terms(request@);
    let ghost index = postings_view(reversed_index@);
    let mut lists: Vec<&'a Vec<DocId>> = Vec::with_capacity(request.len());
    let mut r: usize = 0;
    while r < request.len()
        invariant
            r <= request@.len(),
            terms == request_terms(request@),
            index == postings_view(reversed_index@),
            reversed_index.wf(),
            postings_ascending(index),
            forall|j: int| 0 <= j < lists@.len() ==> ascending(#[trigger] lists@[j]@),
            forall|j: int|
                0 <= j < lists@.len() ==> drawn_from_request(
                    terms,
                    index,
                    r as int,
                    (#[trigger] lists@[j])@,
                ),
            forall|i: int|
                0 <= i < r && index.contains_key(#[trigger] terms[i]) ==> among(
                    lists@,
                    index[terms[i]],
                ),
        decreases request@.len() - r,
    {
        let word: &String = &request[r];
        assert(word@ == terms[r as int]);
        let ghost before = lists@;
        assert(index.contains_key(word@) == reversed_index@.contains_key(word@));
        match reversed_index.get(word.as_str()) {
            Some(docs) => {
                lists.push(docs);
                proof {
                    assert(index[word@] == reversed_index@[word@]@);
                    assert(ascending(index[word@]));
                    let last = before.len() as int;
                    assert(lists@[last]@ == index[terms[r as int]]);
                    assert(among(lists@, index[terms[r as int]]));
                    assert forall|j: int| 0 <= j < lists@.len() implies drawn_from_request(
                        terms,
                        index,
                        r + 1,
                        (#[trigger] lists@[j])@,
                    ) by {
                        if j < last {
                            assert(lists@[j] == before[j]);
                            assert(drawn_from_request(terms, index, r as int, before[j]@));
                            let i = choose|i: int|
                                0 <= i < r && index.contains_key(#[trigger] terms[i])
                                    && index[terms[i]] == before[j]@;
                            assert(index.contains_key(terms[i]));
                        } else {
                            assert(index.contains_key(terms[r as int]));
                        }
                    }
                    assert forall|i: int|
                        0 <= i < r + 1 && index.contains_key(#[trigger] terms[i]) implies among(
                        lists@,
                        index[terms[i]],
                    ) by {
                        if i < r {
                            assert(among(before, index[terms[i]]));
                            let j = choose|j: int|
                                0 <= j < before.len() && (#[trigger] before[j])@
                                    == index[terms[i]];
                            assert(lists@[j] == before[j]);
                        }
                    }
                }
            },
            None => {
                proof {
                    assert forall|j: int| 0 <= j < lists@.len() implies drawn_from_request(
                        terms,
                        index,
                        r + 1,
                        (#[trigger] lists@[j])@,
                    ) by {
                        assert(drawn_from_request(terms, index, r as int, lists@[j]@));
                        let i = choose|i: int|
                            0 <= i < r && index.contains_key(#[trigger] terms[i])
                                && index[terms[i]] == lists@[j]@;
                        assert(index.contains_key(terms[i]));
                    }
                }
            },
        }
        r = r + 1;
    }
    proof {
        let lv = lists_view(lists@);
        if lists@.len() > 0 {
            assert(drawn_from_request(terms, index, r as int, lists@[0]@));
            let i = choose|i: int|
                0 <= i < r && index.contains_key(#[trigger] terms[i]) && index[terms[i]]
                    == lists@[0]@;
            assert(index.contains_key(terms[i]));
        }
        if some_term_known(terms, index) {
            let i = choose|i: int| 0 <= i < terms.len() && index.contains_key(#[trigger] terms[i]);
            assert(among(lists@, index[terms[i]]));
        }
        assert forall|id: DocId| in_all(lv, id) implies (forall|i: int|
            0 <= i < request@.len() && index.contains_key(#[trigger] terms[i])
                ==> index[terms[i]].contains(id)) by {
            assert forall|i: int|
                0 <= i < request@.len() && index.contains_key(
                    #[trigger] terms[i],
                ) implies index[terms[i]].contains(id) by {
                assert(among(lists@, index[terms[i]]));
                let j = choose|j: int|
                    0 <= j < lists@.len() && (#[trigger] lists@[j])@ == index[terms[i]];
                assert(lv[j].contains(id));
            }
        }
        assert forall|id: DocId|
            (forall|i: int|
                0 <= i < request@.len() && index.contains_key(#[trigger] terms[i])
                    ==> index[terms[i]].contains(id)) implies in_all(lv, id) by {
            assert forall|j: int| 0 <= j < lv.len() implies (#[trigger] lv[j]).contains(id) by {
                assert(drawn_from_request(terms, index, r as int, lists@[j]@));
                let i = choose|i: int|
                    0 <= i < r && index.contains_key(#[trigger] terms[i]) && index[terms[i]]
                        == lists@[j]@;
                assert(index.contains_key(terms[i]));
            }
        }
    }
    lists
}

/// The documents that answer the request, in ascending order of
/// identifier.
///
/// A term of the request that the index does not know is skipped. A
/// request without a known term has no answer.
pub fn boolean_search(request: &Vec<String>, reversed_index: &TermMap<Vec<DocId>>) -> (result:
    Vec<DocId>)
    requires
        reversed_index.wf(),
        postings_ascending(postings_view(reversed_index@)),
    ensures
        ascending(result@),
        forall|id: DocId|
            result@.contains(id) <==> answers(
                request_terms(request@),
                postings_view(reversed_index@),
                id,
            ),
{
    let lists = known_postings(request, reversed_index);
    intersect(&lists)
}

/// What `boolean_search` promises leaves one result only: two ascending
/// lists that each hold exactly the answers are the same list.
pub proof fn lemma_search_result_determined(
    request: Seq<Seq<char>>,
    index: Map<Seq<char>, Seq<DocId>>,
    first: Seq<DocId>,
    second: Seq<DocId>,
)
    requires
        ascending(first),
        ascending(second),
        forall|id: DocId| first.contains(id) <==> answers(request, index, id),
        forall|id: DocId| second.contains(id) <==> answers(request, index, id),
    ensures
        first == second,
{
    lemma_ascending_determined(first, second);
}

/// A request of one known term is answered by that term's postings list
/// as it stands.
pub proof fn lemma_single_term_unmodified(
    term: Seq<char>,
    index: Map<Seq<char>, Seq<DocId>>,
    result: Seq<DocId>,
)
    requires
        index.contains_key(term),
        postings_ascending(index),
        ascending(result),
        forall|id: DocId| result.contains(id) <==> answers(seq![term], index, id),
    ensures
        result == index[term],
{
    let request = seq![term];
    assert(request[0] == term);
    assert(some_term_known(request, index));
    assert forall|id: DocId| result.contains(id) <==> index[term].contains(id) by {
        if index[term].contains(id) {
            assert forall|i: int|
                0 <= i < request.len() && index.contains_key(
                    #[trigger] request[i],
                ) implies index[request[i]].contains(id) by {}
        }
        if result.contains(id) {
            assert(index.contains_key(request[0]));
        }
    }
    lemma_ascending_determined(result, index[term]);
}

/// Where no document is in the postings lists of all known terms, the
/// result is empty.
pub proof fn lemma_empty_intersection(
    request: Seq<Seq<char>>,
    index: Map<Seq<char>, Seq<DocId>>,
    result: Seq<DocId>,
)
    requires
        forall|id: DocId| !answers(request, index, id),
        forall|id: DocId| result.contains(id) <==> answers(request, index, id),
    ensures
        result == Seq::<DocId>::empty(),
{
    if result.len() > 0 {
        assert(result.contains(result[0]));
    }
    assert(result =~= Seq::<DocId>::empty());
}

/// The result as a set: the documents that every known term of the request
/// has in its postings list, and nothing where no term is known.
pub proof fn lemma_result_is_intersection(
    request: Seq<Seq<char>>,
    index: Map<Seq<char>, Seq<DocId>>,
    result: Seq<DocId>,
)
    requires
        forall|id: DocId| result.contains(id) <==> answers(request, index, id),
    ensures
        result.to_set() == Set::new(|id: DocId| answers(request, index, id)),
        !some_term_known(request, index) ==> result == Seq::<DocId>::empty(),
{
    assert(result.to_set() =~= Set::new(|id: DocId| answers(request, index, id)));
    if !some_term_known(request, index) {
        lemma_empty_intersection(request, index, result);
    }
}

} // verus!
