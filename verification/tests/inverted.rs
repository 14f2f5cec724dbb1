use engine::doc_id::DocId;
use engine::forward_index::{
    build_forward_index, ForwardIdexRecord, ForwardIndexApi, ForwardIndexError, Lemma,
};
use engine::ranking::{aligned_frequencies, find_frequency, rank_docs, rank_scored, ScoredDoc};
use engine::reversed_index::{
    append_posting, exceeds_memory_limit, has_ascending_postings, size_of_dictionary,
    spimi_invert, ReversedIndexAPI, ReversedIndexError, MEMORY_LIMIT,
};
use engine::term_map::TermMap;

fn did(last: u8) -> DocId {
    let mut bytes = [7u8; 12];
    bytes[11] = last;
    bytes
}

fn lem(text: &str, frequency: f64) -> Lemma {
    Lemma { frequency_bits: frequency.to_bits(), text: text.to_string() }
}

fn query(list: &[&str]) -> Vec<String> {
    list.iter().map(|w| w.to_string()).collect()
}

fn records() -> Vec<ForwardIdexRecord> {
    vec![
        ForwardIdexRecord { id: did(1), lemmas: vec![lem("cat", 1.0)] },
        ForwardIdexRecord { id: did(2), lemmas: vec![lem("dog", 0.5), lem("cat", 0.5)] },
        ForwardIdexRecord { id: did(3), lemmas: vec![lem("dog", 1.0)] },
    ]
}

fn dictionary() -> (TermMap<Vec<DocId>>, u64) {
    let (data, metadata) = build_forward_index(&records());
    let mut stream = ForwardIndexApi::new(data, metadata);
    spimi_invert(&mut stream).unwrap()
}

fn idf_bits(dictionary: &TermMap<Vec<DocId>>, count: u64) -> Vec<u64> {
    (0..dictionary.len())
        .map(|i| f64::ln(count as f64 / dictionary.value_at(i).len() as f64).to_bits())
        .collect()
}

#[test]
fn inversion_counts_documents_and_lists_them() {
    let (dictionary, count) = dictionary();
    assert_eq!(count, 3);
    assert_eq!(dictionary.len(), 2);
    assert_eq!(dictionary.get("cat"), Some(&vec![did(1), did(2)]));
    assert_eq!(dictionary.get("dog"), Some(&vec![did(2), did(3)]));
}

#[test]
fn inversion_of_nothing_is_empty() {
    let mut stream = ForwardIndexApi::new(Vec::new(), Vec::new());
    let (dictionary, count) = spimi_invert(&mut stream).unwrap();
    assert_eq!(count, 0);
    assert_eq!(dictionary.len(), 0);
}

#[test]
fn inversion_starts_where_the_stream_stands() {
    let (data, metadata) = build_forward_index(&records());
    let mut stream = ForwardIndexApi::new(data, metadata);
    stream.next().unwrap();
    let (dictionary, count) = spimi_invert(&mut stream).unwrap();
    assert_eq!(count, 2);
    assert_eq!(dictionary.get("cat"), Some(&vec![did(2)]));
    assert_eq!(dictionary.get("dog"), Some(&vec![did(2), did(3)]));
    assert_eq!(stream.next(), Ok(None));
}

#[test]
fn inversion_hands_errors_on() {
    let (mut data, metadata) = build_forward_index(&records());
    data.truncate(50);
    let mut stream = ForwardIndexApi::new(data, metadata);
    assert!(matches!(spimi_invert(&mut stream), Err(ForwardIndexError::UnexpectedEof)));
    let (data, mut metadata) = build_forward_index(&records());
    metadata.pop();
    let mut stream = ForwardIndexApi::new(data, metadata);
    assert!(matches!(spimi_invert(&mut stream), Err(ForwardIndexError::UnexpectedEof)));
}

#[test]
fn inversion_keeps_the_order_of_the_stream() {
    let unsorted = vec![
        ForwardIdexRecord { id: did(9), lemmas: vec![lem("a", 1.0)] },
        ForwardIdexRecord { id: did(4), lemmas: vec![lem("a", 1.0), lem("a", 1.0)] },
    ];
    let (data, metadata) = build_forward_index(&unsorted);
    let mut stream = ForwardIndexApi::new(data, metadata);
    let (dictionary, _) = spimi_invert(&mut stream).unwrap();
    assert_eq!(dictionary.get("a"), Some(&vec![did(9), did(4), did(4)]));
    assert!(!has_ascending_postings(&dictionary));
}

#[test]
fn postings_are_appended() {
    let mut dictionary: TermMap<Vec<DocId>> = TermMap::new();
    append_posting(&mut dictionary, "b", did(1));
    append_posting(&mut dictionary, "a", did(1));
    append_posting(&mut dictionary, "b", did(2));
    assert_eq!(dictionary.len(), 2);
    assert_eq!(dictionary.get("a"), Some(&vec![did(1)]));
    assert_eq!(dictionary.get("b"), Some(&vec![did(1), did(2)]));
}

#[test]
fn index_file_is_as_laid_out() {
    let mut dictionary: TermMap<Vec<DocId>> = TermMap::new();
    dictionary.insert("hi".to_string(), vec![did(1), did(2)]);
    let bytes = ReversedIndexAPI::dump_to_file(&dictionary, &vec![2.5f64.to_bits()]).unwrap();
    let mut expected: Vec<u8> = Vec::new();
    expected.extend_from_slice(&1u64.to_le_bytes());
    expected.extend_from_slice(&2u64.to_le_bytes());
    expected.extend_from_slice(b"hi");
    expected.extend_from_slice(&2u64.to_le_bytes());
    expected.extend_from_slice(&did(1));
    expected.extend_from_slice(&did(2));
    expected.extend_from_slice(&2.5f64.to_bits().to_le_bytes());
    assert_eq!(bytes, expected);
}

#[test]
fn index_file_round_trip() {
    let (dictionary, count) = dictionary();
    let idf = idf_bits(&dictionary, count);
    let bytes = ReversedIndexAPI::dump_to_file(&dictionary, &idf).unwrap();
    let index = ReversedIndexAPI::load_from_file(&bytes).unwrap();
    assert_eq!(index.postings().len(), 2);
    assert_eq!(index.postings().get("cat"), Some(&vec![did(1), did(2)]));
    assert_eq!(index.postings().get("dog"), Some(&vec![did(2), did(3)]));
    let expected = f64::ln(3.0 / 2.0);
    assert_eq!(index.idf().get("cat").map(|bits| f64::from_bits(*bits)), Some(expected));
    assert_eq!(index.idf().get("dog").map(|bits| f64::from_bits(*bits)), Some(expected));
    assert_eq!(index.idf().get("bird"), None);
    assert_eq!(index.retrieve(&query(&["cat", "dog"])), vec![did(2)]);
    assert_eq!(index.retrieve(&query(&["bird"])), Vec::<DocId>::new());
}

#[test]
fn dump_needs_one_frequency_for_each_term() {
    let (dictionary, _) = dictionary();
    assert_eq!(ReversedIndexAPI::dump_to_file(&dictionary, &vec![0]), None);
    assert_eq!(ReversedIndexAPI::dump_to_file(&dictionary, &vec![0, 0, 0]), None);
    assert!(ReversedIndexAPI::dump_to_file(&dictionary, &vec![0, 0]).is_some());
}

#[test]
fn rebuilding_gives_the_same_index_file() {
    let (first, count) = dictionary();
    let (second, _) = dictionary();
    let idf = idf_bits(&first, count);
    assert_eq!(
        ReversedIndexAPI::dump_to_file(&first, &idf),
        ReversedIndexAPI::dump_to_file(&second, &idf)
    );
}

#[test]
fn corrupt_index_file_is_refused() {
    let (dictionary, count) = dictionary();
    let idf = idf_bits(&dictionary, count);
    let bytes = ReversedIndexAPI::dump_to_file(&dictionary, &idf).unwrap();
    let truncated = &bytes[..bytes.len() - 1];
    assert!(matches!(ReversedIndexAPI::load_from_file(truncated), Err(ReversedIndexError::Corrupt)));
    assert!(matches!(ReversedIndexAPI::load_from_file(&[]), Err(ReversedIndexError::Corrupt)));
    assert!(matches!(
        ReversedIndexAPI::load_from_file(&[9, 0, 0, 0, 0, 0, 0, 0]),
        Err(ReversedIndexError::Corrupt)
    ));
}

#[test]
fn empty_index_file_loads() {
    let bytes = ReversedIndexAPI::dump_to_file(&TermMap::new(), &Vec::new()).unwrap();
    assert_eq!(bytes, vec![0u8; 8]);
    let index = ReversedIndexAPI::load_from_file(&bytes).unwrap();
    assert_eq!(index.postings().len(), 0);
    assert_eq!(index.retrieve(&query(&["cat"])), Vec::<DocId>::new());
}

#[test]
fn unsorted_postings_are_refused() {
    let mut dictionary: TermMap<Vec<DocId>> = TermMap::new();
    dictionary.insert("a".to_string(), vec![did(2), did(1)]);
    let bytes = ReversedIndexAPI::dump_to_file(&dictionary, &vec![0]).unwrap();
    assert!(matches!(
        ReversedIndexAPI::load_from_file(&bytes),
        Err(ReversedIndexError::UnsortedPostings)
    ));
    let mut twice: TermMap<Vec<DocId>> = TermMap::new();
    twice.insert("a".to_string(), vec![did(1), did(1)]);
    let bytes = ReversedIndexAPI::dump_to_file(&twice, &vec![0]).unwrap();
    assert!(matches!(
        ReversedIndexAPI::load_from_file(&bytes),
        Err(ReversedIndexError::UnsortedPostings)
    ));
}

#[test]
fn later_entry_of_the_file_wins() {
    let mut bytes: Vec<u8> = Vec::new();
    bytes.extend_from_slice(&2u64.to_le_bytes());
    for (ids, idf) in [(vec![did(1)], 1u64), (vec![did(2), did(3)], 2u64)] {
        bytes.extend_from_slice(&1u64.to_le_bytes());
        bytes.extend_from_slice(b"a");
        bytes.extend_from_slice(&(ids.len() as u64).to_le_bytes());
        for id in ids {
            bytes.extend_from_slice(&id);
        }
        bytes.extend_from_slice(&idf.to_le_bytes());
    }
    let index = ReversedIndexAPI::load_from_file(&bytes).unwrap();
    assert_eq!(index.postings().len(), 1);
    assert_eq!(index.postings().get("a"), Some(&vec![did(2), did(3)]));
    assert_eq!(index.idf().get("a"), Some(&2));
}

#[test]
fn dictionary_size_is_estimated() {
    let (dictionary, _) = dictionary();
    assert_eq!(size_of_dictionary(&dictionary, 0), 14);
    assert_eq!(size_of_dictionary(&dictionary, 3), 2 * 7 + 2 * 3 * 12);
    assert_eq!(size_of_dictionary(&dictionary, usize::MAX), usize::MAX);
    assert_eq!(size_of_dictionary(&dictionary, usize::MAX / 24), 14 + (usize::MAX / 24) * 24);
    assert_eq!(size_of_dictionary(&dictionary, usize::MAX / 24 + 1), usize::MAX);
    assert_eq!(size_of_dictionary(&TermMap::new(), usize::MAX), 0);
}

#[test]
fn memory_limit_is_eight_mebibytes() {
    assert_eq!(MEMORY_LIMIT, 8 * 1024 * 1024);
    let (dictionary, _) = dictionary();
    let at_limit = (MEMORY_LIMIT - 14) / 24;
    assert_eq!(size_of_dictionary(&dictionary, at_limit), MEMORY_LIMIT - 18);
    assert!(!exceeds_memory_limit(&dictionary, 0));
    assert!(!exceeds_memory_limit(&dictionary, at_limit));
    assert!(exceeds_memory_limit(&dictionary, at_limit + 1));
    assert!(exceeds_memory_limit(&dictionary, usize::MAX));
    assert!(!exceeds_memory_limit(&TermMap::new(), usize::MAX));
}

fn scored(last: u8, score: i64) -> ScoredDoc {
    ScoredDoc { id: did(last), score }
}

#[test]
fn ranking_puts_the_best_first() {
    let docs = vec![scored(1, 300), scored(2, 999), scored(3, 0), scored(4, 707)];
    assert_eq!(rank_docs(docs), vec![did(2), did(4), did(1), did(3)]);
}

#[test]
fn ranking_breaks_ties_by_later_first() {
    let docs = vec![scored(1, 500), scored(2, 1000), scored(3, 500), scored(4, 1000), scored(5, 500)];
    assert_eq!(rank_docs(docs), vec![did(4), did(2), did(5), did(3), did(1)]);
    let same = vec![scored(1, 7), scored(2, 7), scored(3, 7)];
    assert_eq!(rank_docs(same), vec![did(3), did(2), did(1)]);
}

#[test]
fn ranking_keeps_the_scores() {
    let docs = vec![scored(1, -5), scored(2, i64::MAX), scored(3, i64::MIN)];
    let ranked = rank_scored(docs);
    let pairs: Vec<(DocId, i64)> = ranked.iter().map(|d| (d.id, d.score)).collect();
    assert_eq!(pairs, vec![(did(2), i64::MAX), (did(1), -5), (did(3), i64::MIN)]);
    assert!(rank_docs(Vec::new()).is_empty());
}

#[test]
fn frequencies_are_lined_up_with_the_request() {
    let record = ForwardIdexRecord {
        id: did(1),
        lemmas: vec![lem("dog", 0.25), lem("cat", 0.5), lem("emu", 0.125), lem("cat", 0.0625)],
    };
    let request = query(&["cat", "fox", "dog", "cat"]);
    assert_eq!(
        aligned_frequencies(&request, &record),
        vec![Some(0.5f64.to_bits()), None, Some(0.25f64.to_bits()), Some(0.5f64.to_bits())]
    );
    assert_eq!(find_frequency(&record, &"emu".to_string()), Some(0.125f64.to_bits()));
    assert_eq!(find_frequency(&record, &"em".to_string()), None);
    assert!(aligned_frequencies(&Vec::new(), &record).is_empty());
}
