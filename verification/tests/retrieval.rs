use engine::boolean_search::{boolean_search, intersect};
use engine::doc_id::{doc_id_equal, doc_id_less, is_ascending, key_of, DocId};
use engine::forward_index::{
    build_forward_index, ForwardIdexRecord, ForwardIndexApi, Lemma,
};
use engine::reversed_index::{has_ascending_postings, spimi_invert};
use engine::term::{order_bytes, order_terms, TermOrder};
use engine::term_map::TermMap;

fn id(last: u8) -> DocId {
    let mut bytes = [0u8; 12];
    bytes[11] = last;
    bytes
}

fn lemma(text: &str, frequency: f64) -> Lemma {
    Lemma { frequency_bits: frequency.to_bits(), text: text.to_string() }
}

fn words(list: &[&str]) -> Vec<String> {
    list.iter().map(|w| w.to_string()).collect()
}

fn corpus() -> Vec<ForwardIdexRecord> {
    vec![
        ForwardIdexRecord { id: id(1), lemmas: vec![lemma("cat", 1.0)] },
        ForwardIdexRecord { id: id(2), lemmas: vec![lemma("cat", 0.5), lemma("dog", 0.5)] },
        ForwardIdexRecord { id: id(3), lemmas: vec![lemma("dog", 1.0)] },
    ]
}

fn inverted_corpus() -> TermMap<Vec<DocId>> {
    let (data, metadata) = build_forward_index(&corpus());
    let mut stream = ForwardIndexApi::new(data, metadata);
    let (dictionary, count) = spimi_invert(&mut stream).unwrap();
    assert_eq!(count, 3);
    dictionary
}

#[test]
fn scenario_query_cat() {
    let index = inverted_corpus();
    assert_eq!(boolean_search(&words(&["cat"]), &index), vec![id(1), id(2)]);
}

#[test]
fn scenario_query_dog() {
    let index = inverted_corpus();
    assert_eq!(boolean_search(&words(&["dog"]), &index), vec![id(2), id(3)]);
}

#[test]
fn scenario_query_cat_and_dog() {
    let index = inverted_corpus();
    assert_eq!(boolean_search(&words(&["cat", "dog"]), &index), vec![id(2)]);
    assert_eq!(boolean_search(&words(&["dog", "cat"]), &index), vec![id(2)]);
}

#[test]
fn scenario_query_bird() {
    let index = inverted_corpus();
    assert_eq!(boolean_search(&words(&["bird"]), &index), Vec::<DocId>::new());
}

#[test]
fn empty_request_has_no_answer() {
    let index = inverted_corpus();
    assert_eq!(boolean_search(&Vec::new(), &index), Vec::<DocId>::new());
}

#[test]
fn unknown_terms_are_skipped() {
    let index = inverted_corpus();
    assert_eq!(boolean_search(&words(&["bird", "cat"]), &index), vec![id(1), id(2)]);
    assert_eq!(boolean_search(&words(&["cat", "bird", "dog", "fish"]), &index), vec![id(2)]);
}

#[test]
fn repeated_term_changes_nothing() {
    let index = inverted_corpus();
    assert_eq!(boolean_search(&words(&["dog", "dog"]), &index), vec![id(2), id(3)]);
}

#[test]
fn single_term_returns_its_postings_list() {
    let mut index: TermMap<Vec<DocId>> = TermMap::new();
    let list = vec![id(2), id(5), id(9), id(200)];
    index.insert("tree".to_string(), list.clone());
    assert_eq!(boolean_search(&words(&["tree"]), &index), list);
}

#[test]
fn disjoint_lists_give_nothing() {
    let mut index: TermMap<Vec<DocId>> = TermMap::new();
    index.insert("a".to_string(), vec![id(1), id(3), id(5)]);
    index.insert("b".to_string(), vec![id(2), id(4), id(6)]);
    assert_eq!(boolean_search(&words(&["a", "b"]), &index), Vec::<DocId>::new());
}

#[test]
fn empty_postings_list_gives_nothing() {
    let mut index: TermMap<Vec<DocId>> = TermMap::new();
    index.insert("a".to_string(), vec![id(1), id(3)]);
    index.insert("b".to_string(), Vec::new());
    assert_eq!(boolean_search(&words(&["a", "b"]), &index), Vec::<DocId>::new());
    assert_eq!(boolean_search(&words(&["b", "a"]), &index), Vec::<DocId>::new());
}

#[test]
fn intersect_three_lists() {
    let a = vec![id(1), id(2), id(3), id(5), id(8), id(13), id(21)];
    let b = vec![id(2), id(3), id(4), id(8), id(16), id(21), id(32)];
    let c = vec![id(3), id(6), id(8), id(9), id(21), id(22)];
    assert_eq!(intersect(&vec![&a, &b, &c]), vec![id(3), id(8), id(21)]);
    assert_eq!(intersect(&vec![&c, &a, &b]), vec![id(3), id(8), id(21)]);
    assert_eq!(intersect(&vec![&a]), a);
    assert_eq!(intersect(&Vec::new()), Vec::<DocId>::new());
}

#[test]
fn intersect_when_one_list_ends_first() {
    let a = vec![id(1)];
    let b = vec![id(1), id(2)];
    assert_eq!(intersect(&vec![&a, &b]), vec![id(1)]);
    assert_eq!(intersect(&vec![&b, &a]), vec![id(1)]);
}

#[test]
fn identifiers_are_ordered_bytewise() {
    let mut low = [0u8; 12];
    low[0] = 1;
    let mut high = [0u8; 12];
    high[0] = 2;
    let mut low_with_tail = low;
    low_with_tail[11] = 255;
    assert!(doc_id_less(&low, &high));
    assert!(doc_id_less(&low_with_tail, &high));
    assert!(doc_id_less(&low, &low_with_tail));
    assert!(!doc_id_less(&high, &low));
    assert!(!doc_id_less(&low, &low));
    assert!(doc_id_equal(&low, &low));
    assert!(!doc_id_equal(&low, &low_with_tail));
    assert_eq!(low < high, doc_id_less(&low, &high));
    assert_eq!(low_with_tail < high, doc_id_less(&low_with_tail, &high));
}

#[test]
fn key_is_the_big_endian_number() {
    assert_eq!(key_of(&[0u8; 12]), 0);
    assert_eq!(key_of(&id(7)), 7);
    let mut bytes = [0u8; 12];
    bytes[10] = 1;
    bytes[11] = 2;
    assert_eq!(key_of(&bytes), 258);
    assert_eq!(key_of(&[255u8; 12]), (1u128 << 96) - 1);
}

#[test]
fn ascending_lists_are_recognised() {
    assert!(is_ascending(&Vec::new()));
    assert!(is_ascending(&vec![id(4)]));
    assert!(is_ascending(&vec![id(1), id(2), id(9)]));
    assert!(!is_ascending(&vec![id(1), id(1)]));
    assert!(!is_ascending(&vec![id(3), id(1)]));
    assert!(!is_ascending(&vec![id(1), id(3), id(2)]));
}

#[test]
fn terms_are_ordered_as_strings() {
    assert_eq!(order_terms("cat", "dog"), TermOrder::Before);
    assert_eq!(order_terms("dog", "cat"), TermOrder::After);
    assert_eq!(order_terms("cat", "cat"), TermOrder::Same);
    assert_eq!(order_terms("cat", "cats"), TermOrder::Before);
    assert_eq!(order_terms("", "a"), TermOrder::Before);
    assert_eq!(order_terms("b", "abc"), TermOrder::After);
    assert_eq!(order_terms("кот", "собака"), TermOrder::Before);
    assert_eq!(order_terms("z", "кот"), TermOrder::Before);
    assert_eq!(order_bytes(&[1, 2, 3], &[1, 2, 4]), TermOrder::Before);
    assert_eq!(order_bytes(&[], &[]), TermOrder::Same);
}

#[test]
fn term_order_is_the_order_of_strings() {
    let samples = ["", "a", "ab", "abc", "b", "B", "z", "é", "кот", "собака", "日本", "a\u{10ffff}", "~"];
    for a in samples {
        for b in samples {
            let expected = if a < b {
                TermOrder::Before
            } else if a == b {
                TermOrder::Same
            } else {
                TermOrder::After
            };
            assert_eq!(order_terms(a, b), expected);
        }
    }
}

#[test]
fn term_map_keeps_terms_in_order() {
    let mut map: TermMap<u64> = TermMap::new();
    assert_eq!(map.len(), 0);
    assert_eq!(map.insert("pear".to_string(), 1), None);
    assert_eq!(map.insert("apple".to_string(), 2), None);
    assert_eq!(map.insert("quince".to_string(), 3), None);
    assert_eq!(map.insert("fig".to_string(), 4), None);
    assert_eq!(map.len(), 4);
    assert_eq!(map.term_at(0), "apple");
    assert_eq!(map.term_at(1), "fig");
    assert_eq!(map.term_at(2), "pear");
    assert_eq!(map.term_at(3), "quince");
    assert_eq!(*map.value_at(1), 4);
    assert_eq!(map.get("pear"), Some(&1));
    assert_eq!(map.get("plum"), None);
    assert!(map.contains("fig"));
    assert!(!map.contains("figs"));
    assert_eq!(map.position("fig"), Ok(1));
    assert_eq!(map.position("grape"), Err(2));
    assert_eq!(map.position("zebra"), Err(4));
    assert_eq!(map.position("aardvark"), Err(0));
}

#[test]
fn term_map_insert_replaces() {
    let mut map: TermMap<u64> = TermMap::new();
    map.insert("a".to_string(), 1);
    assert_eq!(map.insert("a".to_string(), 5), Some(1));
    assert_eq!(map.len(), 1);
    assert_eq!(map.get("a"), Some(&5));
    assert_eq!(map.replace_at(0, 9), 5);
    assert_eq!(map.get("a"), Some(&9));
    map.insert_at(1, "b".to_string(), 2);
    assert_eq!(map.term_at(1), "b");
    assert_eq!(map.get("b"), Some(&2));
}

#[test]
fn inversion_gives_sorted_postings() {
    let index = inverted_corpus();
    assert_eq!(index.len(), 2);
    assert_eq!(index.term_at(0), "cat");
    assert_eq!(index.term_at(1), "dog");
    assert_eq!(index.get("cat"), Some(&vec![id(1), id(2)]));
    assert_eq!(index.get("dog"), Some(&vec![id(2), id(3)]));
    assert_eq!(index.get("bird"), None);
    assert!(has_ascending_postings(&index));
}
