use engine::boolean_search::intersect;
use engine::doc_id::DocId;
use engine::forward_index::{
    build_forward_index, read_metadata, read_record, ForwardIdexRecord, ForwardIndexApi, Lemma,
};
use engine::ranking::{rank_scored, ScoredDoc};
use engine::reversed_index::{spimi_invert, ReversedIndexAPI};
use engine::term_map::TermMap;

struct Source(u64);

impl Source {
    fn next(&mut self) -> u64 {
        self.0 = self.0.wrapping_mul(6364136223846793005).wrapping_add(1442695040888963407);
        self.0 >> 33
    }

    fn below(&mut self, bound: u64) -> u64 {
        self.next() % bound
    }
}

fn numbered(n: u64) -> DocId {
    let mut id = [0u8; 12];
    id[4..].copy_from_slice(&n.to_be_bytes());
    id
}

fn ascending_list(source: &mut Source, len: usize) -> Vec<DocId> {
    let mut n = 0;
    let mut list = Vec::new();
    for _ in 0..len {
        n += 1 + source.below(4);
        list.push(numbered(n));
    }
    list
}

#[test]
fn intersection_agrees_with_a_plain_filter() {
    let mut source = Source(11);
    for _ in 0..200 {
        let count = 1 + source.below(4) as usize;
        let lists: Vec<Vec<DocId>> = (0..count)
            .map(|_| {
                let len = source.below(30) as usize;
                ascending_list(&mut source, len)
            })
            .collect();
        let refs: Vec<&Vec<DocId>> = lists.iter().collect();
        let expected: Vec<DocId> = lists[0]
            .iter()
            .filter(|id| lists.iter().all(|list| list.contains(id)))
            .copied()
            .collect();
        assert_eq!(intersect(&refs), expected);
    }
}

#[test]
fn ranking_agrees_with_a_stable_sort_reversed() {
    let mut source = Source(5);
    for _ in 0..200 {
        let len = source.below(40) as usize;
        let docs: Vec<ScoredDoc> = (0..len)
            .map(|i| ScoredDoc { id: numbered(i as u64), score: source.below(5) as i64 - 2 })
            .collect();
        let mut expected: Vec<(i64, DocId)> = docs.iter().map(|d| (d.score, d.id)).collect();
        expected.sort_by_key(|pair| pair.0);
        expected.reverse();
        let ranked: Vec<(i64, DocId)> =
            rank_scored(docs).iter().map(|d| (d.score, d.id)).collect();
        assert_eq!(ranked, expected);
    }
}

fn random_record(source: &mut Source, n: u64) -> ForwardIdexRecord {
    let alphabet = ["a", "b", "ab", "é", "日本", "", "zebra", "кот"];
    let count = source.below(5) as usize;
    let lemmas = (0..count)
        .map(|_| Lemma {
            frequency_bits: source.next(),
            text: alphabet[source.below(alphabet.len() as u64) as usize].to_string(),
        })
        .collect();
    ForwardIdexRecord { id: numbered(n), lemmas }
}

#[test]
fn random_corpora_are_read_back() {
    let mut source = Source(3);
    for _ in 0..50 {
        let len = source.below(12);
        let records: Vec<ForwardIdexRecord> =
            (0..len).map(|n| random_record(&mut source, n)).collect();
        let (data, metadata) = build_forward_index(&records);
        let mut reader = ForwardIndexApi::new(data, metadata);
        for record in &records {
            assert_eq!(reader.next(), Ok(Some(record.clone())));
        }
        assert_eq!(reader.next(), Ok(None));
        for record in &records {
            assert_eq!(reader.load_record_by(&record.id), Ok(record.clone()));
        }
    }
}

#[test]
fn a_decoded_record_encodes_to_the_front_of_the_buffer() {
    let mut source = Source(7);
    let mut decoded = 0;
    for round in 0..2000 {
        let record = random_record(&mut source, round);
        let (mut bytes, _) = build_forward_index(&vec![record]);
        let flips = source.below(3);
        for _ in 0..flips {
            let at = source.below(bytes.len() as u64) as usize;
            bytes[at] = source.below(256) as u8;
        }
        let cut = source.below(bytes.len() as u64 + 4) as usize;
        if cut < bytes.len() {
            bytes.truncate(cut);
        } else {
            bytes.extend_from_slice(&[0xab; 3]);
        }
        if let Some(found) = read_record(&bytes) {
            let (again, _) = build_forward_index(&vec![found]);
            assert!(bytes.starts_with(&again));
            decoded += 1;
        }
    }
    assert!(decoded > 100);
}

#[test]
fn a_decoded_metadata_entry_encodes_to_the_front_of_the_buffer() {
    let mut source = Source(9);
    for _ in 0..500 {
        let len = source.below(40) as usize;
        let bytes: Vec<u8> = (0..len).map(|_| source.below(256) as u8).collect();
        match read_metadata(&bytes) {
            None => assert!(len < 28),
            Some(entry) => {
                assert!(len >= 28);
                assert_eq!(entry.id, bytes[..12]);
                assert_eq!(entry.offset_in_index_file.to_le_bytes(), bytes[12..20]);
                assert_eq!(entry.size_of_record.to_le_bytes(), bytes[20..28]);
            }
        }
    }
}

#[test]
fn damaged_index_files_are_refused_or_loaded() {
    let mut source = Source(13);
    let mut dictionary: TermMap<Vec<DocId>> = TermMap::new();
    dictionary.insert("cat".to_string(), vec![numbered(1), numbered(2)]);
    dictionary.insert("dog".to_string(), vec![numbered(2), numbered(3)]);
    let whole = ReversedIndexAPI::dump_to_file(&dictionary, &vec![1, 2]).unwrap();
    for _ in 0..2000 {
        let mut bytes = whole.clone();
        let at = source.below(bytes.len() as u64) as usize;
        bytes[at] = source.below(256) as u8;
        if source.below(2) == 0 {
            bytes.truncate(source.below(bytes.len() as u64) as usize);
        }
        if let Ok(index) = ReversedIndexAPI::load_from_file(&bytes) {
            let request = vec!["cat".to_string(), "dog".to_string()];
            let answer = index.retrieve(&request);
            assert!(answer.windows(2).all(|pair| pair[0] < pair[1]));
        }
    }
}

#[test]
fn random_streams_invert_to_their_postings() {
    let mut source = Source(17);
    for _ in 0..50 {
        let len = source.below(10);
        let records: Vec<ForwardIdexRecord> =
            (0..len).map(|n| random_record(&mut source, n)).collect();
        let (data, metadata) = build_forward_index(&records);
        let mut stream = ForwardIndexApi::new(data, metadata);
        let (dictionary, count) = spimi_invert(&mut stream).unwrap();
        assert_eq!(count, len);
        for term in ["a", "b", "ab", "é", "日本", "", "zebra", "кот", "none"] {
            let expected: Vec<DocId> = records
                .iter()
                .flat_map(|r| r.lemmas.iter().filter(|l| l.text == term).map(|_| r.id))
                .collect();
            let found = dictionary.get(term).cloned().unwrap_or_default();
            assert_eq!(found, expected);
            assert_eq!(dictionary.contains(term), !expected.is_empty());
        }
    }
}
