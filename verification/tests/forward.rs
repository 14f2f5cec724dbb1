use engine::doc_id::DocId;
use engine::forward_index::{
    build_forward_index, count_lemmas, read_metadata, read_record, ForwardIdexRecord,
    ForwardIndexApi, ForwardIndexError, ForwardIndexRecordMetadata, Lemma,
};

fn doc(last: u8) -> DocId {
    let mut bytes = [0u8; 12];
    bytes[0] = 0x65;
    bytes[11] = last;
    bytes
}

fn entry(text: &str, frequency: f64) -> Lemma {
    Lemma { frequency_bits: frequency.to_bits(), text: text.to_string() }
}

fn sample() -> Vec<ForwardIdexRecord> {
    vec![
        ForwardIdexRecord { id: doc(1), lemmas: vec![entry("cat", 1.0)] },
        ForwardIdexRecord { id: doc(2), lemmas: vec![entry("cat", 0.5), entry("dog", 0.5)] },
        ForwardIdexRecord { id: doc(3), lemmas: Vec::new() },
        ForwardIdexRecord { id: doc(4), lemmas: vec![entry("собака", 0.25), entry("", 0.75)] },
    ]
}

fn entries_of(metadata: &[u8]) -> Vec<ForwardIndexRecordMetadata> {
    metadata.chunks(28).map(|chunk| read_metadata(chunk).unwrap()).collect()
}

#[test]
fn record_bytes_are_as_laid_out() {
    let record = ForwardIdexRecord { id: doc(9), lemmas: vec![entry("ab", 0.5)] };
    let (data, metadata) = build_forward_index(&vec![record]);
    let mut expected: Vec<u8> = Vec::new();
    expected.extend_from_slice(&doc(9));
    expected.extend_from_slice(&1u64.to_le_bytes());
    expected.extend_from_slice(&0.5f64.to_bits().to_le_bytes());
    expected.extend_from_slice(&2u64.to_le_bytes());
    expected.extend_from_slice(b"ab");
    assert_eq!(data, expected);
    assert_eq!(data.len(), 38);
    let mut expected_metadata: Vec<u8> = Vec::new();
    expected_metadata.extend_from_slice(&doc(9));
    expected_metadata.extend_from_slice(&0u64.to_le_bytes());
    expected_metadata.extend_from_slice(&38u64.to_le_bytes());
    assert_eq!(metadata, expected_metadata);
}

#[test]
fn empty_corpus_gives_empty_files() {
    let (data, metadata) = build_forward_index(&Vec::new());
    assert!(data.is_empty());
    assert!(metadata.is_empty());
    let mut reader = ForwardIndexApi::new(data, metadata);
    assert_eq!(reader.next(), Ok(None));
    assert_eq!(reader.next(), Ok(None));
}

#[test]
fn sequential_read_gives_the_records_back() {
    let records = sample();
    let (data, metadata) = build_forward_index(&records);
    let mut reader = ForwardIndexApi::new(data, metadata);
    for record in &records {
        assert_eq!(reader.next(), Ok(Some(record.clone())));
    }
    assert_eq!(reader.next(), Ok(None));
    assert_eq!(reader.next(), Ok(None));
}

#[test]
fn offsets_are_sums_of_sizes() {
    let records = sample();
    let (data, metadata) = build_forward_index(&records);
    assert_eq!(metadata.len(), 28 * records.len());
    let entries = entries_of(&metadata);
    let mut sum: u64 = 0;
    for (entry, record) in entries.iter().zip(records.iter()) {
        assert_eq!(entry.id, record.id);
        assert_eq!(entry.offset_in_index_file, sum);
        sum += entry.size_of_record;
    }
    assert_eq!(sum, data.len() as u64);
    assert_eq!(entries[0].size_of_record, 12 + 8 + 8 + 8 + 3);
    assert_eq!(entries[2].size_of_record, 12 + 8);
    assert_eq!(entries[2].offset_in_index_file, (12 + 8 + 19) + (12 + 8 + 19 + 19));
}

#[test]
fn random_access_gives_the_record_back() {
    let records = sample();
    let (data, metadata) = build_forward_index(&records);
    let mut reader = ForwardIndexApi::new(data, metadata);
    assert_eq!(reader.load_record_by(&doc(3)), Ok(records[2].clone()));
    assert_eq!(reader.load_record_by(&doc(1)), Ok(records[0].clone()));
    assert_eq!(reader.load_record_by(&doc(4)), Ok(records[3].clone()));
    assert_eq!(reader.load_record_by(&doc(2)), Ok(records[1].clone()));
    assert_eq!(reader.load_record_by(&doc(2)), Ok(records[1].clone()));
}

#[test]
fn random_access_leaves_the_stream_alone() {
    let records = sample();
    let (data, metadata) = build_forward_index(&records);
    let mut reader = ForwardIndexApi::new(data, metadata);
    assert_eq!(reader.next(), Ok(Some(records[0].clone())));
    reader.load_metadata();
    assert_eq!(reader.load_record_by(&doc(4)), Ok(records[3].clone()));
    reader.load_metadata();
    assert_eq!(reader.next(), Ok(Some(records[1].clone())));
}

#[test]
fn loaded_table_serves_shared_reads() {
    let records = sample();
    let (data, metadata) = build_forward_index(&records);
    let mut reader = ForwardIndexApi::new(data, metadata);
    assert!(!reader.is_loaded());
    reader.load_metadata();
    assert!(reader.is_loaded());
    let shared = &reader;
    assert_eq!(shared.get_by_id(&doc(2)), Ok(records[1].clone()));
    assert_eq!(shared.get_by_id(&doc(4)), Ok(records[3].clone()));
    assert_eq!(shared.get_by_id(&doc(9)), Err(ForwardIndexError::UnknownDocument));
}

#[test]
fn unknown_document_is_an_error() {
    let (data, metadata) = build_forward_index(&sample());
    let mut reader = ForwardIndexApi::new(data, metadata);
    assert_eq!(reader.load_record_by(&doc(77)), Err(ForwardIndexError::UnknownDocument));
    assert_eq!(reader.load_record_by(&[0u8; 12]), Err(ForwardIndexError::UnknownDocument));
}

#[test]
fn later_metadata_entry_wins() {
    let first = ForwardIdexRecord { id: doc(1), lemmas: vec![entry("old", 1.0)] };
    let second = ForwardIdexRecord { id: doc(1), lemmas: vec![entry("new", 1.0)] };
    let (data, metadata) = build_forward_index(&vec![first, second.clone()]);
    let mut reader = ForwardIndexApi::new(data, metadata);
    assert_eq!(reader.load_record_by(&doc(1)), Ok(second));
}

#[test]
fn truncated_metadata_is_an_error_of_the_stream() {
    let records = sample();
    let (data, mut metadata) = build_forward_index(&records);
    metadata.truncate(28 + 5);
    let mut reader = ForwardIndexApi::new(data, metadata);
    assert_eq!(reader.next(), Ok(Some(records[0].clone())));
    assert_eq!(reader.next(), Err(ForwardIndexError::UnexpectedEof));
    assert_eq!(reader.next(), Err(ForwardIndexError::UnexpectedEof));
}

#[test]
fn truncated_metadata_is_left_aside_by_the_offset_table() {
    let records = sample();
    let (data, mut metadata) = build_forward_index(&records);
    metadata.truncate(28 + 5);
    let mut reader = ForwardIndexApi::new(data, metadata);
    assert_eq!(reader.load_record_by(&doc(1)), Ok(records[0].clone()));
    assert_eq!(reader.load_record_by(&doc(2)), Err(ForwardIndexError::UnknownDocument));
}

#[test]
fn truncated_data_is_an_error() {
    let records = sample();
    let (mut data, metadata) = build_forward_index(&records);
    data.truncate(40);
    let mut reader = ForwardIndexApi::new(data, metadata);
    assert_eq!(reader.next(), Ok(Some(records[0].clone())));
    assert_eq!(reader.next(), Err(ForwardIndexError::UnexpectedEof));
    assert_eq!(reader.load_record_by(&doc(2)), Err(ForwardIndexError::UnexpectedEof));
    assert_eq!(reader.load_record_by(&doc(1)), Ok(records[0].clone()));
}

#[test]
fn bytes_that_are_no_record_are_corrupt() {
    let records = sample();
    let (mut data, metadata) = build_forward_index(&records);
    data[12] = 200;
    let mut reader = ForwardIndexApi::new(data, metadata);
    assert_eq!(reader.next(), Err(ForwardIndexError::Corrupt));
    assert_eq!(reader.load_record_by(&doc(1)), Err(ForwardIndexError::Corrupt));
    assert_eq!(reader.load_record_by(&doc(2)), Ok(records[1].clone()));
}

#[test]
fn invalid_text_is_corrupt() {
    let record = ForwardIdexRecord { id: doc(1), lemmas: vec![entry("ab", 1.0)] };
    let (mut data, metadata) = build_forward_index(&vec![record]);
    let last = data.len() - 1;
    data[last] = 0xff;
    let mut reader = ForwardIndexApi::new(data, metadata);
    assert_eq!(reader.next(), Err(ForwardIndexError::Corrupt));
}

#[test]
fn read_record_lets_bytes_follow() {
    let record = ForwardIdexRecord { id: doc(5), lemmas: vec![entry("x", 2.0)] };
    let (mut data, _) = build_forward_index(&vec![record.clone()]);
    assert_eq!(read_record(&data), Some(record.clone()));
    data.extend_from_slice(&[1, 2, 3]);
    assert_eq!(read_record(&data), Some(record));
    assert_eq!(read_record(&data[..20]), None);
    assert_eq!(read_record(&[]), None);
}

#[test]
fn read_metadata_needs_twenty_eight_bytes() {
    let mut bytes: Vec<u8> = Vec::new();
    bytes.extend_from_slice(&doc(6));
    bytes.extend_from_slice(&1000u64.to_le_bytes());
    bytes.extend_from_slice(&77u64.to_le_bytes());
    let entry = read_metadata(&bytes).unwrap();
    assert_eq!(entry.id, doc(6));
    assert_eq!(entry.offset_in_index_file, 1000);
    assert_eq!(entry.size_of_record, 77);
    assert!(read_metadata(&bytes[..27]).is_none());
    bytes.push(0);
    assert_eq!(read_metadata(&bytes).unwrap().size_of_record, 77);
}

#[test]
fn rebuilding_gives_the_same_bytes() {
    let first = build_forward_index(&sample());
    let second = build_forward_index(&sample());
    assert_eq!(first, second);
}

#[test]
fn lemmas_are_counted() {
    let terms: Vec<String> =
        ["dog", "cat", "dog", "emu", "dog", "cat"].iter().map(|t| t.to_string()).collect();
    let counts = count_lemmas(&terms);
    assert_eq!(counts.len(), 3);
    assert_eq!(counts.term_at(0), "cat");
    assert_eq!(counts.term_at(1), "dog");
    assert_eq!(counts.term_at(2), "emu");
    assert_eq!(counts.get("cat"), Some(&2));
    assert_eq!(counts.get("dog"), Some(&3));
    assert_eq!(counts.get("emu"), Some(&1));
    assert_eq!(counts.get("fox"), None);
    assert_eq!(count_lemmas(&Vec::new()).len(), 0);
}
