//! What holds of a forward index that `build_forward_index` wrote: the
//! offsets add up, and reading gives back the records that were written,
//! one after the other as well as by identifier.

use vstd::prelude::*;
use crate::forward_index::{
    data_bytes, entry_bytes, entry_count, lemma_parse_metadata_wire, lemma_parse_record_wire,
    lookup, metadata_bytes, metadata_of, next_step, offset_table, offset_table_upto,
    parse_metadata, parse_record, remaining_records, ForwardIndexError,
    ForwardIndexRecordMetadata, ForwardIndexView, RecordView,
};
use crate::doc_id::DocId;
use crate::wire::{metadata_wire, record_wire};
use crate::wire_lemmas::lemma_metadata_wire_len;

verus! {

/// The sum of the sizes that the entries record.
pub open spec fn sizes_sum(entries: Seq<ForwardIndexRecordMetadata>) -> nat
    decreases entries.len(),
{
    if entries.len() == 0 {
        0
    } else {
        sizes_sum(entries.drop_last()) + entries.last().size_of_record as nat
    }
}

/// No two records have one identifier.
pub open spec fn ids_distinct(records: Seq<RecordView>) -> bool {
    forall|i: int, j: int|
        0 <= i < records.len() && 0 <= j < records.len() && i != j ==> records[i].id
            != records[j].id
}

/// The reader over the index of `records` when it has read `k` of them.
pub open spec fn reader_after(records: Seq<RecordView>, k: int, loaded: bool) -> ForwardIndexView {
    ForwardIndexView {
        data: data_bytes(records),
        metadata: metadata_bytes(metadata_of(records)),
        data_position: data_bytes(records.take(k)).len(),
        metadata_position: (28 * k) as nat,
        loaded,
    }
}

/// The data file of the first `k` records is the start of the data file of
/// all of them, and the next record follows it.
pub proof fn lemma_data_prefix(records: Seq<RecordView>, k: int)
    requires
        0 <= k <= records.len(),
    ensures
        data_bytes(records.take(k)).is_prefix_of(data_bytes(records)),
        k < records.len() ==> data_bytes(records.take(k + 1)) == data_bytes(records.take(k))
            + record_wire(records[k]),
    decreases records.len(),
{
    if k == records.len() {
        assert(records.take(k) =~= records);
    } else {
        let init = records.drop_last();
        lemma_data_prefix(init, k);
        assert(init.take(k) =~= records.take(k));
        assert(records.take(k + 1).drop_last() =~= records.take(k));
        assert(records.take(k + 1).last() == records[k]);
    }
}

/// One metadata entry per record: its identifier, the length of the data
/// file before it, and the length of its encoding.
pub proof fn lemma_metadata_of(records: Seq<RecordView>)
    ensures
        metadata_of(records).len() == records.len(),
        forall|i: int|
            0 <= i < records.len() ==> #[trigger] metadata_of(records)[i]
                == (ForwardIndexRecordMetadata {
                id: records[i].id,
                offset_in_index_file: data_bytes(records.take(i)).len() as u64,
                size_of_record: record_wire(records[i]).len() as u64,
            }),
    decreases records.len(),
{
    if records.len() > 0 {
        let init = records.drop_last();
        lemma_metadata_of(init);
        assert forall|i: int| 0 <= i < records.len() implies #[trigger] metadata_of(records)[i]
            == (ForwardIndexRecordMetadata {
            id: records[i].id,
            offset_in_index_file: data_bytes(records.take(i)).len() as u64,
            size_of_record: record_wire(records[i]).len() as u64,
        }) by {
            if i < init.len() {
                assert(metadata_of(records)[i] == metadata_of(init)[i]);
                assert(init.take(i) =~= records.take(i));
            } else {
                assert(records.take(i) =~= init);
            }
        }
    }
}

/// The metadata file holds the entries in slots of 28 bytes.
pub proof fn lemma_metadata_slots(entries: Seq<ForwardIndexRecordMetadata>)
    ensures
        metadata_bytes(entries).len() == 28 * entries.len(),
        forall|i: int|
            0 <= i < entries.len() ==> #[trigger] entry_bytes(metadata_bytes(entries), i)
                == metadata_wire(entries[i]),
    decreases entries.len(),
{
    if entries.len() > 0 {
        let init = entries.drop_last();
        lemma_metadata_slots(init);
        lemma_metadata_wire_len(entries.last());
        assert forall|i: int| 0 <= i < entries.len() implies #[trigger] entry_bytes(
            metadata_bytes(entries),
            i,
        ) == metadata_wire(entries[i]) by {
            if i < init.len() {
                assert(entry_bytes(metadata_bytes(init), i) == metadata_wire(init[i]));
                assert(entry_bytes(metadata_bytes(entries), i) =~= entry_bytes(
                    metadata_bytes(init),
                    i,
                ));
            } else {
                assert(entry_bytes(metadata_bytes(entries), i) =~= metadata_wire(entries.last()));
            }
        }
    }
}

/// The sizes that the entries of the first `k` records hold add up to the
/// length of their data file.
pub proof fn lemma_sizes_sum(records: Seq<RecordView>, k: int)
    requires
        0 <= k <= records.len(),
        data_bytes(records).len() <= u64::MAX,
    ensures
        sizes_sum(metadata_of(records).take(k)) == data_bytes(records.take(k)).len(),
    decreases k,
{
    lemma_metadata_of(records);
    let entries = metadata_of(records);
    if k == 0 {
        assert(entries.take(0) =~= Seq::<ForwardIndexRecordMetadata>::empty());
        assert(records.take(0) =~= Seq::<RecordView>::empty());
    } else {
        lemma_sizes_sum(records, k - 1);
        lemma_data_prefix(records, k - 1);
        lemma_data_prefix(records, k);
        assert(entries.take(k).drop_last() =~= entries.take(k - 1));
        assert(entries.take(k).last() == entries[k - 1]);
    }
}

/// In a forward index as built, the offset of each record is the sum of
/// the sizes of the records before it.
pub proof fn lemma_offsets_are_sums(records: Seq<RecordView>, i: int)
    requires
        0 <= i < records.len(),
        data_bytes(records).len() <= u64::MAX,
    ensures
        metadata_of(records)[i].offset_in_index_file == sizes_sum(metadata_of(records).take(i)),
{
    lemma_metadata_of(records);
    lemma_sizes_sum(records, i);
    lemma_data_prefix(records, i);
}

/// Where the `k`-th record lies in the data file, and what the metadata
/// file says of it.
proof fn lemma_record_place(records: Seq<RecordView>, k: int)
    requires
        0 <= k < records.len(),
        data_bytes(records).len() <= u64::MAX,
    ensures
        parse_metadata(entry_bytes(metadata_bytes(metadata_of(records)), k)) == Some(
            metadata_of(records)[k],
        ),
        metadata_of(records)[k].id == records[k].id,
        metadata_of(records)[k].offset_in_index_file == data_bytes(records.take(k)).len(),
        metadata_of(records)[k].size_of_record == record_wire(records[k]).len(),
        data_bytes(records.take(k)).len() + record_wire(records[k]).len() <= data_bytes(
            records,
        ).len(),
        parse_record(
            data_bytes(records).subrange(
                data_bytes(records.take(k)).len() as int,
                (data_bytes(records.take(k)).len() + record_wire(records[k]).len()) as int,
            ),
        ) == Some(records[k]),
{
    let entries = metadata_of(records);
    let data = data_bytes(records);
    lemma_metadata_of(records);
    lemma_metadata_slots(entries);
    lemma_data_prefix(records, k);
    lemma_data_prefix(records, k + 1);
    let wire = metadata_wire(entries[k]);
    assert(wire + Seq::<u8>::empty() =~= wire);
    lemma_parse_metadata_wire(entries[k], Seq::empty());
    let start = data_bytes(records.take(k)).len() as int;
    let record = record_wire(records[k]);
    let upto = data_bytes(records.take(k + 1));
    assert(upto == data_bytes(records.take(k)) + record);
    assert(upto.is_prefix_of(data));
    assert(upto == data.subrange(0, upto.len() as int));
    assert forall|j: int| 0 <= j < record.len() implies data[start + j] == record[j] by {
        assert(upto[start + j] == record[j]);
        assert(data.subrange(0, upto.len() as int)[start + j] == data[start + j]);
    }
    assert(data.subrange(start, start + record.len()) =~= record);
    assert(record + Seq::<u8>::empty() =~= record);
    lemma_parse_record_wire(records[k], Seq::empty());
}

/// Reading on from behind the `k`-th record gives the records behind it.
proof fn lemma_read_from(records: Seq<RecordView>, k: int, loaded: bool)
    requires
        0 <= k <= records.len(),
        data_bytes(records).len() <= u64::MAX,
    ensures
        remaining_records(reader_after(records, k, loaded)) == Ok::<
            Seq<RecordView>,
            ForwardIndexError,
        >(records.skip(k)),
    decreases records.len() - k,
{
    let v = reader_after(records, k, loaded);
    lemma_metadata_of(records);
    lemma_metadata_slots(metadata_of(records));
    if k == records.len() {
        assert(records.skip(k) =~= Seq::<RecordView>::empty());
    } else {
        lemma_record_place(records, k);
        lemma_data_prefix(records, k);
        assert(v.metadata.subrange(v.metadata_position as int, v.metadata_position as int + 28)
            == entry_bytes(v.metadata, k));
        assert(next_step(v).0 == Ok::<Option<RecordView>, ForwardIndexError>(
            Some(records[k]),
        ));
        assert(next_step(v).1 == reader_after(records, k + 1, loaded));
        lemma_read_from(records, k + 1, loaded);
        assert(seq![records[k]] + records.skip(k + 1) =~= records.skip(k));
    }
}

/// Round trip: reading a forward index sequentially from its start gives
/// the records it was built from, in their order, and then the end of the
/// stream.
pub proof fn lemma_sequential_round_trip(records: Seq<RecordView>)
    requires
        data_bytes(records).len() <= u64::MAX,
    ensures
        remaining_records(
            ForwardIndexView {
                data: data_bytes(records),
                metadata: metadata_bytes(metadata_of(records)),
                data_position: 0,
                metadata_position: 0,
                loaded: false,
            },
        ) == Ok::<Seq<RecordView>, ForwardIndexError>(records),
{
    lemma_read_from(records, 0, false);
    assert(records.take(0) =~= Seq::<RecordView>::empty());
    assert(records.skip(0) =~= records);
}

/// With distinct identifiers, the offset table of the first `n` entries
/// places each of the first `n` records.
proof fn lemma_offset_table_upto(records: Seq<RecordView>, n: int, i: int)
    requires
        0 <= i < n <= records.len(),
        data_bytes(records).len() <= u64::MAX,
        ids_distinct(records),
    ensures
        offset_table_upto(metadata_bytes(metadata_of(records)), n as nat).contains_key(
            records[i].id,
        ),
        offset_table_upto(metadata_bytes(metadata_of(records)), n as nat)[records[i].id] == (
            metadata_of(records)[i].offset_in_index_file,
            metadata_of(records)[i].size_of_record,
        ),
    decreases n,
{
    lemma_record_place(records, n - 1);
    if i < n - 1 {
        lemma_offset_table_upto(records, n - 1, i);
    }
}

/// Random access: in a forward index built from records with distinct
/// identifiers, looking a record's identifier up gives that record.
pub proof fn lemma_random_access(records: Seq<RecordView>, i: int)
    requires
        0 <= i < records.len(),
        data_bytes(records).len() <= u64::MAX,
        ids_distinct(records),
    ensures
        lookup(data_bytes(records), metadata_bytes(metadata_of(records)), records[i].id) == Ok::<
            RecordView,
            ForwardIndexError,
        >(records[i]),
{
    let metadata = metadata_bytes(metadata_of(records));
    lemma_metadata_of(records);
    lemma_metadata_slots(metadata_of(records));
    assert(entry_count(metadata) == records.len());
    lemma_offset_table_upto(records, records.len() as int, i);
    lemma_record_place(records, i);
    assert(offset_table(metadata) == offset_table_upto(metadata, records.len()));
}

/// An identifier that no record has is unknown to the offset table.
proof fn lemma_unknown_upto(records: Seq<RecordView>, id: DocId, n: int)
    requires
        0 <= n <= records.len(),
        data_bytes(records).len() <= u64::MAX,
        forall|i: int| 0 <= i < records.len() ==> (#[trigger] records[i]).id != id,
    ensures
        !offset_table_upto(metadata_bytes(metadata_of(records)), n as nat).contains_key(id),
    decreases n,
{
    if n > 0 {
        lemma_record_place(records, n - 1);
        lemma_unknown_upto(records, id, n - 1);
    }
}

/// Looking up an identifier that no record of the corpus has gives the
/// error of the unknown document.
pub proof fn lemma_unknown_document(records: Seq<RecordView>, id: DocId)
    requires
        data_bytes(records).len() <= u64::MAX,
        forall|i: int| 0 <= i < records.len() ==> (#[trigger] records[i]).id != id,
    ensures
        lookup(data_bytes(records), metadata_bytes(metadata_of(records)), id) == Err::<
            RecordView,
            ForwardIndexError,
        >(ForwardIndexError::UnknownDocument),
{
    let metadata = metadata_bytes(metadata_of(records));
    lemma_metadata_of(records);
    lemma_metadata_slots(metadata_of(records));
    assert(entry_count(metadata) == records.len());
    lemma_unknown_upto(records, id, records.len() as int);
}

} // verus!
