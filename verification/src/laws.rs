//! What synchronising keeps and what it changes.

use crate::entries::{
    decode_entries, detect_width, entry_end, stream_prefix, value_count, ValueLength, ValueType,
    ENTRIES_START,
};
use crate::error::{FormatError, SyncError};
use crate::frame::{
    covers, lemma_other_entries_not_covered, lemma_patched_frame, synced_bytes,
};
use crate::layout::{
    in_entry, lemma_field_layout, lemma_prefix_order, lemma_table_parts, table_count,
    table_limit, table_width,
};
use crate::patch::{
    entry_patch, lemma_patched_prefix_len, patched, patched_prefix, row_matches, row_new_size,
    row_patch, sizes_of_table, sync_view, synchronized, target_index,
};
use crate::reader::{le_signed, lemma_le_unsigned_frame, narrow};
use crate::redecode::{
    lemma_decoded_alike, lemma_entries_alike, lemma_header_alike, lemma_section_alike,
    lemma_width_alike, synced_entries, synced_entry,
};
use crate::table::{decode_table, EntryView, TableView};
use crate::writer::{lemma_write_then_read, write_le};
use vstd::prelude::*;

verus! {

/// A row that is not written to keeps every byte, from its checksum to its
/// last value.
pub proof fn lemma_skipped_entry_untouched(
    bytes: Seq<u8>,
    sizes: Map<Seq<char>, (i64, ValueLength)>,
    i: nat,
    at: int,
)
    requires
        decode_table(bytes) is Ok,
        i < table_count(bytes),
        entry_patch(decode_table(bytes).unwrap(), sizes, i as int) is None,
        in_entry(bytes, i, at),
    ensures
        0 <= at < bytes.len(),
        patched(decode_table(bytes).unwrap(), sizes).0.len() == bytes.len(),
        patched(decode_table(bytes).unwrap(), sizes).0[at] == bytes[at],
{
    lemma_table_parts(bytes);
    let table = decode_table(bytes).unwrap();
    let limit = table_limit(bytes);
    let width = table_width(bytes).width();
    let count = table_count(bytes);
    lemma_prefix_order(bytes, limit, width, count, 0, i);
    lemma_prefix_order(bytes, limit, width, count, i + 1, count);
    assert forall|j: int| 0 <= j < count implies !covers(
        #[trigger] entry_patch(table, sizes, j),
        width,
        at,
    ) by {
        if j != i {
            lemma_other_entries_not_covered(bytes, sizes, i, j as nat, at);
        }
    }
    lemma_patched_frame(table, sizes, 0, count, at);
    lemma_patched_prefix_len(table, sizes, count);
}

/// Synchronising leaves a row of the original table whose path has no size in
/// the patched table as it is: every byte of the row, from its checksum to
/// its last value, is in the output what it is in the input.
pub proof fn lemma_unmatched_entry_untouched(
    bytes: Seq<u8>,
    sizes: Map<Seq<char>, (i64, ValueLength)>,
    i: nat,
    at: int,
)
    requires
        decode_table(bytes) is Ok,
        i < table_count(bytes),
        !row_matches(decode_table(bytes).unwrap().entries[i as int], sizes),
        in_entry(bytes, i, at),
    ensures
        0 <= at < bytes.len(),
        patched(decode_table(bytes).unwrap(), sizes).0.len() == bytes.len(),
        patched(decode_table(bytes).unwrap(), sizes).0[at] == bytes[at],
{
    lemma_skipped_entry_untouched(bytes, sizes, i, at);
}

/// Synchronising gives a row of the original table whose path has a size in
/// the patched table, and whose size is an integer, that size: the integer
/// that stands at the offset of its size in the output is the new size,
/// narrowed to the original table's own value width.
pub proof fn lemma_matched_size_written(
    bytes: Seq<u8>,
    sizes: Map<Seq<char>, (i64, ValueLength)>,
    i: nat,
)
    requires
        decode_table(bytes) is Ok,
        i < table_count(bytes),
        row_matches(decode_table(bytes).unwrap().entries[i as int], sizes),
        ({
            let entry = decode_table(bytes).unwrap().entries[i as int];
            entry.values[target_index(entry).unwrap()].typ == ValueType::Integer
        }),
    ensures
        ({
            let entry = decode_table(bytes).unwrap().entries[i as int];
            let target = entry.values[target_index(entry).unwrap()];
            &&& target_index(entry) is Some
            &&& entry_patch(decode_table(bytes).unwrap(), sizes, i as int) == Some(
                (target.offset as int, row_new_size(entry, sizes)),
            )
            &&& le_signed(
                patched(decode_table(bytes).unwrap(), sizes).0,
                target.offset as int,
                table_width(bytes).width(),
            ) == narrow(row_new_size(entry, sizes) as int, table_width(bytes).width())
        }),
{
    lemma_table_parts(bytes);
    let table = decode_table(bytes).unwrap();
    let entry = table.entries[i as int];
    let limit = table_limit(bytes);
    let width = table_width(bytes).width();
    let count = table_count(bytes);
    let k = target_index(entry).unwrap();
    lemma_field_layout(bytes, i, k);
    let offset = entry.values[k].offset as int;
    let size = row_new_size(entry, sizes);
    lemma_prefix_order(bytes, limit, width, count, i + 1, count);
    assert(entry_patch(table, sizes, i as int) == Some((offset, size)));
    let before = patched_prefix(table, sizes, i).0;
    let written = patched_prefix(table, sizes, i + 1).0;
    let last = patched(table, sizes).0;
    lemma_patched_prefix_len(table, sizes, i);
    lemma_patched_prefix_len(table, sizes, i + 1);
    lemma_patched_prefix_len(table, sizes, count);
    assert(written == write_le(before, offset, size as int, width));
    lemma_write_then_read(before, offset, size as int, width);
    assert forall|at: int| offset <= at < offset + width implies written[at] == last[at] by {
        assert forall|j: int| i + 1 <= j < count implies !covers(
            #[trigger] entry_patch(table, sizes, j),
            width,
            at,
        ) by {
            lemma_other_entries_not_covered(bytes, sizes, i, j as nat, at);
        }
        lemma_patched_frame(table, sizes, i + 1, count, at);
    }
    lemma_le_unsigned_frame(written, last, offset, width);
}

/// What synchronising gives where it succeeds: both buffers decode, the
/// patched table gives sizes, and the output is the bytes of the original
/// table with those sizes written, as long as the input, together with the
/// number of rows that were written to.
pub proof fn lemma_synchronized_is_patched(original: Seq<u8>, patched_bytes: Seq<u8>)
    requires
        synchronized(original, patched_bytes) is Ok,
    ensures
        decode_table(original) is Ok,
        decode_table(patched_bytes) is Ok,
        sizes_of_table(decode_table(patched_bytes).unwrap()) is Ok,
        ({
            let sizes = sizes_of_table(decode_table(patched_bytes).unwrap())->Ok_0;
            let result = synchronized(original, patched_bytes)->Ok_0;
            &&& sizes != Map::<Seq<char>, (i64, ValueLength)>::empty()
            &&& result.0 == synced_bytes(original, sizes)
            &&& result.0.len() == original.len()
            &&& result.1 <= table_count(original)
        }),
{
    lemma_table_parts(original);
    let table = decode_table(original).unwrap();
    let sizes = sizes_of_table(decode_table(patched_bytes).unwrap())->Ok_0;
    lemma_patched_prefix_len(table, sizes, table_count(original));
}

/// Synchronising the same two buffers twice gives the same result: the same
/// bytes and the same count, or the same error.
pub proof fn lemma_synchronize_deterministic(
    original: Seq<u8>,
    patched_bytes: Seq<u8>,
    first: Result<(Vec<u8>, u32), SyncError>,
    second: Result<(Vec<u8>, u32), SyncError>,
)
    requires
        sync_view(first) == synchronized(original, patched_bytes),
        sync_view(second) == synchronized(original, patched_bytes),
    ensures
        sync_view(first) == sync_view(second),
        first is Ok ==> second is Ok && first.unwrap().0@ == second.unwrap().0@
            && first.unwrap().1 == second.unwrap().1,
        first is Err ==> second is Err && first.unwrap_err()@ == second.unwrap_err()@,
{
}

/// What synchronising keeps of a row: its name, the number of its values,
/// the type and the offset of each, and what each holds but the one that a
/// size is written to.
pub proof fn lemma_synced_entry_keeps(
    entry: EntryView,
    sizes: Map<Seq<char>, (i64, ValueLength)>,
    width: ValueLength,
    len: nat,
    k: int,
)
    requires
        0 <= k < entry.values.len(),
    ensures
        ({
            let after = synced_entry(entry, sizes, width, len);
            &&& after.name == entry.name
            &&& after.values.len() == entry.values.len()
            &&& after.values[k].typ == entry.values[k].typ
            &&& after.values[k].offset == entry.values[k].offset
            &&& (row_patch(entry, sizes, width, len) is None || target_index(entry) != Some(k))
                ==> after.values[k] == entry.values[k]
        }),
{
}

/// Decoding the output of synchronising gives the table that decoding the
/// input gives, with the written sizes in place: the same width, the same
/// entries with the same names, and the same values with the same types and
/// offsets, each holding what it held but the sizes that were written.
///
/// This holds of every table with values of four bytes. A table with values
/// of eight bytes is read with them only where it cannot be read with values
/// of four bytes, and a written size may make that reading valid; it holds
/// where the output, like the input, cannot be read so.
pub proof fn lemma_output_decodes_alike(
    bytes: Seq<u8>,
    sizes: Map<Seq<char>, (i64, ValueLength)>,
)
    requires
        decode_table(bytes) is Ok,
        bytes.len() <= usize::MAX,
        table_width(bytes) == ValueLength::Long ==> decode_entries(
            synced_bytes(bytes, sizes),
            table_count(bytes),
            table_limit(bytes),
            4,
        ) is None,
    ensures
        decode_table(synced_bytes(bytes, sizes)) == Ok::<TableView, FormatError>(
            TableView {
                bytes: synced_bytes(bytes, sizes),
                value_length: decode_table(bytes).unwrap().value_length,
                entries: synced_entries(decode_table(bytes).unwrap(), sizes),
            },
        ),
{
    lemma_table_parts(bytes);
    lemma_header_alike(bytes, sizes);
    lemma_width_alike(bytes, sizes);
    lemma_section_alike(bytes, sizes);
    lemma_decoded_alike(bytes, sizes);
    let out = synced_bytes(bytes, sizes);
    let raws = decode_entries(
        out,
        table_count(bytes),
        table_limit(bytes),
        table_width(bytes).width(),
    ).unwrap().0;
    lemma_entries_alike(bytes, sizes, raws, table_count(bytes));
    let all = synced_entries(decode_table(bytes).unwrap(), sizes);
    assert(all.take(table_count(bytes) as int) =~= all);
}

/// Detection gives a width only to a stream that is valid under it, and the
/// width of eight bytes only to one that is not valid under four.
pub proof fn lemma_detected_width_is_valid(bytes: Seq<u8>, count: nat, limit: int)
    ensures
        detect_width(bytes, count, limit) == Some(ValueLength::Int) <==> decode_entries(
            bytes,
            count,
            limit,
            4,
        ) is Some,
        detect_width(bytes, count, limit) == Some(ValueLength::Long) <==> decode_entries(
            bytes,
            count,
            limit,
            4,
        ) is None && decode_entries(bytes, count, limit, 8) is Some,
        detect_width(bytes, count, limit) is None <==> decode_entries(bytes, count, limit, 4)
            is None && decode_entries(bytes, count, limit, 8) is None,
{
}

/// Where a stream is valid under both widths, its two readings end less than
/// 16 bytes apart.
pub proof fn lemma_both_widths_end_close(bytes: Seq<u8>, count: nat, limit: int)
    requires
        decode_entries(bytes, count, limit, 4) is Some,
        decode_entries(bytes, count, limit, 8) is Some,
    ensures
        ({
            let narrow_end = decode_entries(bytes, count, limit, 4).unwrap().1;
            let wide_end = decode_entries(bytes, count, limit, 8).unwrap().1;
            -16 < narrow_end - wide_end < 16
        }),
{
}

/// A stream of one entry with four values or more is valid under one width
/// at most: the reading with the other width ends too early or too late.
pub proof fn lemma_single_entry_one_width(bytes: Seq<u8>, limit: int)
    requires
        value_count(bytes, ENTRIES_START as int) >= 4,
    ensures
        decode_entries(bytes, 1, limit, 4) is None || decode_entries(bytes, 1, limit, 8) is None,
{
    let pos = ENTRIES_START as int;
    let n = value_count(bytes, pos) as int;
    reveal_with_fuel(stream_prefix, 2);
    if decode_entries(bytes, 1, limit, 4) is Some && decode_entries(bytes, 1, limit, 8) is Some {
        assert(decode_entries(bytes, 1, limit, 4).unwrap().1 == entry_end(bytes, pos, 4));
        assert(decode_entries(bytes, 1, limit, 8).unwrap().1 == entry_end(bytes, pos, 8));
        assert(entry_end(bytes, pos, 8) - entry_end(bytes, pos, 4) == n * 8 - n * 4);
    }
}

} // verus!
