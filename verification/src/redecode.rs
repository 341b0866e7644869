//! Decoding the bytes that synchronising gives: part by part they decode as
//! the bytes of the original table do, but for the sizes that were written.

use crate::entries::{
    decode_entries, detect_width, entry_at, entry_end, entry_fits, entry_tag, lemma_entry_layout,
    prefix_end, stream_prefix, value_count, value_slot, values_start, RawEntryView, ValueLength,
};
use crate::error::FormatError;
use crate::frame::{
    lemma_head_untouched, lemma_outside_read_alike, lemma_outside_stream_untouched,
    lemma_slot_untouched, lemma_synced_len, synced_bytes,
};
use crate::layout::{
    entry_start, lemma_field_layout, lemma_prefix_entry, lemma_resolved_index, lemma_table_parts,
    table_count, table_limit, table_raws, table_section, table_width,
};
use crate::laws::lemma_matched_size_written;
use crate::patch::{entry_patch, row_new_size, row_patch, target_index};
use crate::reader::{
    le_signed, le_unsigned, lemma_le_unsigned_frame, lemma_round_up_bounds, narrow, round_up,
};
use crate::table::{
    decode_header, decode_name_section, decode_table, entry_name, interpret_values, name_offsets,
    name_pool, resolve_entries, resolve_entry, string_data_end, value_pool, EntryView, TableView,
    ValueDataView, ValueFieldView,
};
use vstd::prelude::*;

verus! {

/// A row after synchronising: where a size is written for it, the value that
/// holds its size holds the new size, narrowed to the width of the table.
pub open spec fn synced_entry(
    entry: EntryView,
    sizes: Map<Seq<char>, (i64, ValueLength)>,
    width: ValueLength,
    len: nat,
) -> EntryView {
    match row_patch(entry, sizes, width, len) {
        None => entry,
        Some(patch) => {
            let k = target_index(entry).unwrap();
            EntryView {
                name: entry.name,
                values: entry.values.update(
                    k,
                    ValueFieldView {
                        typ: entry.values[k].typ,
                        data: ValueDataView::Int(narrow(patch.1 as int, width.width()) as i64),
                        offset: entry.values[k].offset,
                    },
                ),
            }
        },
    }
}

/// The rows of a table after synchronising.
pub open spec fn synced_entries(table: TableView, sizes: Map<Seq<char>, (i64, ValueLength)>) -> Seq<
    EntryView,
> {
    Seq::new(
        table.entries.len(),
        |i: int| synced_entry(table.entries[i], sizes, table.value_length, table.bytes.len()),
    )
}

/// The header and the footer of the output say what those of the input say.
pub proof fn lemma_header_alike(bytes: Seq<u8>, sizes: Map<Seq<char>, (i64, ValueLength)>)
    requires
        decode_table(bytes) is Ok,
    ensures
        decode_header(synced_bytes(bytes, sizes)) == decode_header(bytes),
{
    lemma_table_parts(bytes);
    lemma_synced_len(bytes, sizes);
    let footer = bytes.len() - 16;
    lemma_outside_read_alike(bytes, sizes, footer, 4);
    lemma_outside_read_alike(bytes, sizes, footer + 6, 2);
    lemma_outside_read_alike(bytes, sizes, 0, 4);
    lemma_outside_read_alike(bytes, sizes, 4, 4);
    lemma_outside_read_alike(bytes, sizes, 8, 4);
}

/// The head of an entry reads in the output as in the input, and so the
/// entry has the same values at the same places and ends at the same place.
pub proof fn lemma_entry_head_alike(
    bytes: Seq<u8>,
    sizes: Map<Seq<char>, (i64, ValueLength)>,
    i: nat,
)
    requires
        decode_table(bytes) is Ok,
        i < table_count(bytes),
    ensures
        ({
            let out = synced_bytes(bytes, sizes);
            let pos = entry_start(bytes, i);
            let width = table_width(bytes).width();
            &&& value_count(out, pos) == value_count(bytes, pos)
            &&& values_start(out, pos) == values_start(bytes, pos)
            &&& le_unsigned(out, pos, 4) == le_unsigned(bytes, pos, 4)
            &&& entry_end(out, pos, width) == entry_end(bytes, pos, width)
            &&& entry_fits(out, table_limit(bytes), pos, width)
            &&& forall|k: int|
                0 <= k < value_count(bytes, pos) ==> #[trigger] entry_tag(out, pos, k)
                    == entry_tag(bytes, pos, k)
        }),
{
    lemma_table_parts(bytes);
    lemma_synced_len(bytes, sizes);
    let out = synced_bytes(bytes, sizes);
    let limit = table_limit(bytes);
    let width = table_width(bytes).width();
    let count = table_count(bytes);
    let pos = entry_start(bytes, i);
    lemma_prefix_entry(bytes, limit, width, count, i);
    lemma_entry_layout(bytes, limit, pos, width);
    let n = value_count(bytes, pos) as int;
    lemma_head_untouched(bytes, sizes, i, pos + 4);
    assert forall|p: int| pos <= p < pos + 4 implies out[p] == bytes[p] by {
        lemma_head_untouched(bytes, sizes, i, p);
    }
    lemma_le_unsigned_frame(out, bytes, pos, 4);
    assert forall|k: int| 0 <= k < n implies #[trigger] entry_tag(out, pos, k) == entry_tag(
        bytes,
        pos,
        k,
    ) by {
        lemma_head_untouched(bytes, sizes, i, pos + 5 + k / 4);
    }
    assert forall|k: int| 0 <= k < n implies #[trigger] entry_tag(out, pos, k) != 3 by {
        assert(entry_tag(bytes, pos, k) != 3);
    }
}

/// The entry stream of the output is valid as far as that of the input, and
/// its entries start where those of the input start.
pub proof fn lemma_stream_alike(
    bytes: Seq<u8>,
    sizes: Map<Seq<char>, (i64, ValueLength)>,
    m: nat,
)
    requires
        decode_table(bytes) is Ok,
        m <= table_count(bytes),
    ensures
        stream_prefix(
            synced_bytes(bytes, sizes),
            table_limit(bytes),
            table_width(bytes).width(),
            m,
        ) is Some,
        prefix_end(synced_bytes(bytes, sizes), table_limit(bytes), table_width(bytes).width(), m)
            == entry_start(bytes, m),
    decreases m,
{
    lemma_table_parts(bytes);
    if m > 0 {
        let i = (m - 1) as nat;
        lemma_stream_alike(bytes, sizes, i);
        lemma_entry_head_alike(bytes, sizes, i);
        lemma_prefix_entry(
            bytes,
            table_limit(bytes),
            table_width(bytes).width(),
            table_count(bytes),
            i,
        );
    }
}

/// Under the width of the input the entry stream of the output is valid, and
/// its raw entries are the entries that stand where those of the input stand.
pub proof fn lemma_decoded_alike(bytes: Seq<u8>, sizes: Map<Seq<char>, (i64, ValueLength)>)
    requires
        decode_table(bytes) is Ok,
    ensures
        decode_entries(
            synced_bytes(bytes, sizes),
            table_count(bytes),
            table_limit(bytes),
            table_width(bytes).width(),
        ) is Some,
        decode_entries(
            synced_bytes(bytes, sizes),
            table_count(bytes),
            table_limit(bytes),
            table_width(bytes).width(),
        ).unwrap().0.len() == table_count(bytes),
        forall|i: int|
            0 <= i < table_count(bytes) ==> (#[trigger] decode_entries(
                synced_bytes(bytes, sizes),
                table_count(bytes),
                table_limit(bytes),
                table_width(bytes).width(),
            ).unwrap().0[i]) == entry_at(
                synced_bytes(bytes, sizes),
                entry_start(bytes, i as nat),
                table_width(bytes).width(),
            ),
{
    lemma_table_parts(bytes);
    let out = synced_bytes(bytes, sizes);
    let limit = table_limit(bytes);
    let width = table_width(bytes).width();
    let count = table_count(bytes);
    lemma_stream_alike(bytes, sizes, count);
    crate::entries::lemma_prefix_entries_shape(out, limit, width, count);
    assert forall|i: int| 0 <= i < count implies (#[trigger] decode_entries(
        out,
        count,
        limit,
        width,
    ).unwrap().0[i]) == entry_at(out, entry_start(bytes, i as nat), width) by {
        lemma_prefix_entry(out, limit, width, count, i as nat);
        lemma_stream_alike(bytes, sizes, i as nat);
    }
}

/// Where the output cannot be read with values of four bytes unless the
/// input can, re-decoding finds the width of the input.
pub proof fn lemma_width_alike(bytes: Seq<u8>, sizes: Map<Seq<char>, (i64, ValueLength)>)
    requires
        decode_table(bytes) is Ok,
        table_width(bytes) == ValueLength::Long ==> decode_entries(
            synced_bytes(bytes, sizes),
            table_count(bytes),
            table_limit(bytes),
            4,
        ) is None,
    ensures
        detect_width(synced_bytes(bytes, sizes), table_count(bytes), table_limit(bytes)) == Some(
            table_width(bytes),
        ),
{
    lemma_table_parts(bytes);
    lemma_decoded_alike(bytes, sizes);
}

/// The checksum section of the output is found where that of the input is,
/// with the same sizes.
pub proof fn lemma_section_alike(bytes: Seq<u8>, sizes: Map<Seq<char>, (i64, ValueLength)>)
    requires
        decode_table(bytes) is Ok,
    ensures
        decode_name_section(synced_bytes(bytes, sizes), decode_header(bytes).unwrap())
            == decode_name_section(bytes, decode_header(bytes).unwrap()),
{
    lemma_table_parts(bytes);
    lemma_synced_len(bytes, sizes);
    let header = decode_header(bytes).unwrap();
    let position = round_up(string_data_end(header), 16);
    lemma_round_up_bounds(string_data_end(header), 16);
    lemma_outside_read_alike(bytes, sizes, position + 4, 4);
    lemma_outside_read_alike(bytes, sizes, position + 8, 4);
    lemma_outside_read_alike(bytes, sizes, position + 12, 4);
}

/// The records of the checksum section of the output give the name offsets
/// that those of the input give.
pub proof fn lemma_name_offsets_alike(
    bytes: Seq<u8>,
    sizes: Map<Seq<char>, (i64, ValueLength)>,
    count: nat,
)
    requires
        decode_table(bytes) is Ok,
        bytes.len() <= usize::MAX,
        count <= table_section(bytes).record_count,
    ensures
        name_offsets(synced_bytes(bytes, sizes), table_section(bytes), count) == name_offsets(
            bytes,
            table_section(bytes),
            count,
        ),
    decreases count,
{
    lemma_table_parts(bytes);
    let header = decode_header(bytes).unwrap();
    let section = table_section(bytes);
    lemma_round_up_bounds(string_data_end(header), 16);
    if count > 0 {
        lemma_name_offsets_alike(bytes, sizes, (count - 1) as nat);
        lemma_outside_read_alike(bytes, sizes, section.position + 16 + 8 * (count - 1), 4);
        lemma_outside_read_alike(bytes, sizes, section.position + 20 + 8 * (count - 1), 4);
        lemma_outside_read_alike(bytes, sizes, section.position + 20, 4);
    }
}

/// The pool of names and the pool of string values of the output are those of
/// the input.
pub proof fn lemma_pools_alike(bytes: Seq<u8>, sizes: Map<Seq<char>, (i64, ValueLength)>)
    requires
        decode_table(bytes) is Ok,
        bytes.len() <= usize::MAX,
    ensures
        name_pool(synced_bytes(bytes, sizes), table_section(bytes)) == name_pool(
            bytes,
            table_section(bytes),
        ),
        value_pool(synced_bytes(bytes, sizes), decode_header(bytes).unwrap()) == value_pool(
            bytes,
            decode_header(bytes).unwrap(),
        ),
{
    lemma_table_parts(bytes);
    lemma_synced_len(bytes, sizes);
    let out = synced_bytes(bytes, sizes);
    let header = decode_header(bytes).unwrap();
    let section = table_section(bytes);
    lemma_round_up_bounds(string_data_end(header), 16);
    let names_at = section.position + section.pool_offset;
    assert forall|p: int| names_at <= p < names_at + section.pool_size implies out[p]
        == bytes[p] by {
        lemma_outside_stream_untouched(bytes, sizes, p);
    }
    assert(name_pool(out, section) =~= name_pool(bytes, section));
    assert forall|p: int|
        header.string_data_offset <= p < string_data_end(header) implies out[p] == bytes[p] by {
        lemma_outside_stream_untouched(bytes, sizes, p);
    }
    assert(value_pool(out, header) =~= value_pool(bytes, header));
}

/// A value of the output is the value of the input, but where a size was
/// written: there it is the new size, narrowed to the width of the table.
pub proof fn lemma_value_alike(
    bytes: Seq<u8>,
    sizes: Map<Seq<char>, (i64, ValueLength)>,
    i: nat,
    k: int,
)
    requires
        decode_table(bytes) is Ok,
        bytes.len() <= usize::MAX,
        i < table_count(bytes),
        0 <= k < value_count(bytes, entry_start(bytes, i)),
    ensures
        ({
            let table = decode_table(bytes).unwrap();
            let out = synced_bytes(bytes, sizes);
            let header = decode_header(bytes).unwrap();
            let raw = entry_at(out, entry_start(bytes, i), table_width(bytes).width());
            &&& raw.types.len() == table.entries[i as int].values.len()
            &&& raw.crc32 == table_raws(bytes)[i as int].crc32
            &&& interpret_values(
                raw,
                table_width(bytes),
                value_pool(out, header),
                header.encoding,
            )[k] == synced_entry(
                table.entries[i as int],
                sizes,
                table.value_length,
                bytes.len(),
            ).values[k]
        }),
{
    lemma_table_parts(bytes);
    lemma_synced_len(bytes, sizes);
    lemma_pools_alike(bytes, sizes);
    lemma_entry_head_alike(bytes, sizes, i);
    let table = decode_table(bytes).unwrap();
    let entry = table.entries[i as int];
    let out = synced_bytes(bytes, sizes);
    let limit = table_limit(bytes);
    let width = table_width(bytes).width();
    let count = table_count(bytes);
    let pos = entry_start(bytes, i);
    lemma_prefix_entry(bytes, limit, width, count, i);
    lemma_resolved_index(
        bytes,
        decode_header(bytes).unwrap(),
        table_section(bytes),
        table_width(bytes),
        table_raws(bytes),
        count,
        i as int,
    );
    lemma_field_layout(bytes, i, k);
    let slot = value_slot(bytes, pos, width, k);
    assert(value_slot(out, pos, width, k) == slot);
    assert(entry_tag(out, pos, k) == entry_tag(bytes, pos, k));
    if entry_patch(table, sizes, i as int) is Some && target_index(entry) == Some(k) {
        lemma_matched_size_written(bytes, sizes, i);
        let size = row_new_size(entry, sizes);
        assert(le_signed(out, slot, width) == narrow(size as int, width));
    } else {
        assert forall|p: int| slot <= p < slot + width implies out[p] == bytes[p] by {
            lemma_slot_untouched(bytes, sizes, i, k, p);
        }
        lemma_le_unsigned_frame(out, bytes, slot, width);
    }
}

/// An entry of the output is the entry of the input after synchronising.
pub proof fn lemma_entry_alike(
    bytes: Seq<u8>,
    sizes: Map<Seq<char>, (i64, ValueLength)>,
    i: nat,
)
    requires
        decode_table(bytes) is Ok,
        bytes.len() <= usize::MAX,
        i < table_count(bytes),
    ensures
        resolve_entry(
            synced_bytes(bytes, sizes),
            decode_header(bytes).unwrap(),
            table_section(bytes),
            table_width(bytes),
            entry_at(synced_bytes(bytes, sizes), entry_start(bytes, i), table_width(bytes).width()),
        ) == Ok::<EntryView, FormatError>(
            synced_entry(
                decode_table(bytes).unwrap().entries[i as int],
                sizes,
                table_width(bytes),
                bytes.len(),
            ),
        ),
{
    lemma_table_parts(bytes);
    lemma_pools_alike(bytes, sizes);
    lemma_name_offsets_alike(bytes, sizes, table_section(bytes).record_count as nat);
    lemma_entry_head_alike(bytes, sizes, i);
    let table = decode_table(bytes).unwrap();
    let entry = table.entries[i as int];
    let out = synced_bytes(bytes, sizes);
    let header = decode_header(bytes).unwrap();
    let section = table_section(bytes);
    let limit = table_limit(bytes);
    let width = table_width(bytes).width();
    let count = table_count(bytes);
    let pos = entry_start(bytes, i);
    let raw = entry_at(out, pos, width);
    lemma_prefix_entry(bytes, limit, width, count, i);
    lemma_resolved_index(
        bytes,
        header,
        section,
        table_width(bytes),
        table_raws(bytes),
        count,
        i as int,
    );
    assert(raw.crc32 == table_raws(bytes)[i as int].crc32);
    assert(entry_name(out, section, header.encoding, raw.crc32) == entry_name(
        bytes,
        section,
        header.encoding,
        raw.crc32,
    ));
    let expected = synced_entry(entry, sizes, table_width(bytes), bytes.len());
    let values = interpret_values(raw, table_width(bytes), value_pool(out, header), header.encoding);
    assert(entry.values.len() == value_count(bytes, pos));
    assert(values.len() == expected.values.len());
    assert forall|k: int| 0 <= k < values.len() implies values[k] == expected.values[k] by {
        lemma_value_alike(bytes, sizes, i, k);
    }
    assert(values =~= expected.values);
}

/// The first `m` entries of the output are those of the input after
/// synchronising.
pub proof fn lemma_entries_alike(
    bytes: Seq<u8>,
    sizes: Map<Seq<char>, (i64, ValueLength)>,
    raws: Seq<RawEntryView>,
    m: nat,
)
    requires
        decode_table(bytes) is Ok,
        bytes.len() <= usize::MAX,
        m <= table_count(bytes),
        raws.len() == table_count(bytes),
        forall|i: int|
            0 <= i < table_count(bytes) ==> (#[trigger] raws[i]) == entry_at(
                synced_bytes(bytes, sizes),
                entry_start(bytes, i as nat),
                table_width(bytes).width(),
            ),
    ensures
        resolve_entries(
            synced_bytes(bytes, sizes),
            decode_header(bytes).unwrap(),
            table_section(bytes),
            table_width(bytes),
            raws,
            m,
        ) == Ok::<Seq<EntryView>, FormatError>(
            synced_entries(decode_table(bytes).unwrap(), sizes).take(m as int),
        ),
    decreases m,
{
    lemma_table_parts(bytes);
    let table = decode_table(bytes).unwrap();
    let all = synced_entries(table, sizes);
    if m == 0 {
        assert(all.take(0) =~= Seq::<EntryView>::empty());
    } else {
        lemma_entries_alike(bytes, sizes, raws, (m - 1) as nat);
        lemma_entry_alike(bytes, sizes, (m - 1) as nat);
        assert(raws[m - 1] == entry_at(
            synced_bytes(bytes, sizes),
            entry_start(bytes, (m - 1) as nat),
            table_width(bytes).width(),
        ));
        assert(all.take(m as int) =~= all.take(m - 1).push(all[m - 1]));
    }
}

} // verus!
