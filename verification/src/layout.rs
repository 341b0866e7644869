//! Where the entries of a decoded table and their values stand in its bytes.

use crate::entries::{
    decode_entries, detect_width, entry_at, entry_end, entry_fits, entry_tag,
    lemma_decoded_entries_shape, lemma_entry_layout, lemma_prefix_monotone, lemma_slot_order,
    lemma_slot_step, prefix_end, prefix_entries, stream_prefix, type_of_tag, value_count,
    value_slot, RawEntryView, ValueLength, ENTRIES_START,
};
use crate::reader::{le_signed, lemma_round_up_bounds};
use crate::table::{
    decode_header, decode_name_section, decode_table, interpret, lemma_resolved_len,
    lemma_table_entry_count, resolve_entries, resolve_entry, string_data_end, value_pool,
    EntryView, Header, NameSection,
};
use vstd::prelude::*;

verus! {

/// Where the string data of the table starts, which is where its entry
/// stream must end.
pub open spec fn table_limit(bytes: Seq<u8>) -> int {
    decode_header(bytes).unwrap().string_data_offset as int
}

/// The number of entries of the table.
pub open spec fn table_count(bytes: Seq<u8>) -> nat {
    decode_header(bytes).unwrap().entry_count as nat
}

/// The width of the values of the table.
pub open spec fn table_width(bytes: Seq<u8>) -> ValueLength {
    detect_width(bytes, table_count(bytes), table_limit(bytes)).unwrap()
}

/// The checksum section of the table.
pub open spec fn table_section(bytes: Seq<u8>) -> NameSection {
    decode_name_section(bytes, decode_header(bytes).unwrap()).unwrap()
}

/// The raw entries of the table.
pub open spec fn table_raws(bytes: Seq<u8>) -> Seq<RawEntryView> {
    decode_entries(
        bytes,
        table_count(bytes),
        table_limit(bytes),
        table_width(bytes).width(),
    ).unwrap().0
}

/// Where the `i`-th entry of the table starts; for `i` the number of entries,
/// where the entry stream ends.
pub open spec fn entry_start(bytes: Seq<u8>, i: nat) -> int {
    prefix_end(bytes, table_limit(bytes), table_width(bytes).width(), i)
}

/// Whether `at` is a position of the `i`-th entry of the table: one from its
/// checksum up to its last value.
pub open spec fn in_entry(bytes: Seq<u8>, i: nat, at: int) -> bool {
    entry_start(bytes, i) <= at < entry_start(bytes, i + 1)
}

/// The `i`-th of `count` valid entries is the entry that stands where the
/// `i` entries in front of it end.
pub proof fn lemma_prefix_entry(bytes: Seq<u8>, limit: int, width: nat, count: nat, i: nat)
    requires
        stream_prefix(bytes, limit, width, count) is Some,
        i < count,
    ensures
        stream_prefix(bytes, limit, width, i) is Some,
        stream_prefix(bytes, limit, width, i + 1) is Some,
        entry_fits(bytes, limit, prefix_end(bytes, limit, width, i), width),
        prefix_entries(bytes, limit, width, count)[i as int] == entry_at(
            bytes,
            prefix_end(bytes, limit, width, i),
            width,
        ),
        prefix_end(bytes, limit, width, i + 1) == entry_end(
            bytes,
            prefix_end(bytes, limit, width, i),
            width,
        ),
        prefix_end(bytes, limit, width, i + 1) <= prefix_end(bytes, limit, width, count),
        ENTRIES_START <= prefix_end(bytes, limit, width, i),
{
    lemma_prefix_monotone(bytes, limit, width, i + 1, count);
    lemma_prefix_monotone(bytes, limit, width, i, i + 1);
    let shorter = prefix_entries(bytes, limit, width, i + 1);
    let longer = prefix_entries(bytes, limit, width, count);
    assert(shorter[i as int] == longer.take((i + 1) as int)[i as int]);
}

/// Entries stand in the order of their index.
pub proof fn lemma_prefix_order(bytes: Seq<u8>, limit: int, width: nat, count: nat, i: nat, j: nat)
    requires
        stream_prefix(bytes, limit, width, count) is Some,
        i <= j <= count,
    ensures
        stream_prefix(bytes, limit, width, i) is Some,
        stream_prefix(bytes, limit, width, j) is Some,
        prefix_end(bytes, limit, width, i) <= prefix_end(bytes, limit, width, j),
{
    lemma_prefix_monotone(bytes, limit, width, j, count);
    lemma_prefix_monotone(bytes, limit, width, i, j);
}

/// Each of the first `count` entries is what its raw entry stands for.
pub proof fn lemma_resolved_index(
    bytes: Seq<u8>,
    header: Header,
    section: NameSection,
    width: ValueLength,
    raws: Seq<RawEntryView>,
    count: nat,
    i: int,
)
    requires
        resolve_entries(bytes, header, section, width, raws, count) is Ok,
        0 <= i < count,
    ensures
        resolve_entry(bytes, header, section, width, raws[i]) is Ok,
        resolve_entries(bytes, header, section, width, raws, count).unwrap()[i] == resolve_entry(
            bytes,
            header,
            section,
            width,
            raws[i],
        ).unwrap(),
    decreases count,
{
    lemma_resolved_len(bytes, header, section, width, raws, (count - 1) as nat);
    if i < count - 1 {
        lemma_resolved_index(bytes, header, section, width, raws, (count - 1) as nat, i);
    }
}

/// The parts of a decoded table: its header, its width, its entry stream,
/// and the room that the stream leaves in front of the footer.
pub proof fn lemma_table_parts(bytes: Seq<u8>)
    requires
        decode_table(bytes) is Ok,
    ensures
        decode_header(bytes) is Ok,
        detect_width(bytes, table_count(bytes), table_limit(bytes)) is Some,
        decode_name_section(bytes, decode_header(bytes).unwrap()) is Ok,
        decode_table(bytes).unwrap().bytes == bytes,
        decode_table(bytes).unwrap().value_length == table_width(bytes),
        decode_table(bytes).unwrap().entries.len() == table_count(bytes),
        table_raws(bytes).len() == table_count(bytes),
        resolve_entries(
            bytes,
            decode_header(bytes).unwrap(),
            table_section(bytes),
            table_width(bytes),
            table_raws(bytes),
            table_count(bytes),
        ) == Ok::<Seq<EntryView>, crate::error::FormatError>(decode_table(bytes).unwrap().entries),
        stream_prefix(
            bytes,
            table_limit(bytes),
            table_width(bytes).width(),
            table_count(bytes),
        ) is Some,
        table_raws(bytes) == prefix_entries(
            bytes,
            table_limit(bytes),
            table_width(bytes).width(),
            table_count(bytes),
        ),
        entry_start(bytes, table_count(bytes)) <= table_limit(bytes),
        table_limit(bytes) + 16 <= bytes.len(),
{
    lemma_table_entry_count(bytes);
    let header = decode_header(bytes).unwrap();
    lemma_decoded_entries_shape(
        bytes,
        table_count(bytes),
        table_limit(bytes),
        table_width(bytes).width(),
    );
    lemma_round_up_bounds(string_data_end(header), 16);
}

/// Where a value of a decoded table stands and what it holds.
///
/// The values of an entry fill the slots of its stream entry: each offset is
/// that of its slot, each type the one that its tag declares, and what it
/// holds is read from the slot. The slots lie inside the entry, behind its
/// head, and inside the buffer.
pub proof fn lemma_field_layout(bytes: Seq<u8>, i: nat, k: int)
    requires
        decode_table(bytes) is Ok,
        i < table_count(bytes),
        0 <= k < decode_table(bytes).unwrap().entries[i as int].values.len(),
    ensures
        ({
            let table = decode_table(bytes).unwrap();
            let field = table.entries[i as int].values[k];
            let pos = entry_start(bytes, i);
            let width = table_width(bytes).width();
            let slot = value_slot(bytes, pos, width, k);
            &&& table.entries[i as int].values.len() == value_count(bytes, pos)
            &&& field.offset == slot
            &&& field.typ == type_of_tag(entry_tag(bytes, pos, k)).unwrap()
            &&& field.data == interpret(
                field.typ,
                le_signed(bytes, slot, width) as i64,
                table_width(bytes),
                value_pool(bytes, decode_header(bytes).unwrap()),
                decode_header(bytes).unwrap().encoding,
            )
            &&& entry_start(bytes, i) + 5 <= slot
            &&& slot + width <= entry_start(bytes, i + 1)
            &&& entry_start(bytes, i + 1) <= table_limit(bytes)
            &&& table_limit(bytes) + 16 <= bytes.len()
        }),
{
    lemma_table_parts(bytes);
    let header = decode_header(bytes).unwrap();
    let limit = table_limit(bytes);
    let count = table_count(bytes);
    let width = table_width(bytes).width();
    let raws = table_raws(bytes);
    lemma_resolved_index(
        bytes,
        header,
        table_section(bytes),
        table_width(bytes),
        raws,
        count,
        i as int,
    );
    lemma_prefix_entry(bytes, limit, width, count, i);
    let pos = entry_start(bytes, i);
    lemma_entry_layout(bytes, limit, pos, width);
    let n = value_count(bytes, pos) as int;
    lemma_slot_step(bytes, pos, width, k);
    if k + 1 < n {
        lemma_slot_order(bytes, pos, width, k, n - 1);
        lemma_slot_step(bytes, pos, width, n - 1);
    }
    lemma_slot_order(bytes, pos, width, -1, k);
    lemma_slot_step(bytes, pos, width, -1);
}

/// Every value of a decoded table lies inside the buffer of the table: its
/// offset is behind the header, and its bytes end in front of the string
/// data.
pub proof fn lemma_value_inside_buffer(bytes: Seq<u8>, i: int, k: int)
    requires
        decode_table(bytes) is Ok,
        0 <= i < decode_table(bytes).unwrap().entries.len(),
        0 <= k < decode_table(bytes).unwrap().entries[i].values.len(),
    ensures
        ({
            let table = decode_table(bytes).unwrap();
            let offset = table.entries[i].values[k].offset;
            &&& ENTRIES_START < offset
            &&& offset + table.value_length.width() <= table_limit(bytes)
            &&& offset + table.value_length.width() <= bytes.len()
        }),
{
    lemma_table_parts(bytes);
    lemma_field_layout(bytes, i as nat, k);
    lemma_prefix_order(
        bytes,
        table_limit(bytes),
        table_width(bytes).width(),
        table_count(bytes),
        0,
        i as nat,
    );
}

} // verus!
