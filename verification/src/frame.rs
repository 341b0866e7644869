//! What the writes of synchronising leave untouched in the bytes of a decoded
//! table: everything but the slots of the sizes that are written.

use crate::entries::{
    lemma_entry_layout, lemma_slot_order, lemma_slot_step, value_count, value_slot, values_start,
    ValueLength,
};
use crate::layout::{
    entry_start, in_entry, lemma_field_layout, lemma_prefix_entry, lemma_prefix_order,
    lemma_table_parts, table_count, table_limit, table_width,
};
use crate::patch::{
    entry_patch, lemma_patched_prefix_len, patched, patched_prefix, target_index,
};
use crate::reader::{le_unsigned, lemma_le_unsigned_frame};
use crate::table::{decode_table, TableView};
use vstd::prelude::*;

verus! {

/// Whether a write of `width` bytes covers the position `at`.
pub open spec fn covers(patch: Option<(int, i64)>, width: nat, at: int) -> bool {
    patch is Some && patch.unwrap().0 <= at < patch.unwrap().0 + width
}

/// The bytes of a decoded table after synchronising with `sizes`.
pub open spec fn synced_bytes(bytes: Seq<u8>, sizes: Map<Seq<char>, (i64, ValueLength)>) -> Seq<
    u8,
> {
    patched(decode_table(bytes).unwrap(), sizes).0
}

/// A position that none of the writes for the rows from `from` up to `to`
/// covers holds after them what it held before them.
pub proof fn lemma_patched_frame(
    table: TableView,
    sizes: Map<Seq<char>, (i64, ValueLength)>,
    from: nat,
    to: nat,
    at: int,
)
    requires
        from <= to,
        0 <= at < table.bytes.len(),
        forall|j: int|
            from <= j < to ==> !covers(
                #[trigger] entry_patch(table, sizes, j),
                table.value_length.width(),
                at,
            ),
    ensures
        patched_prefix(table, sizes, to).0[at] == patched_prefix(table, sizes, from).0[at],
    decreases to,
{
    if from < to {
        lemma_patched_frame(table, sizes, from, (to - 1) as nat, at);
        lemma_patched_prefix_len(table, sizes, (to - 1) as nat);
        assert(!covers(entry_patch(table, sizes, to - 1), table.value_length.width(), at));
    }
}

/// Synchronising keeps the length of the bytes.
pub proof fn lemma_synced_len(bytes: Seq<u8>, sizes: Map<Seq<char>, (i64, ValueLength)>)
    requires
        decode_table(bytes) is Ok,
    ensures
        synced_bytes(bytes, sizes).len() == bytes.len(),
{
    lemma_table_parts(bytes);
    lemma_patched_prefix_len(decode_table(bytes).unwrap(), sizes, table_count(bytes));
}

/// What is written for a row of a decoded table is written into the slot of
/// the value that holds its size, which lies inside that row.
pub proof fn lemma_patch_inside_entry(
    bytes: Seq<u8>,
    sizes: Map<Seq<char>, (i64, ValueLength)>,
    j: nat,
)
    requires
        decode_table(bytes) is Ok,
        j < table_count(bytes),
        entry_patch(decode_table(bytes).unwrap(), sizes, j as int) is Some,
    ensures
        ({
            let table = decode_table(bytes).unwrap();
            let offset = entry_patch(table, sizes, j as int).unwrap().0;
            let k = target_index(table.entries[j as int]).unwrap();
            &&& target_index(table.entries[j as int]) is Some
            &&& 0 <= k < value_count(bytes, entry_start(bytes, j))
            &&& offset == value_slot(bytes, entry_start(bytes, j), table_width(bytes).width(), k)
            &&& values_start(bytes, entry_start(bytes, j)) <= offset
            &&& entry_start(bytes, j) + 5 <= offset
            &&& offset + table_width(bytes).width() <= entry_start(bytes, j + 1)
        }),
{
    lemma_table_parts(bytes);
    let table = decode_table(bytes).unwrap();
    let k = target_index(table.entries[j as int]).unwrap();
    lemma_field_layout(bytes, j, k);
    let pos = entry_start(bytes, j);
    let width = table_width(bytes).width();
    lemma_slot_step(bytes, pos, width, -1);
    lemma_slot_order(bytes, pos, width, -1, k);
}

/// No write for a row of a decoded table covers a position of another row.
pub proof fn lemma_other_entries_not_covered(
    bytes: Seq<u8>,
    sizes: Map<Seq<char>, (i64, ValueLength)>,
    i: nat,
    j: nat,
    at: int,
)
    requires
        decode_table(bytes) is Ok,
        i < table_count(bytes),
        j < table_count(bytes),
        i != j,
        in_entry(bytes, i, at),
    ensures
        !covers(
            entry_patch(decode_table(bytes).unwrap(), sizes, j as int),
            table_width(bytes).width(),
            at,
        ),
{
    lemma_table_parts(bytes);
    let table = decode_table(bytes).unwrap();
    let limit = table_limit(bytes);
    let width = table_width(bytes).width();
    let count = table_count(bytes);
    if entry_patch(table, sizes, j as int) is Some {
        lemma_patch_inside_entry(bytes, sizes, j);
        if j < i {
            lemma_prefix_order(bytes, limit, width, count, j + 1, i);
        } else {
            lemma_prefix_order(bytes, limit, width, count, i + 1, j);
        }
    }
}

/// Synchronising changes no byte in front of the entry stream and none
/// behind it: not the header, not the string data, not the checksum
/// section, not the footer.
pub proof fn lemma_outside_stream_untouched(
    bytes: Seq<u8>,
    sizes: Map<Seq<char>, (i64, ValueLength)>,
    at: int,
)
    requires
        decode_table(bytes) is Ok,
        0 <= at < bytes.len(),
        at < 16 || table_limit(bytes) <= at,
    ensures
        synced_bytes(bytes, sizes)[at] == bytes[at],
{
    lemma_table_parts(bytes);
    let table = decode_table(bytes).unwrap();
    let limit = table_limit(bytes);
    let width = table_width(bytes).width();
    let count = table_count(bytes);
    assert forall|j: int| 0 <= j < count implies !covers(
        #[trigger] entry_patch(table, sizes, j),
        width,
        at,
    ) by {
        if entry_patch(table, sizes, j) is Some {
            lemma_patch_inside_entry(bytes, sizes, j as nat);
            lemma_prefix_order(bytes, limit, width, count, 0, j as nat);
            lemma_prefix_order(bytes, limit, width, count, (j + 1) as nat, count);
        }
    }
    lemma_patched_frame(table, sizes, 0, count, at);
}

/// Synchronising changes no byte of the head of an entry: not its checksum,
/// not its number of values, not its tags, not its padding.
pub proof fn lemma_head_untouched(
    bytes: Seq<u8>,
    sizes: Map<Seq<char>, (i64, ValueLength)>,
    i: nat,
    at: int,
)
    requires
        decode_table(bytes) is Ok,
        i < table_count(bytes),
        entry_start(bytes, i) <= at < values_start(bytes, entry_start(bytes, i)),
    ensures
        0 <= at < bytes.len(),
        synced_bytes(bytes, sizes)[at] == bytes[at],
{
    lemma_table_parts(bytes);
    let table = decode_table(bytes).unwrap();
    let limit = table_limit(bytes);
    let width = table_width(bytes).width();
    let count = table_count(bytes);
    lemma_prefix_entry(bytes, limit, width, count, i);
    lemma_entry_layout(bytes, limit, entry_start(bytes, i), width);
    lemma_prefix_order(bytes, limit, width, count, i + 1, count);
    assert(in_entry(bytes, i, at));
    assert forall|j: int| 0 <= j < count implies !covers(
        #[trigger] entry_patch(table, sizes, j),
        width,
        at,
    ) by {
        if j != i {
            lemma_other_entries_not_covered(bytes, sizes, i, j as nat, at);
        } else if entry_patch(table, sizes, j) is Some {
            lemma_patch_inside_entry(bytes, sizes, i);
        }
    }
    lemma_patched_frame(table, sizes, 0, count, at);
}

/// Synchronising changes no byte of a value but of the one that it writes.
pub proof fn lemma_slot_untouched(
    bytes: Seq<u8>,
    sizes: Map<Seq<char>, (i64, ValueLength)>,
    i: nat,
    k: int,
    at: int,
)
    requires
        decode_table(bytes) is Ok,
        i < table_count(bytes),
        0 <= k < value_count(bytes, entry_start(bytes, i)),
        entry_patch(decode_table(bytes).unwrap(), sizes, i as int) is None || target_index(
            decode_table(bytes).unwrap().entries[i as int],
        ) != Some(k),
        ({
            let slot = value_slot(bytes, entry_start(bytes, i), table_width(bytes).width(), k);
            slot <= at < slot + table_width(bytes).width()
        }),
    ensures
        0 <= at < bytes.len(),
        synced_bytes(bytes, sizes)[at] == bytes[at],
{
    lemma_table_parts(bytes);
    let table = decode_table(bytes).unwrap();
    let limit = table_limit(bytes);
    let width = table_width(bytes).width();
    let count = table_count(bytes);
    let pos = entry_start(bytes, i);
    lemma_prefix_entry(bytes, limit, width, count, i);
    lemma_entry_layout(bytes, limit, pos, width);
    lemma_prefix_order(bytes, limit, width, count, i + 1, count);
    let n = value_count(bytes, pos) as int;
    lemma_slot_step(bytes, pos, width, -1);
    lemma_slot_order(bytes, pos, width, -1, k);
    lemma_slot_step(bytes, pos, width, n - 1);
    if k < n - 1 {
        lemma_slot_order(bytes, pos, width, k, n - 1);
    }
    assert(in_entry(bytes, i, at));
    assert forall|j: int| 0 <= j < count implies !covers(
        #[trigger] entry_patch(table, sizes, j),
        width,
        at,
    ) by {
        if j != i {
            lemma_other_entries_not_covered(bytes, sizes, i, j as nat, at);
        } else if entry_patch(table, sizes, j) is Some {
            lemma_patch_inside_entry(bytes, sizes, i);
            let target = target_index(table.entries[i as int]).unwrap();
            if target < k {
                lemma_slot_order(bytes, pos, width, target, k);
            } else {
                lemma_slot_order(bytes, pos, width, k, target);
            }
        }
    }
    lemma_patched_frame(table, sizes, 0, count, at);
}

/// A number that stands where synchronising changes nothing reads the same
/// in the output.
pub proof fn lemma_outside_read_alike(
    bytes: Seq<u8>,
    sizes: Map<Seq<char>, (i64, ValueLength)>,
    at: int,
    width: nat,
)
    requires
        decode_table(bytes) is Ok,
        0 <= at,
        at + width <= bytes.len(),
        at + width <= 16 || table_limit(bytes) <= at,
    ensures
        le_unsigned(synced_bytes(bytes, sizes), at, width) == le_unsigned(bytes, at, width),
{
    assert forall|p: int| at <= p < at + width implies synced_bytes(bytes, sizes)[p]
        == bytes[p] by {
        lemma_outside_stream_untouched(bytes, sizes, p);
    }
    lemma_le_unsigned_frame(synced_bytes(bytes, sizes), bytes, at, width);
}

} // verus!
