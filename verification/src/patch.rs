//! Synchronising sizes: the sizes that a patched table gives, by path, and
//! their writing into a copy of the original table's bytes.

use crate::entries::{ValueLength, ValueType};
use crate::error::{SyncError, SyncErrorView};
use crate::table::{
    decode_table, parse_t2b, Entry, EntryView, ParsedT2b, TableView, ValueData, ValueDataView,
};
use crate::text::{is_blank, parse_quoted_decimal, parse_quoted_integer, trim_quotes};
use crate::writer::{write_le, write_value};
use vstd::prelude::*;
use vstd::string::StringExecFns;

verus! {

/// The index of the size among the values of a row of the patched table.
pub const PATCHED_SIZE_INDEX: usize = 2;

/// The index of the size among the values of a row of the original table.
/// A row with fewer values holds it last.
pub const ORIGINAL_SIZE_INDEX: usize = 4;

/// The name of the rows that describe a file.
pub open spec fn item_name() -> Seq<char> {
    "CPK_ITEM"@
}

/// The two parts of the path of a row: its first value, which must be a
/// string, and its second, taken as empty where it is no string.
pub open spec fn path_key_of(entry: EntryView) -> Option<(Seq<char>, Seq<char>)> {
    if entry.values.len() < 2 {
        None
    } else {
        match entry.values[0].data {
            ValueDataView::Str(Some(prefix)) => Some(
                (
                    prefix,
                    match entry.values[1].data {
                        ValueDataView::Str(Some(suffix)) => suffix,
                        _ => Seq::empty(),
                    },
                ),
            ),
            _ => None,
        }
    }
}

/// The path of a row: both parts of its key, joined.
pub open spec fn full_path(key: (Seq<char>, Seq<char>)) -> Seq<char> {
    key.0 + key.1
}

/// What an optional pair of strings holds.
pub open spec fn key_view(key: Option<(String, String)>) -> Option<(Seq<char>, Seq<char>)> {
    match key {
        Some((prefix, suffix)) => Some((prefix@, suffix@)),
        None => None,
    }
}

/// The two parts of the path of a row, or nothing for a row without a path.
pub fn path_key(entry: &Entry) -> (r: Option<(String, String)>)
    ensures
        key_view(r) == path_key_of(entry@),
{
    if entry.values.len() < 2 {
        return None;
    }
    let prefix = match &entry.values[0].data {
        ValueData::Str(Some(s)) => s.clone(),
        _ => {
            return None;
        },
    };
    let suffix = match &entry.values[1].data {
        ValueData::Str(Some(s)) => s.clone(),
        _ => String::new(),
    };
    Some((prefix, suffix))
}

/// One size of the patched table: the path it belongs to, the size, and the
/// value width of the table that gave it.
#[derive(Debug, Clone, PartialEq, Eq)]
pub struct SizeRecord {
    pub path: String,
    pub size: i64,
    pub width: ValueLength,
}

/// The sizes that a patched table gives, by path. Of two sizes for one path
/// the later one counts.
#[derive(Debug, Clone, PartialEq, Eq)]
pub struct SizeMap {
    records: Vec<SizeRecord>,
}

/// The map that the first `count` records make, each overwriting what stood
/// under its path.
pub open spec fn records_map(records: Seq<SizeRecord>, count: nat) -> Map<
    Seq<char>,
    (i64, ValueLength),
>
    decreases count,
{
    if count == 0 {
        Map::empty()
    } else {
        records_map(records, (count - 1) as nat).insert(
            records[count - 1].path@,
            (records[count - 1].size, records[count - 1].width),
        )
    }
}

/// A path that no record from `from` on holds is mapped by the records in
/// front of `from` alone.
proof fn lemma_records_map_tail(records: Seq<SizeRecord>, from: nat, count: nat, path: Seq<char>)
    requires
        from <= count <= records.len(),
        forall|i: int| from <= i < count ==> (#[trigger] records[i]).path@ != path,
    ensures
        records_map(records, count).contains_key(path) == records_map(records, from).contains_key(
            path,
        ),
        records_map(records, count).contains_key(path) ==> records_map(records, count)[path]
            == records_map(records, from)[path],
    decreases count,
{
    if from < count {
        lemma_records_map_tail(records, from, (count - 1) as nat, path);
        assert(records[count - 1].path@ != path);
    }
}

impl View for SizeMap {
    type V = Map<Seq<char>, (i64, ValueLength)>;

    closed spec fn view(&self) -> Map<Seq<char>, (i64, ValueLength)> {
        records_map(self.records@, self.records@.len())
    }
}

impl SizeMap {
    /// A map without sizes.
    pub fn new() -> (r: SizeMap)
        ensures
            r@ == Map::<Seq<char>, (i64, ValueLength)>::empty(),
    {
        SizeMap { records: Vec::new() }
    }

    /// Gives `path` the size `size`, whatever it had before.
    pub fn insert(&mut self, path: String, size: i64, width: ValueLength)
        ensures
            final(self)@ == old(self)@.insert(path@, (size, width)),
    {
        let ghost before = self.records@;
        self.records.push(SizeRecord { path, size, width });
        proof {
            lemma_records_map_frame(before, self.records@, before.len());
        }
    }

    /// The size of `path` and the width of the table that gave it, if the
    /// map holds one.
    pub fn get(&self, path: &String) -> (r: Option<(i64, ValueLength)>)
        ensures
            r == if self@.contains_key(path@) {
                Some(self@[path@])
            } else {
                None
            },
    {
        let mut i = self.records.len();
        while i > 0
            invariant
                i <= self.records@.len(),
                forall|j: int|
                    i <= j < self.records@.len() ==> (#[trigger] self.records@[j]).path@ != path@,
            decreases i,
        {
            i -= 1;
            if self.records[i].path == *path {
                proof {
                    lemma_records_map_tail(
                        self.records@,
                        (i + 1) as nat,
                        self.records@.len(),
                        path@,
                    );
                }
                return Some((self.records[i].size, self.records[i].width));
            }
        }
        proof {
            lemma_records_map_tail(self.records@, 0, self.records@.len(), path@);
        }
        None
    }

    /// Whether the map holds no size.
    pub fn is_empty(&self) -> (r: bool)
        ensures
            r == (self@ == Map::<Seq<char>, (i64, ValueLength)>::empty()),
    {
        let n = self.records.len();
        proof {
            if n > 0 {
                assert(self@.contains_key(self.records@[n - 1].path@));
            } else {
                assert(self@ =~= Map::<Seq<char>, (i64, ValueLength)>::empty());
            }
        }
        n == 0
    }
}

/// The map of the first records does not depend on the records behind them.
proof fn lemma_records_map_frame(a: Seq<SizeRecord>, b: Seq<SizeRecord>, count: nat)
    requires
        count <= a.len(),
        count <= b.len(),
        forall|i: int| 0 <= i < count ==> a[i] == b[i],
    ensures
        records_map(a, count) == records_map(b, count),
    decreases count,
{
    if count > 0 {
        lemma_records_map_frame(a, b, (count - 1) as nat);
    }
}

/// The size that a value of the patched table gives: an integer as it is, a
/// string by the number it spells out; none for any other value.
pub open spec fn size_of_value(data: ValueDataView) -> Option<i64> {
    match data {
        ValueDataView::Int(n) => Some(n),
        ValueDataView::Str(Some(s)) => parse_quoted_decimal(s),
        _ => None,
    }
}

/// What a row of the patched table says about sizes.
pub ghost enum RowSize {
    /// Nothing: the row describes no file, has no path, is a variant of a
    /// file, or holds no number where its size should stand.
    Nothing,
    /// The row describes the file with this path and has no size column.
    Missing(Seq<char>),
    /// The file with this path has this size.
    Size(Seq<char>, i64),
}

/// What a row of the patched table says about sizes.
///
/// A row counts where it is named `CPK_ITEM`, has a path, and the second
/// part of its path holds nothing but quotes.
pub open spec fn row_size(entry: EntryView) -> RowSize {
    if entry.name != item_name() {
        RowSize::Nothing
    } else {
        match path_key_of(entry) {
            None => RowSize::Nothing,
            Some(key) => if trim_quotes(key.1).len() != 0 {
                RowSize::Nothing
            } else if entry.values.len() <= PATCHED_SIZE_INDEX {
                RowSize::Missing(full_path(key))
            } else {
                match size_of_value(entry.values[PATCHED_SIZE_INDEX as int].data) {
                    Some(n) => RowSize::Size(full_path(key), n),
                    None => RowSize::Nothing,
                }
            },
        }
    }
}

/// The sizes that the first `count` rows give, or the error of the first
/// row among them that lacks its size column.
pub open spec fn sizes_of_rows(entries: Seq<EntryView>, width: ValueLength, count: nat) -> Result<
    Map<Seq<char>, (i64, ValueLength)>,
    SyncErrorView,
>
    decreases count,
{
    if count == 0 {
        Ok(Map::empty())
    } else {
        match sizes_of_rows(entries, width, (count - 1) as nat) {
            Err(e) => Err(e),
            Ok(sizes) => match row_size(entries[count - 1]) {
                RowSize::Nothing => Ok(sizes),
                RowSize::Missing(path) => Err(SyncErrorView::MissingSizeField(path)),
                RowSize::Size(path, n) => Ok(sizes.insert(path, (n, width))),
            },
        }
    }
}

/// The sizes that a patched table gives, or why it gives none.
pub open spec fn sizes_of_table(table: TableView) -> Result<
    Map<Seq<char>, (i64, ValueLength)>,
    SyncErrorView,
> {
    match sizes_of_rows(table.entries, table.value_length, table.entries.len()) {
        Err(e) => Err(e),
        Ok(sizes) => if sizes == Map::<Seq<char>, (i64, ValueLength)>::empty() {
            Err(SyncErrorView::NoPatchedEntries)
        } else {
            Ok(sizes)
        },
    }
}

/// An error among the first rows is the error of every longer run.
pub proof fn lemma_sizes_error_stays(
    entries: Seq<EntryView>,
    width: ValueLength,
    i: nat,
    j: nat,
)
    requires
        i <= j,
        sizes_of_rows(entries, width, i) is Err,
    ensures
        sizes_of_rows(entries, width, j) == sizes_of_rows(entries, width, i),
    decreases j,
{
    if i < j {
        lemma_sizes_error_stays(entries, width, i, (j - 1) as nat);
    }
}

/// What a result of `build_size_map` holds.
pub open spec fn sizes_view(r: Result<SizeMap, SyncError>) -> Result<
    Map<Seq<char>, (i64, ValueLength)>,
    SyncErrorView,
> {
    match r {
        Ok(sizes) => Ok(sizes@),
        Err(e) => Err(e@),
    }
}

/// Collects the sizes that the patched table gives.
///
/// A row named `CPK_ITEM` with a path whose second part is empty but for
/// quotes gives the size at index 2, an integer or a string that spells one
/// out. Such a row with fewer than three values is an error, and so is a
/// table that gives no size at all.
pub fn build_size_map(patched: &ParsedT2b) -> (r: Result<SizeMap, SyncError>)
    ensures
        sizes_view(r) == sizes_of_table(patched@),
{
    let item = "CPK_ITEM".to_owned();
    let mut sizes = SizeMap::new();
    let mut i: usize = 0;
    while i < patched.entries.len()
        invariant
            i <= patched.entries@.len(),
            item@ == item_name(),
            sizes_of_rows(patched@.entries, patched.value_length, i as nat) == Ok::<
                Map<Seq<char>, (i64, ValueLength)>,
                SyncErrorView,
            >(sizes@),
        decreases patched.entries@.len() - i,
    {
        let entry = &patched.entries[i];
        assert(patched@.entries[i as int] == entry@);
        i += 1;
        if entry.name != item {
            continue ;
        }
        let (prefix, suffix) = match path_key(entry) {
            Some(key) => key,
            None => {
                continue ;
            },
        };
        if !is_blank(suffix.as_str()) {
            continue ;
        }
        let path = prefix.concat(suffix.as_str());
        if entry.values.len() <= PATCHED_SIZE_INDEX {
            proof {
                lemma_sizes_error_stays(
                    patched@.entries,
                    patched.value_length,
                    i as nat,
                    patched@.entries.len(),
                );
            }
            return Err(SyncError::MissingSizeField(path));
        }
        let size = match &entry.values[PATCHED_SIZE_INDEX].data {
            ValueData::Int(n) => Some(*n),
            ValueData::Str(Some(s)) => parse_quoted_integer(s.as_str()),
            _ => None,
        };
        if let Some(n) = size {
            sizes.insert(path, n, patched.value_length);
        }
    }
    if sizes.is_empty() {
        return Err(SyncError::NoPatchedEntries);
    }
    Ok(sizes)
}

/// The value of a row of the original table that holds its size: the one at
/// index 4, or the last one of a shorter row.
pub open spec fn target_index(entry: EntryView) -> Option<int> {
    if entry.values.len() > ORIGINAL_SIZE_INDEX {
        Some(ORIGINAL_SIZE_INDEX as int)
    } else if entry.values.len() > 0 {
        Some(entry.values.len() - 1)
    } else {
        None
    }
}

/// Whether a row of the original table has a size among `sizes`: it is named
/// `CPK_ITEM`, has a path, and `sizes` holds that path.
pub open spec fn row_matches(entry: EntryView, sizes: Map<Seq<char>, (i64, ValueLength)>) -> bool {
    &&& entry.name == item_name()
    &&& path_key_of(entry) is Some
    &&& sizes.contains_key(full_path(path_key_of(entry).unwrap()))
}

/// The size that `sizes` holds for a row that has one.
pub open spec fn row_new_size(entry: EntryView, sizes: Map<Seq<char>, (i64, ValueLength)>) -> i64 {
    sizes[full_path(path_key_of(entry).unwrap())].0
}

/// What is to be written for a row of the original table: the offset of its
/// size and the new size. Nothing where the row has no size among `sizes`,
/// holds no integer where its size should stand, or where the write would not
/// stay inside a buffer of `len` bytes.
pub open spec fn row_patch(
    entry: EntryView,
    sizes: Map<Seq<char>, (i64, ValueLength)>,
    width: ValueLength,
    len: nat,
) -> Option<(int, i64)> {
    if !row_matches(entry, sizes) {
        None
    } else {
        match target_index(entry) {
            None => None,
            Some(k) => if entry.values[k].typ == ValueType::Integer && entry.values[k].offset
                + width.width() <= len {
                Some((entry.values[k].offset as int, row_new_size(entry, sizes)))
            } else {
                None
            },
        }
    }
}

/// What is to be written for the `i`-th row of the table.
pub open spec fn entry_patch(
    table: TableView,
    sizes: Map<Seq<char>, (i64, ValueLength)>,
    i: int,
) -> Option<(int, i64)> {
    row_patch(table.entries[i], sizes, table.value_length, table.bytes.len())
}

/// The bytes of the table after the sizes of its first `count` rows are
/// written, and the number of rows that were written to.
pub open spec fn patched_prefix(
    table: TableView,
    sizes: Map<Seq<char>, (i64, ValueLength)>,
    count: nat,
) -> (Seq<u8>, nat)
    decreases count,
{
    if count == 0 {
        (table.bytes, 0)
    } else {
        let before = patched_prefix(table, sizes, (count - 1) as nat);
        match entry_patch(table, sizes, count - 1) {
            None => before,
            Some(patch) => (
                write_le(before.0, patch.0, patch.1 as int, table.value_length.width()),
                before.1 + 1,
            ),
        }
    }
}

/// The bytes of the table with all sizes written, and the number of rows
/// that were written to.
pub open spec fn patched(table: TableView, sizes: Map<Seq<char>, (i64, ValueLength)>) -> (
    Seq<u8>,
    nat,
) {
    patched_prefix(table, sizes, table.entries.len())
}

/// No write changes the length of the bytes, and no more rows are written to
/// than there are.
pub proof fn lemma_patched_prefix_len(
    table: TableView,
    sizes: Map<Seq<char>, (i64, ValueLength)>,
    count: nat,
)
    ensures
        patched_prefix(table, sizes, count).0.len() == table.bytes.len(),
        patched_prefix(table, sizes, count).1 <= count,
    decreases count,
{
    if count > 0 {
        lemma_patched_prefix_len(table, sizes, (count - 1) as nat);
    }
}

/// Writes the sizes into a copy of the original table's bytes.
///
/// For each row named `CPK_ITEM` whose path has a size in `sizes`, the size
/// stands at index 4, or last in a shorter row. Where that value is an
/// integer, the new size is written over it, narrowed to the original
/// table's own value width. Every other byte stays as it is. The result is
/// the new bytes and the number of rows that were written to.
pub fn apply_sizes(original: &ParsedT2b, sizes: &SizeMap) -> (r: (Vec<u8>, u32))
    requires
        original@.entries.len() <= u32::MAX,
    ensures
        r.0@ == patched(original@, sizes@).0,
        r.1 == patched(original@, sizes@).1,
        r.0@.len() == original.bytes@.len(),
        r.1 <= original.entries@.len(),
{
    let item = "CPK_ITEM".to_owned();
    let mut out = original.bytes.clone();
    let mut updated: u32 = 0;
    let width = original.value_length.byte_len();
    let mut i: usize = 0;
    assert(out@ =~= original.bytes@);
    while i < original.entries.len()
        invariant
            i <= original.entries@.len(),
            original@.entries.len() <= u32::MAX,
            item@ == item_name(),
            width == original.value_length.width(),
            out@.len() == original.bytes@.len(),
            out@ == patched_prefix(original@, sizes@, i as nat).0,
            updated == patched_prefix(original@, sizes@, i as nat).1,
            updated <= i,
        decreases original.entries@.len() - i,
    {
        let entry = &original.entries[i];
        assert(original@.entries[i as int] == entry@);
        proof {
            lemma_patched_prefix_len(original@, sizes@, (i + 1) as nat);
        }
        i += 1;
        if entry.name != item {
            continue ;
        }
        let (prefix, suffix) = match path_key(entry) {
            Some(key) => key,
            None => {
                continue ;
            },
        };
        let path = prefix.concat(suffix.as_str());
        let size = match sizes.get(&path) {
            Some((size, _)) => size,
            None => {
                continue ;
            },
        };
        let values = entry.values.len();
        let target = if values > ORIGINAL_SIZE_INDEX {
            &entry.values[ORIGINAL_SIZE_INDEX]
        } else {
            &entry.values[values - 1]
        };
        if target.typ != ValueType::Integer {
            continue ;
        }
        let offset = target.offset;
        if offset > out.len() || out.len() - offset < width {
            continue ;
        }
        write_value(&mut out, offset, size, original.value_length);
        updated += 1;
    }
    (out, updated)
}

/// What a result of `synchronize` holds.
pub open spec fn sync_view(r: Result<(Vec<u8>, u32), SyncError>) -> Result<
    (Seq<u8>, nat),
    SyncErrorView,
> {
    match r {
        Ok((bytes, count)) => Ok((bytes@, count as nat)),
        Err(e) => Err(e@),
    }
}

/// The synchronised bytes of the original table and the number of rows that
/// were written to, or why the tables cannot be synchronised.
pub open spec fn synchronized(original: Seq<u8>, patched_bytes: Seq<u8>) -> Result<
    (Seq<u8>, nat),
    SyncErrorView,
> {
    match decode_table(original) {
        Err(e) => Err(SyncErrorView::Original(e)),
        Ok(table) => match decode_table(patched_bytes) {
            Err(e) => Err(SyncErrorView::Patched(e)),
            Ok(reference) => match sizes_of_table(reference) {
                Err(e) => Err(e),
                Ok(sizes) => Ok(patched(table, sizes)),
            },
        },
    }
}

/// Brings the sizes of the patched table into the original table.
///
/// Both buffers are decoded, the original one first. The result is a copy of
/// the original bytes in which only the sizes of the rows that the patched
/// table knows are written anew, and the number of those rows. On any error
/// no bytes are given back.
pub fn synchronize(original_bytes: Vec<u8>, patched_bytes: Vec<u8>) -> (r: Result<
    (Vec<u8>, u32),
    SyncError,
>)
    ensures
        sync_view(r) == synchronized(original_bytes@, patched_bytes@),
{
    let original = match parse_t2b(original_bytes) {
        Ok(table) => table,
        Err(e) => {
            return Err(SyncError::Original(e));
        },
    };
    let reference = match parse_t2b(patched_bytes) {
        Ok(table) => table,
        Err(e) => {
            return Err(SyncError::Patched(e));
        },
    };
    let sizes = match build_size_map(&reference) {
        Ok(sizes) => sizes,
        Err(e) => {
            return Err(e);
        },
    };
    proof {
        crate::table::lemma_table_entry_count(original.bytes@);
    }
    Ok(apply_sizes(&original, &sizes))
}

} // verus!
