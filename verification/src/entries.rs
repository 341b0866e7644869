//! The bit-packed entry stream: raw records, trial decoding under a value
//! width, and detection of the width a table was written with.
//!
//! An entry is a CRC32 of its name, a count byte, two-bit type tags packed
//! four to a byte, padding to a multiple of four, and one raw value per tag.

use crate::reader::{
    align_up, le_signed, le_unsigned, lemma_le_unsigned_bound, lemma_radix_values,
    lemma_round_up_bounds, read_i32, read_i64, read_u32, round_up,
};
use vstd::arithmetic::power2::{lemma2_to64, pow2};
use vstd::prelude::*;

verus! {

/// The declared type of a value.
#[derive(Debug, Clone, Copy, PartialEq, Eq, Structural)]
pub enum ValueType {
    String,
    Integer,
    FloatingPoint,
}

/// The number of bytes that every raw value of a table takes.
#[derive(Debug, Clone, Copy, PartialEq, Eq, Structural)]
pub enum ValueLength {
    Int,
    Long,
}

impl ValueLength {
    /// The width in bytes.
    pub open spec fn width(self) -> nat {
        match self {
            ValueLength::Int => 4,
            ValueLength::Long => 8,
        }
    }

    /// The width in bytes.
    pub fn byte_len(self) -> (n: usize)
        ensures
            n == self.width(),
    {
        match self {
            ValueLength::Int => 4,
            ValueLength::Long => 8,
        }
    }
}

/// An entry as it stands in the stream, before names and values are
/// interpreted.
#[derive(Debug)]
pub struct RawEntry {
    pub crc32: u32,
    pub types: Vec<ValueType>,
    pub values: Vec<i64>,
    pub value_offsets: Vec<usize>,
}

/// What a `RawEntry` holds.
pub ghost struct RawEntryView {
    pub crc32: u32,
    pub types: Seq<ValueType>,
    pub values: Seq<i64>,
    pub value_offsets: Seq<usize>,
}

impl View for RawEntry {
    type V = RawEntryView;

    open spec fn view(&self) -> RawEntryView {
        RawEntryView {
            crc32: self.crc32,
            types: self.types@,
            values: self.values@,
            value_offsets: self.value_offsets@,
        }
    }
}

/// What a sequence of raw entries holds.
pub open spec fn raw_views(entries: Seq<RawEntry>) -> Seq<RawEntryView> {
    entries.map_values(|e: RawEntry| e@)
}

/// The position of the first entry: right behind the table header.
pub const ENTRIES_START: usize = 0x10;

/// The `k`-th two-bit tag of the tags that start at `tags_at`, lowest pair of
/// each byte first.
pub open spec fn tag_at(bytes: Seq<u8>, tags_at: int, k: int) -> u8 {
    (bytes[tags_at + k / 4] >> ((2 * (k % 4)) as u8)) & 3
}

/// The `k`-th tag of the entry at `pos`.
pub open spec fn entry_tag(bytes: Seq<u8>, pos: int, k: int) -> u8 {
    tag_at(bytes, pos + 5, k)
}

/// The type that a tag declares; tag 3 declares none.
pub open spec fn type_of_tag(tag: u8) -> Option<ValueType> {
    if tag == 0 {
        Some(ValueType::String)
    } else if tag == 1 {
        Some(ValueType::Integer)
    } else if tag == 2 {
        Some(ValueType::FloatingPoint)
    } else {
        None
    }
}

/// The number of bytes that `n` tags take.
pub open spec fn tag_bytes(n: int) -> int {
    (n + 3) / 4
}

/// The number of values of the entry at `pos`.
pub open spec fn value_count(bytes: Seq<u8>, pos: int) -> nat {
    bytes[pos + 4] as nat
}

/// Where the values of the entry at `pos` start.
pub open spec fn values_start(bytes: Seq<u8>, pos: int) -> int {
    round_up(pos + 5 + tag_bytes(value_count(bytes, pos) as int), 4)
}

/// Where the `k`-th value of the entry at `pos` stands.
pub open spec fn value_slot(bytes: Seq<u8>, pos: int, width: nat, k: int) -> int {
    values_start(bytes, pos) + k * width
}

/// Where the entry at `pos` ends and the next one starts.
pub open spec fn entry_end(bytes: Seq<u8>, pos: int, width: nat) -> int {
    value_slot(bytes, pos, width, value_count(bytes, pos) as int)
}

/// The end of what the entry stream may use: it stays inside the buffer and
/// in front of the string data at `limit`.
pub open spec fn stream_bound(bytes: Seq<u8>, limit: int) -> int {
    if bytes.len() <= limit {
        bytes.len() as int
    } else {
        limit
    }
}

/// Whether an entry with values of `width` bytes can be read at `pos`: its
/// head, its tags and its values lie inside the stream, and no tag is 3.
pub open spec fn entry_fits(bytes: Seq<u8>, limit: int, pos: int, width: nat) -> bool {
    let bound = stream_bound(bytes, limit);
    let n = value_count(bytes, pos) as int;
    &&& 0 <= pos
    &&& pos + 5 + tag_bytes(n) <= bound
    &&& forall|k: int| 0 <= k < n ==> #[trigger] entry_tag(bytes, pos, k) != 3
    &&& n > 0 ==> entry_end(bytes, pos, width) <= bound
}

/// The entry that stands at `pos`, where one fits.
pub open spec fn entry_at(bytes: Seq<u8>, pos: int, width: nat) -> RawEntryView {
    let n = value_count(bytes, pos);
    RawEntryView {
        crc32: le_unsigned(bytes, pos, 4) as u32,
        types: Seq::new(n, |k: int| type_of_tag(entry_tag(bytes, pos, k)).unwrap()),
        values: Seq::new(
            n,
            |k: int| le_signed(bytes, value_slot(bytes, pos, width, k), width) as i64,
        ),
        value_offsets: Seq::new(n, |k: int| value_slot(bytes, pos, width, k) as usize),
    }
}

/// The first `count` entries of the stream and the position behind them, or
/// nothing where one of them does not fit.
pub open spec fn stream_prefix(bytes: Seq<u8>, limit: int, width: nat, count: nat) -> Option<
    (Seq<RawEntryView>, int),
>
    decreases count,
{
    if count == 0 {
        Some((Seq::empty(), ENTRIES_START as int))
    } else {
        match stream_prefix(bytes, limit, width, (count - 1) as nat) {
            None => None,
            Some((entries, pos)) => if entry_fits(bytes, limit, pos, width) {
                Some((entries.push(entry_at(bytes, pos, width)), entry_end(bytes, pos, width)))
            } else {
                None
            },
        }
    }
}

/// Whether a stream that ends at `end` closes properly in front of the string
/// data at `limit`: it does not run into it, and less than 16 bytes of slack
/// lie between them.
pub open spec fn stream_closes(end: int, limit: int) -> bool {
    end <= limit && limit - end < 16
}

/// The `count` entries of a table whose string data starts at `limit`, read
/// with values of `width` bytes, and the position behind them; nothing where
/// the stream is not valid under that width.
pub open spec fn decode_entries(bytes: Seq<u8>, count: nat, limit: int, width: nat) -> Option<
    (Seq<RawEntryView>, int),
> {
    match stream_prefix(bytes, limit, width, count) {
        None => None,
        Some((entries, end)) => if stream_closes(end, limit) {
            Some((entries, end))
        } else {
            None
        },
    }
}

/// The value width of a table: 4 where the stream is valid under 4, else 8
/// where it is valid under 8, else none.
pub open spec fn detect_width(bytes: Seq<u8>, count: nat, limit: int) -> Option<ValueLength> {
    if decode_entries(bytes, count, limit, 4) is Some {
        Some(ValueLength::Int)
    } else if decode_entries(bytes, count, limit, 8) is Some {
        Some(ValueLength::Long)
    } else {
        None
    }
}

/// The values of an entry stand one behind the other.
pub proof fn lemma_slot_step(bytes: Seq<u8>, pos: int, width: nat, k: int)
    ensures
        value_slot(bytes, pos, width, k + 1) == value_slot(bytes, pos, width, k) + width,
        value_slot(bytes, pos, width, 0) == values_start(bytes, pos),
{
    assert((k + 1) * width == k * width + width) by (nonlinear_arith);
}

/// Value slots are ordered by their index.
pub proof fn lemma_slot_order(bytes: Seq<u8>, pos: int, width: nat, j: int, k: int)
    requires
        j < k,
    ensures
        value_slot(bytes, pos, width, j) + width <= value_slot(bytes, pos, width, k),
{
    assert(j * width + width <= k * width) by (nonlinear_arith)
        requires
            j < k,
    ;
}

/// An entry that fits ends behind its head, and its values lie between the
/// head and the end.
pub proof fn lemma_entry_layout(bytes: Seq<u8>, limit: int, pos: int, width: nat)
    requires
        entry_fits(bytes, limit, pos, width),
    ensures
        pos + 5 <= values_start(bytes, pos) <= entry_end(bytes, pos, width),
        values_start(bytes, pos) % 4 == 0,
        values_start(bytes, pos) < pos + 5 + tag_bytes(value_count(bytes, pos) as int) + 4,
{
    let n = value_count(bytes, pos) as int;
    lemma_round_up_bounds(pos + 5 + tag_bytes(n), 4);
    assert(0 <= n * width) by (nonlinear_arith)
        requires
            0 <= n,
    ;
}

/// The position behind the first `count` entries, where they are valid.
pub open spec fn prefix_end(bytes: Seq<u8>, limit: int, width: nat, count: nat) -> int {
    stream_prefix(bytes, limit, width, count).unwrap().1
}

/// The first `count` entries, where they are valid.
pub open spec fn prefix_entries(bytes: Seq<u8>, limit: int, width: nat, count: nat) -> Seq<
    RawEntryView,
> {
    stream_prefix(bytes, limit, width, count).unwrap().0
}

/// A prefix of a valid prefix is valid, holds its first entries, and ends no
/// later.
pub proof fn lemma_prefix_monotone(bytes: Seq<u8>, limit: int, width: nat, i: nat, j: nat)
    requires
        i <= j,
        stream_prefix(bytes, limit, width, j) is Some,
    ensures
        stream_prefix(bytes, limit, width, i) is Some,
        ENTRIES_START <= prefix_end(bytes, limit, width, i) <= prefix_end(bytes, limit, width, j),
        prefix_entries(bytes, limit, width, i) =~= prefix_entries(bytes, limit, width, j).take(
            i as int,
        ),
        prefix_entries(bytes, limit, width, j).len() == j,
    decreases j,
{
    if j == 0 {
    } else if i == j {
        lemma_prefix_monotone(bytes, limit, width, (j - 1) as nat, (j - 1) as nat);
        let pos = prefix_end(bytes, limit, width, (j - 1) as nat);
        lemma_entry_layout(bytes, limit, pos, width);
    } else {
        lemma_prefix_monotone(bytes, limit, width, i, (j - 1) as nat);
        let pos = prefix_end(bytes, limit, width, (j - 1) as nat);
        lemma_entry_layout(bytes, limit, pos, width);
    }
}

/// Where the entry behind a valid prefix does not fit, or ends behind the
/// start of the string data, no longer stream is valid.
pub proof fn lemma_stream_doomed(bytes: Seq<u8>, limit: int, width: nat, i: nat, count: nat)
    requires
        i < count,
        stream_prefix(bytes, limit, width, i) is Some,
        ({
            let pos = prefix_end(bytes, limit, width, i);
            !entry_fits(bytes, limit, pos, width) || entry_end(bytes, pos, width) > limit
        }),
    ensures
        decode_entries(bytes, count, limit, width) is None,
{
    if stream_prefix(bytes, limit, width, count) is Some {
        lemma_prefix_monotone(bytes, limit, width, i + 1, count);
    }
}

/// Every entry of a valid prefix holds as many values and offsets as types.
pub proof fn lemma_prefix_entries_shape(bytes: Seq<u8>, limit: int, width: nat, count: nat)
    requires
        stream_prefix(bytes, limit, width, count) is Some,
    ensures
        prefix_entries(bytes, limit, width, count).len() == count,
        forall|j: int|
            0 <= j < count ==> {
                let e = #[trigger] prefix_entries(bytes, limit, width, count)[j];
                e.types.len() == e.values.len() && e.types.len() == e.value_offsets.len()
            },
    decreases count,
{
    if count > 0 {
        lemma_prefix_entries_shape(bytes, limit, width, (count - 1) as nat);
    }
}

/// Every entry of a valid stream holds as many values and offsets as types.
pub proof fn lemma_decoded_entries_shape(bytes: Seq<u8>, count: nat, limit: int, width: nat)
    requires
        decode_entries(bytes, count, limit, width) is Some,
    ensures
        decode_entries(bytes, count, limit, width).unwrap().0.len() == count,
        forall|j: int|
            0 <= j < count ==> {
                let e = #[trigger] decode_entries(bytes, count, limit, width).unwrap().0[j];
                e.types.len() == e.values.len() && e.types.len() == e.value_offsets.len()
            },
{
    lemma_prefix_entries_shape(bytes, limit, width, count);
}

/// Reads the entry at `pos`. Nothing comes back where no entry fits there,
/// nor where its end cannot be a position in front of the string data.
fn parse_entry(bytes: &[u8], string_offset: usize, pos: usize, value_length: ValueLength) -> (r:
    Option<(RawEntry, usize)>)
    ensures
        match r {
            Some((entry, next)) => {
                &&& entry_fits(bytes@, string_offset as int, pos as int, value_length.width())
                &&& entry@ == entry_at(bytes@, pos as int, value_length.width())
                &&& next == entry_end(bytes@, pos as int, value_length.width())
            },
            None => {
                ||| !entry_fits(bytes@, string_offset as int, pos as int, value_length.width())
                ||| entry_end(bytes@, pos as int, value_length.width()) > string_offset
            },
        },
{
    let width = value_length.byte_len();
    let bound = if bytes.len() <= string_offset {
        bytes.len()
    } else {
        string_offset
    };
    if pos > bound || bound - pos < 5 {
        return None;
    }
    let crc32 = match read_u32(bytes, pos) {
        Some(v) => v,
        None => {
            return None;
        },
    };
    let count: u8 = bytes[pos + 4];
    let tags_at = pos + 5;
    let tag_len: usize = (count as usize + 3) / 4;
    if bound - tags_at < tag_len {
        return None;
    }
    let mut types: Vec<ValueType> = Vec::new();
    let mut k: u8 = 0;
    while k < count
        invariant
            k <= count,
            tags_at + tag_len <= bytes.len(),
            tag_len == tag_bytes(count as int),
            tags_at == pos + 5,
            count == value_count(bytes@, pos as int),
            types@ =~= Seq::new(
                k as nat,
                |j: int| type_of_tag(entry_tag(bytes@, pos as int, j)).unwrap(),
            ),
            forall|j: int| 0 <= j < k ==> #[trigger] entry_tag(bytes@, pos as int, j) != 3,
        decreases count - k,
    {
        let chunk = bytes[tags_at + (k / 4) as usize];
        let tag = (chunk >> (2 * (k % 4))) & 3;
        assert(tag == entry_tag(bytes@, pos as int, k as int));
        assert(tag <= 3) by (bit_vector)
            requires
                tag == (chunk >> (2 * (k % 4))) & 3,
        ;
        if tag == 3 {
            return None;
        }
        types.push(
            if tag == 0 {
                ValueType::String
            } else if tag == 1 {
                ValueType::Integer
            } else {
                ValueType::FloatingPoint
            },
        );
        k += 1;
    }
    let tags_end = tags_at + tag_len;
    proof {
        lemma_round_up_bounds(tags_end as int, 4);
    }
    if tags_end > usize::MAX - 3 {
        // the values would start behind every position
        return None;
    }
    proof {
        lemma2_to64();
        assert(4 == pow2(2));
    }
    let start = align_up(tags_end, 4);
    assert(count * width <= 2040) by (nonlinear_arith)
        requires
            count <= 255,
            width <= 8,
    ;
    let total: usize = count as usize * width;
    if count > 0 && (start > bound || bound - start < total) {
        return None;
    }
    let mut values: Vec<i64> = Vec::new();
    let mut value_offsets: Vec<usize> = Vec::new();
    let mut at = start;
    let mut k: u8 = 0;
    while k < count
        invariant
            k <= count,
            width == value_length.width(),
            start == values_start(bytes@, pos as int),
            at == value_slot(bytes@, pos as int, width as nat, k as int),
            count == value_count(bytes@, pos as int),
            count > 0 ==> start + total <= bytes.len(),
            total == count * width,
            values@ =~= Seq::new(
                k as nat,
                |j: int|
                    le_signed(bytes@, value_slot(bytes@, pos as int, width as nat, j), width as nat)
                        as i64,
            ),
            value_offsets@ =~= Seq::new(
                k as nat,
                |j: int| value_slot(bytes@, pos as int, width as nat, j) as usize,
            ),
        decreases count - k,
    {
        proof {
            lemma_slot_step(bytes@, pos as int, width as nat, k as int);
            lemma_slot_order(bytes@, pos as int, width as nat, k as int, count as int);
            lemma_radix_values();
            lemma_le_unsigned_bound(bytes@, at as int, width as nat);
        }
        let value: i64 = match value_length {
            ValueLength::Int => match read_i32(bytes, at) {
                Some(v) => v as i64,
                None => {
                    return None;
                },
            },
            ValueLength::Long => match read_i64(bytes, at) {
                Some(v) => v,
                None => {
                    return None;
                },
            },
        };
        value_offsets.push(at);
        values.push(value);
        at += width;
        k += 1;
    }
    Some((RawEntry { crc32, types, values, value_offsets }, at))
}

/// Decodes the entry stream under a candidate value width.
///
/// The stream starts behind the 16-byte header and holds `entry_count`
/// entries. It is valid where every entry fits in front of `string_offset`
/// and the stream ends at most 15 bytes in front of it.
pub fn try_parse_entries(
    bytes: &[u8],
    entry_count: usize,
    string_offset: usize,
    value_length: ValueLength,
) -> (r: Option<(Vec<RawEntry>, usize)>)
    ensures
        match r {
            Some((entries, end)) => decode_entries(
                bytes@,
                entry_count as nat,
                string_offset as int,
                value_length.width(),
            ) == Some((raw_views(entries@), end as int)),
            None => decode_entries(
                bytes@,
                entry_count as nat,
                string_offset as int,
                value_length.width(),
            ) is None,
        },
{
    let mut pos: usize = ENTRIES_START;
    let mut entries: Vec<RawEntry> = Vec::new();
    let mut i: usize = 0;
    assert(raw_views(entries@) =~= Seq::empty());
    while i < entry_count
        invariant
            i <= entry_count,
            stream_prefix(bytes@, string_offset as int, value_length.width(), i as nat) == Some(
                (raw_views(entries@), pos as int),
            ),
        decreases entry_count - i,
    {
        match parse_entry(bytes, string_offset, pos, value_length) {
            None => {
                proof {
                    lemma_stream_doomed(
                        bytes@,
                        string_offset as int,
                        value_length.width(),
                        i as nat,
                        entry_count as nat,
                    );
                }
                return None;
            },
            Some((entry, next)) => {
                assert(raw_views(entries@.push(entry)) =~= raw_views(entries@).push(entry@));
                entries.push(entry);
                pos = next;
            },
        }
        i += 1;
    }
    if pos > string_offset || string_offset - pos >= 0x10 {
        return None;
    }
    Some((entries, pos))
}

/// Decodes the entry stream of a table whose value width is known.
pub fn parse_entries(
    bytes: &[u8],
    entry_count: usize,
    string_offset: usize,
    value_length: ValueLength,
) -> (r: Option<(Vec<RawEntry>, usize)>)
    ensures
        match r {
            Some((entries, end)) => decode_entries(
                bytes@,
                entry_count as nat,
                string_offset as int,
                value_length.width(),
            ) == Some((raw_views(entries@), end as int)),
            None => decode_entries(
                bytes@,
                entry_count as nat,
                string_offset as int,
                value_length.width(),
            ) is None,
        },
{
    try_parse_entries(bytes, entry_count, string_offset, value_length)
}

/// Finds the value width of a table by trial: 4 bytes where the entry stream
/// is valid under that width, else 8 bytes where it is valid under that one.
pub fn detect_value_length(bytes: &[u8], entry_count: usize, string_offset: usize) -> (r: Option<
    ValueLength,
>)
    ensures
        r == detect_width(bytes@, entry_count as nat, string_offset as int),
{
    if try_parse_entries(bytes, entry_count, string_offset, ValueLength::Int).is_some() {
        return Some(ValueLength::Int);
    }
    if try_parse_entries(bytes, entry_count, string_offset, ValueLength::Long).is_some() {
        return Some(ValueLength::Long);
    }
    None
}

} // verus!
