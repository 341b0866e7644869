//! A whole table: header and footer, the checksum section that names the
//! entries, the interpretation of raw values, and the decoded table.

use crate::entries::{
    decode_entries, detect_value_length, detect_width, lemma_decoded_entries_shape,
    parse_entries, raw_views, RawEntry, RawEntryView, ValueLength, ValueType,
};
use crate::error::FormatError;
use crate::reader::{
    align_up, is_power_of_two, le_signed, le_unsigned, lemma_round_up_bounds, read_i16, round_up,
    u32_at,
};
use crate::text::{read_string, string_at, text_view, StringEncoding};
use std::collections::HashMap;
use vstd::arithmetic::power2::{lemma2_to64, pow2};
use vstd::pervasive::unreached;
use vstd::prelude::*;
use vstd::slice::slice_subrange;

verus! {

broadcast use vstd::std_specs::hash::group_hash_axioms;

/// The number that the footer of a table starts with.
pub const MAGIC_T2B: u32 = 0x6232_7401;

/// The length of the shortest buffer that can be a table.
pub const MIN_FILE_SIZE: usize = 0x30;

/// The length of the footer, which is the end of the buffer.
pub const FOOTER_SIZE: usize = 0x10;

/// What the header and the footer of a table say.
#[derive(Debug, Clone, Copy, PartialEq, Eq, Structural)]
pub struct Header {
    pub entry_count: u32,
    pub string_data_offset: u32,
    pub string_data_length: u32,
    pub encoding: StringEncoding,
}

/// The encoding that a selector of the footer stands for.
pub open spec fn encoding_of(selector: i16) -> Option<StringEncoding> {
    if selector == 0 {
        Some(StringEncoding::Sjis)
    } else if selector == 1 || selector == 256 || selector == 257 {
        Some(StringEncoding::Utf8)
    } else {
        None
    }
}

/// What the header and the footer of `bytes` say, or why `bytes` is no table.
pub open spec fn decode_header(bytes: Seq<u8>) -> Result<Header, FormatError> {
    if bytes.len() < MIN_FILE_SIZE {
        Err(FormatError::FileTooSmall)
    } else {
        let footer = bytes.len() - FOOTER_SIZE;
        let selector = le_signed(bytes, footer + 6, 2) as i16;
        if le_unsigned(bytes, footer, 4) != MAGIC_T2B {
            Err(FormatError::InvalidMagic)
        } else {
            match encoding_of(selector) {
                None => Err(FormatError::UnknownEncoding(selector)),
                Some(encoding) => Ok(
                    Header {
                        entry_count: le_unsigned(bytes, 0, 4) as u32,
                        string_data_offset: le_unsigned(bytes, 4, 4) as u32,
                        string_data_length: le_unsigned(bytes, 8, 4) as u32,
                        encoding,
                    },
                ),
            }
        }
    }
}

/// Reads the header and the footer of a table.
///
/// The footer is the last 16 bytes: the magic number, and at its byte 6 the
/// encoding selector. The header is the first 16 bytes: the number of
/// entries, the offset of the string data and its length.
pub fn parse_header(bytes: &[u8]) -> (r: Result<Header, FormatError>)
    ensures
        r == decode_header(bytes@),
{
    if bytes.len() < MIN_FILE_SIZE {
        return Err(FormatError::FileTooSmall);
    }
    let footer = bytes.len() - FOOTER_SIZE;
    if u32_at(bytes, footer) != MAGIC_T2B {
        return Err(FormatError::InvalidMagic);
    }
    let selector: i16 = match read_i16(bytes, footer + 6) {
        Some(v) => v,
        None => unreached(),
    };
    let encoding = if selector == 0 {
        StringEncoding::Sjis
    } else if selector == 1 || selector == 256 || selector == 257 {
        StringEncoding::Utf8
    } else {
        return Err(FormatError::UnknownEncoding(selector));
    };
    Ok(
        Header {
            entry_count: u32_at(bytes, 0),
            string_data_offset: u32_at(bytes, 4),
            string_data_length: u32_at(bytes, 8),
            encoding,
        },
    )
}

/// Where the checksum section lies and how large its parts are.
#[derive(Debug, Clone, Copy, PartialEq, Eq, Structural)]
pub struct NameSection {
    /// The position of the section in the buffer.
    pub position: usize,
    /// The number of its records.
    pub record_count: u32,
    /// Where its pool of names starts, counted from `position`.
    pub pool_offset: u32,
    /// The length of its pool of names.
    pub pool_size: u32,
}

/// Where the string data of a table ends.
pub open spec fn string_data_end(header: Header) -> int {
    header.string_data_offset + header.string_data_length
}

/// The checksum section of `bytes`, which follows the string data at the next
/// multiple of 16, or why there is none.
pub open spec fn decode_name_section(bytes: Seq<u8>, header: Header) -> Result<
    NameSection,
    FormatError,
> {
    let position = round_up(string_data_end(header), 16);
    let record_count = le_unsigned(bytes, position + 4, 4) as u32;
    let pool_offset = le_unsigned(bytes, position + 8, 4) as u32;
    let pool_size = le_unsigned(bytes, position + 12, 4) as u32;
    if string_data_end(header) > bytes.len() {
        Err(FormatError::StringDataOutOfRange)
    } else if position + 16 > bytes.len() {
        Err(FormatError::ChecksumHeaderOutOfRange)
    } else if position + 16 + 8 * record_count > bytes.len() || position + pool_offset + pool_size
        > bytes.len() {
        Err(FormatError::ChecksumSectionOutOfRange)
    } else if record_count == 0 {
        Err(FormatError::NoChecksumEntries)
    } else {
        Ok(NameSection { position: position as usize, record_count, pool_offset, pool_size })
    }
}

/// Finds the checksum section of a table and checks that its header, its
/// records and its pool of names lie inside the buffer.
pub fn parse_name_section(bytes: &[u8], header: &Header) -> (r: Result<NameSection, FormatError>)
    ensures
        r == decode_name_section(bytes@, *header),
{
    let len = bytes.len();
    let offset = header.string_data_offset as usize;
    let length = header.string_data_length as usize;
    if offset > len || len - offset < length {
        return Err(FormatError::StringDataOutOfRange);
    }
    let data_end = offset + length;
    proof {
        lemma_round_up_bounds(data_end as int, 16);
    }
    if len - data_end < 16 {
        return Err(FormatError::ChecksumHeaderOutOfRange);
    }
    proof {
        lemma2_to64();
        assert(16 == pow2(4));
        assert(is_power_of_two(16));
    }
    let position = align_up(data_end, 16);
    if len - position < 16 {
        return Err(FormatError::ChecksumHeaderOutOfRange);
    }
    let record_count = u32_at(bytes, position + 4);
    let pool_offset = u32_at(bytes, position + 8);
    let pool_size = u32_at(bytes, position + 12);
    let room = len - position;
    let records: usize = record_count as usize;
    let names_at: usize = pool_offset as usize;
    let names_len: usize = pool_size as usize;
    if (room - 16) / 8 < records || room < names_at || room - names_at < names_len {
        return Err(FormatError::ChecksumSectionOutOfRange);
    }
    if record_count == 0 {
        return Err(FormatError::NoChecksumEntries);
    }
    Ok(NameSection { position, record_count, pool_offset, pool_size })
}

/// The checksum of the `i`-th record of the section.
pub open spec fn record_crc(bytes: Seq<u8>, section: NameSection, i: int) -> u32 {
    le_unsigned(bytes, section.position + 16 + 8 * i, 4) as u32
}

/// The name offset of the `i`-th record of the section.
pub open spec fn record_offset(bytes: Seq<u8>, section: NameSection, i: int) -> u32 {
    le_unsigned(bytes, section.position + 20 + 8 * i, 4) as u32
}

/// The offsets into the pool of names that the first `count` records give,
/// by checksum. Each is counted from the offset of the first record; of two
/// records with one checksum the later one counts.
pub open spec fn name_offsets(bytes: Seq<u8>, section: NameSection, count: nat) -> Map<u32, i64>
    decreases count,
{
    if count == 0 {
        Map::empty()
    } else {
        name_offsets(bytes, section, (count - 1) as nat).insert(
            record_crc(bytes, section, count - 1),
            (record_offset(bytes, section, count - 1) - record_offset(bytes, section, 0)) as i64,
        )
    }
}

/// The pool of names of the section.
pub open spec fn name_pool(bytes: Seq<u8>, section: NameSection) -> Seq<u8> {
    bytes.subrange(
        section.position + section.pool_offset,
        section.position + section.pool_offset + section.pool_size,
    )
}

/// The pool that the string values of a table point into.
pub open spec fn value_pool(bytes: Seq<u8>, header: Header) -> Seq<u8> {
    bytes.subrange(header.string_data_offset as int, string_data_end(header))
}

/// Whether the section lies inside a buffer of `len` bytes.
pub open spec fn section_fits(len: nat, section: NameSection) -> bool {
    &&& section.position + 16 + 8 * section.record_count <= len
    &&& section.position + section.pool_offset + section.pool_size <= len
}

/// Reads the records of the checksum section into a map from checksum to
/// name offset.
pub fn read_name_offsets(bytes: &[u8], section: &NameSection) -> (r: HashMap<u32, i64>)
    requires
        section_fits(bytes@.len(), *section),
    ensures
        r@ == name_offsets(bytes@, *section, section.record_count as nat),
{
    let mut offsets: HashMap<u32, i64> = HashMap::new();
    if section.record_count == 0 {
        return offsets;
    }
    let len = bytes.len();
    let records = section.position + 16;
    let base = u32_at(bytes, records + 4);
    let mut i: usize = 0;
    while i < section.record_count as usize
        invariant
            i <= section.record_count,
            section_fits(bytes@.len(), *section),
            len == bytes@.len(),
            records == section.position + 16,
            base == record_offset(bytes@, *section, 0),
            offsets@ == name_offsets(bytes@, *section, i as nat),
        decreases section.record_count - i,
    {
        let at = records + 8 * i;
        let crc = u32_at(bytes, at);
        let offset = u32_at(bytes, at + 4);
        offsets.insert(crc, offset as i64 - base as i64);
        i += 1;
    }
    offsets
}

/// The bits of a floating-point value, as wide as the values of its table.
#[derive(Debug, Clone, Copy, PartialEq, Eq, Structural)]
pub enum FloatBits {
    /// The bits of an IEEE 754 single-precision number.
    Single(u32),
    /// The bits of an IEEE 754 double-precision number.
    Double(u64),
}

/// A value by its declared type.
#[derive(Debug, Clone, PartialEq, Eq)]
pub enum ValueData {
    /// A string of the value pool, or none where the value points to none or
    /// the string cannot be read.
    Str(Option<String>),
    Int(i64),
    Float(FloatBits),
}

/// What a `ValueData` holds.
pub ghost enum ValueDataView {
    Str(Option<Seq<char>>),
    Int(i64),
    Float(FloatBits),
}

impl View for ValueData {
    type V = ValueDataView;

    open spec fn view(&self) -> ValueDataView {
        match self {
            ValueData::Str(s) => ValueDataView::Str(text_view(*s)),
            ValueData::Int(n) => ValueDataView::Int(*n),
            ValueData::Float(bits) => ValueDataView::Float(*bits),
        }
    }
}

/// One value of an entry: its declared type, what it holds, and where its raw
/// form stands in the buffer.
#[derive(Debug, Clone, PartialEq, Eq)]
pub struct ValueField {
    pub typ: ValueType,
    pub data: ValueData,
    pub offset: usize,
}

/// What a `ValueField` holds.
pub ghost struct ValueFieldView {
    pub typ: ValueType,
    pub data: ValueDataView,
    pub offset: usize,
}

impl View for ValueField {
    type V = ValueFieldView;

    open spec fn view(&self) -> ValueFieldView {
        ValueFieldView { typ: self.typ, data: self.data@, offset: self.offset }
    }
}

/// What a sequence of fields holds.
pub open spec fn field_views(fields: Seq<ValueField>) -> Seq<ValueFieldView> {
    fields.map_values(|f: ValueField| f@)
}

/// A named entry with its values in their order.
#[derive(Debug, Clone, PartialEq, Eq)]
pub struct Entry {
    pub name: String,
    pub values: Vec<ValueField>,
}

/// What an `Entry` holds.
pub ghost struct EntryView {
    pub name: Seq<char>,
    pub values: Seq<ValueFieldView>,
}

impl View for Entry {
    type V = EntryView;

    open spec fn view(&self) -> EntryView {
        EntryView { name: self.name@, values: field_views(self.values@) }
    }
}

/// A decoded table: the buffer it was read from, the width of its raw values,
/// and its entries.
#[derive(Debug, Clone, PartialEq, Eq)]
pub struct ParsedT2b {
    pub bytes: Vec<u8>,
    pub value_length: ValueLength,
    pub entries: Vec<Entry>,
}

/// What a `ParsedT2b` holds.
pub ghost struct TableView {
    pub bytes: Seq<u8>,
    pub value_length: ValueLength,
    pub entries: Seq<EntryView>,
}

impl View for ParsedT2b {
    type V = TableView;

    open spec fn view(&self) -> TableView {
        TableView {
            bytes: self.bytes@,
            value_length: self.value_length,
            entries: entry_views(self.entries@),
        }
    }
}

impl ParsedT2b {
    /// Whether the table is what its buffer decodes to.
    pub open spec fn wf(&self) -> bool {
        decode_table(self.bytes@) == Ok::<TableView, FormatError>(self@)
    }
}

/// What a raw value of the given type holds.
///
/// A string value is an offset into the value pool, or negative for no
/// string. A floating-point value keeps its bits: the low 32 where values are
/// 4 bytes wide, all 64 where they are 8 bytes wide.
pub open spec fn interpret(
    typ: ValueType,
    raw: i64,
    width: ValueLength,
    pool: Seq<u8>,
    encoding: StringEncoding,
) -> ValueDataView {
    match typ {
        ValueType::String => ValueDataView::Str(string_at(pool, raw as int, encoding)),
        ValueType::Integer => ValueDataView::Int(raw),
        ValueType::FloatingPoint => match width {
            ValueLength::Int => ValueDataView::Float(
                FloatBits::Single((raw as int % 0x1_0000_0000) as u32),
            ),
            ValueLength::Long => ValueDataView::Float(
                FloatBits::Double((raw as int % 0x1_0000_0000_0000_0000) as u64),
            ),
        },
    }
}

/// Interprets one raw value.
pub fn interpret_value(
    typ: ValueType,
    raw: i64,
    width: ValueLength,
    pool: &[u8],
    encoding: StringEncoding,
) -> (r: ValueData)
    ensures
        r@ == interpret(typ, raw, width, pool@, encoding),
{
    match typ {
        ValueType::String => {
            if raw < 0 || raw as u64 >= pool.len() as u64 {
                ValueData::Str(None)
            } else {
                ValueData::Str(read_string(pool, raw as usize, encoding))
            }
        },
        ValueType::Integer => ValueData::Int(raw),
        ValueType::FloatingPoint => match width {
            ValueLength::Int => {
                let bits: u32 = #[verifier::truncate]
                (raw as u32);
                assert(bits == (raw as int % 0x1_0000_0000) as u32) by (bit_vector)
                    requires
                        bits == raw as u32,
                ;
                ValueData::Float(FloatBits::Single(bits))
            },
            ValueLength::Long => {
                let bits: u64 = #[verifier::truncate]
                (raw as u64);
                assert(bits == (raw as int % 0x1_0000_0000_0000_0000) as u64) by (bit_vector)
                    requires
                        bits == raw as u64,
                ;
                ValueData::Float(FloatBits::Double(bits))
            },
        },
    }
}

/// The values of a raw entry, interpreted.
pub open spec fn interpret_values(
    raw: RawEntryView,
    width: ValueLength,
    pool: Seq<u8>,
    encoding: StringEncoding,
) -> Seq<ValueFieldView> {
    Seq::new(
        raw.types.len(),
        |k: int|
            ValueFieldView {
                typ: raw.types[k],
                data: interpret(raw.types[k], raw.values[k], width, pool, encoding),
                offset: raw.value_offsets[k],
            },
    )
}

/// The name of the entry with the given checksum, or why it has none.
pub open spec fn entry_name(
    bytes: Seq<u8>,
    section: NameSection,
    encoding: StringEncoding,
    crc: u32,
) -> Result<Seq<char>, FormatError> {
    let offsets = name_offsets(bytes, section, section.record_count as nat);
    if !offsets.contains_key(crc) {
        Err(FormatError::MissingName)
    } else {
        match string_at(name_pool(bytes, section), offsets[crc] as int, encoding) {
            None => Err(FormatError::NameReadFailed),
            Some(name) => Ok(name),
        }
    }
}

/// The entry that a raw entry stands for, or why it stands for none.
pub open spec fn resolve_entry(
    bytes: Seq<u8>,
    header: Header,
    section: NameSection,
    width: ValueLength,
    raw: RawEntryView,
) -> Result<EntryView, FormatError> {
    match entry_name(bytes, section, header.encoding, raw.crc32) {
        Err(e) => Err(e),
        Ok(name) => Ok(
            EntryView {
                name,
                values: interpret_values(raw, width, value_pool(bytes, header), header.encoding),
            },
        ),
    }
}

/// The entries that the first `count` raw entries stand for, or the error of
/// the first one that stands for none.
pub open spec fn resolve_entries(
    bytes: Seq<u8>,
    header: Header,
    section: NameSection,
    width: ValueLength,
    raws: Seq<RawEntryView>,
    count: nat,
) -> Result<Seq<EntryView>, FormatError>
    decreases count,
{
    if count == 0 {
        Ok(Seq::empty())
    } else {
        match resolve_entries(bytes, header, section, width, raws, (count - 1) as nat) {
            Err(e) => Err(e),
            Ok(entries) => match resolve_entry(bytes, header, section, width, raws[count - 1]) {
                Err(e) => Err(e),
                Ok(entry) => Ok(entries.push(entry)),
            },
        }
    }
}

/// The table that `bytes` decode to, or why they decode to none.
///
/// The steps, each with its error: header and footer; the value width, found
/// by trial; the checksum section; the name and the values of each entry.
pub open spec fn decode_table(bytes: Seq<u8>) -> Result<TableView, FormatError> {
    match decode_header(bytes) {
        Err(e) => Err(e),
        Ok(header) => match detect_width(
            bytes,
            header.entry_count as nat,
            header.string_data_offset as int,
        ) {
            None => Err(FormatError::UnknownValueWidth),
            Some(width) => match decode_name_section(bytes, header) {
                Err(e) => Err(e),
                Ok(section) => {
                    let raws = decode_entries(
                        bytes,
                        header.entry_count as nat,
                        header.string_data_offset as int,
                        width.width(),
                    ).unwrap().0;
                    match resolve_entries(bytes, header, section, width, raws, raws.len()) {
                        Err(e) => Err(e),
                        Ok(entries) => Ok(TableView { bytes, value_length: width, entries }),
                    }
                },
            },
        },
    }
}

/// What a sequence of entries holds.
pub open spec fn entry_views(entries: Seq<Entry>) -> Seq<EntryView> {
    entries.map_values(|e: Entry| e@)
}

/// Gives a raw entry its name and interprets its values.
fn resolve_raw_entry(
    bytes: &[u8],
    header: &Header,
    section: &NameSection,
    width: ValueLength,
    offsets: &HashMap<u32, i64>,
    raw: &RawEntry,
) -> (r: Result<Entry, FormatError>)
    requires
        section_fits(bytes@.len(), *section),
        string_data_end(*header) <= bytes@.len(),
        offsets@ == name_offsets(bytes@, *section, section.record_count as nat),
        raw.types@.len() == raw.values@.len() == raw.value_offsets@.len(),
    ensures
        match r {
            Ok(entry) => resolve_entry(bytes@, *header, *section, width, raw@) == Ok::<
                EntryView,
                FormatError,
            >(entry@),
            Err(e) => resolve_entry(bytes@, *header, *section, width, raw@) == Err::<
                EntryView,
                FormatError,
            >(e),
        },
{
    let len = bytes.len();
    let names_at = section.position + section.pool_offset as usize;
    let names = slice_subrange(bytes, names_at, names_at + section.pool_size as usize);
    let pool = slice_subrange(
        bytes,
        header.string_data_offset as usize,
        header.string_data_offset as usize + header.string_data_length as usize,
    );
    let name_offset: i64 = match offsets.get(&raw.crc32) {
        Some(offset) => *offset,
        None => {
            return Err(FormatError::MissingName);
        },
    };
    if name_offset < 0 || name_offset as u64 >= names.len() as u64 {
        return Err(FormatError::NameReadFailed);
    }
    let name = match read_string(names, name_offset as usize, header.encoding) {
        Some(name) => name,
        None => {
            return Err(FormatError::NameReadFailed);
        },
    };
    let mut values: Vec<ValueField> = Vec::new();
    let mut k: usize = 0;
    let ghost expected = interpret_values(raw@, width, pool@, header.encoding);
    while k < raw.types.len()
        invariant
            k <= raw.types@.len(),
            raw.types@.len() == raw.values@.len() == raw.value_offsets@.len(),
            expected == interpret_values(raw@, width, pool@, header.encoding),
            field_views(values@) =~= expected.take(k as int),
        decreases raw.types@.len() - k,
    {
        let typ = raw.types[k];
        let data = interpret_value(typ, raw.values[k], width, pool, header.encoding);
        let field = ValueField { typ, data, offset: raw.value_offsets[k] };
        assert(field_views(values@.push(field)) =~= field_views(values@).push(field@));
        values.push(field);
        k += 1;
    }
    assert(expected.take(raw.types@.len() as int) =~= expected);
    Ok(Entry { name, values })
}

/// Decodes a table from the bytes of its file.
///
/// Every failure has its own error, and the errors come in the order of the
/// steps: header and footer, value width, checksum section, entries.
pub fn parse_t2b(bytes: Vec<u8>) -> (r: Result<ParsedT2b, FormatError>)
    ensures
        match r {
            Ok(table) => table.wf() && table.bytes@ == bytes@ && table.entries@.len() <= u32::MAX,
            Err(e) => decode_table(bytes@) == Err::<TableView, FormatError>(e),
        },
{
    let header = match parse_header(bytes.as_slice()) {
        Ok(header) => header,
        Err(e) => {
            return Err(e);
        },
    };
    let entry_count = header.entry_count as usize;
    let string_offset = header.string_data_offset as usize;
    let width = match detect_value_length(bytes.as_slice(), entry_count, string_offset) {
        Some(width) => width,
        None => {
            return Err(FormatError::UnknownValueWidth);
        },
    };
    let raws = match parse_entries(bytes.as_slice(), entry_count, string_offset, width) {
        Some((raws, _)) => raws,
        None => unreached(),
    };
    let section = match parse_name_section(bytes.as_slice(), &header) {
        Ok(section) => section,
        Err(e) => {
            return Err(e);
        },
    };
    let offsets = read_name_offsets(bytes.as_slice(), &section);
    let mut entries: Vec<Entry> = Vec::new();
    let mut i: usize = 0;
    proof {
        lemma_decoded_entries_shape(
            bytes@,
            header.entry_count as nat,
            header.string_data_offset as int,
            width.width(),
        );
        assert forall|j: int| 0 <= j < raws@.len() implies (#[trigger] raws@[j]).types@.len()
            == raws@[j].values@.len() && raws@[j].types@.len() == raws@[j].value_offsets@.len()
        by {
            assert(raw_views(raws@)[j] == raws@[j]@);
        }
        assert(entry_views(entries@) =~= Seq::empty());
    }
    while i < raws.len()
        invariant
            i <= raws@.len(),
            section_fits(bytes@.len(), section),
            string_data_end(header) <= bytes@.len(),
            offsets@ == name_offsets(bytes@, section, section.record_count as nat),
            raws@.len() == header.entry_count,
            decode_header(bytes@) == Ok::<Header, FormatError>(header),
            detect_width(bytes@, header.entry_count as nat, header.string_data_offset as int)
                == Some(width),
            decode_name_section(bytes@, header) == Ok::<NameSection, FormatError>(section),
            decode_entries(
                bytes@,
                header.entry_count as nat,
                header.string_data_offset as int,
                width.width(),
            ) is Some,
            decode_entries(
                bytes@,
                header.entry_count as nat,
                header.string_data_offset as int,
                width.width(),
            ).unwrap().0 == raw_views(raws@),
            forall|j: int|
                0 <= j < raws@.len() ==> (#[trigger] raws@[j]).types@.len()
                    == raws@[j].values@.len() && raws@[j].types@.len()
                    == raws@[j].value_offsets@.len(),
            resolve_entries(bytes@, header, section, width, raw_views(raws@), i as nat) == Ok::<
                Seq<EntryView>,
                FormatError,
            >(entry_views(entries@)),
        decreases raws@.len() - i,
    {
        assert(raw_views(raws@)[i as int] == raws@[i as int]@);
        match resolve_raw_entry(bytes.as_slice(), &header, &section, width, &offsets, &raws[i]) {
            Ok(entry) => {
                assert(entry_views(entries@.push(entry)) =~= entry_views(entries@).push(entry@));
                entries.push(entry);
            },
            Err(e) => {
                proof {
                    lemma_resolve_error_stays(
                        bytes@,
                        header,
                        section,
                        width,
                        raw_views(raws@),
                        (i + 1) as nat,
                        raws@.len(),
                    );
                }
                return Err(e);
            },
        }
        i += 1;
    }
    proof {
        lemma_resolved_len(bytes@, header, section, width, raw_views(raws@), raws@.len());
    }
    Ok(ParsedT2b { bytes, value_length: width, entries })
}

/// Where all of the first `count` raw entries stand for entries, there are
/// `count` of them.
pub proof fn lemma_resolved_len(
    bytes: Seq<u8>,
    header: Header,
    section: NameSection,
    width: ValueLength,
    raws: Seq<RawEntryView>,
    count: nat,
)
    requires
        resolve_entries(bytes, header, section, width, raws, count) is Ok,
    ensures
        resolve_entries(bytes, header, section, width, raws, count).unwrap().len() == count,
    decreases count,
{
    if count > 0 {
        lemma_resolved_len(bytes, header, section, width, raws, (count - 1) as nat);
    }
}

/// A decoded table has as many entries as its header says.
pub proof fn lemma_table_entry_count(bytes: Seq<u8>)
    requires
        decode_table(bytes) is Ok,
    ensures
        decode_table(bytes).unwrap().entries.len() == decode_header(bytes).unwrap().entry_count,
        decode_table(bytes).unwrap().entries.len() <= u32::MAX,
        decode_table(bytes).unwrap().bytes == bytes,
{
    let header = decode_header(bytes).unwrap();
    let width = detect_width(
        bytes,
        header.entry_count as nat,
        header.string_data_offset as int,
    ).unwrap();
    let section = decode_name_section(bytes, header).unwrap();
    lemma_decoded_entries_shape(
        bytes,
        header.entry_count as nat,
        header.string_data_offset as int,
        width.width(),
    );
    let raws = decode_entries(
        bytes,
        header.entry_count as nat,
        header.string_data_offset as int,
        width.width(),
    ).unwrap().0;
    lemma_resolved_len(bytes, header, section, width, raws, raws.len());
}

/// An error among the first entries is the error of every longer run.
pub proof fn lemma_resolve_error_stays(
    bytes: Seq<u8>,
    header: Header,
    section: NameSection,
    width: ValueLength,
    raws: Seq<RawEntryView>,
    i: nat,
    j: nat,
)
    requires
        i <= j,
        resolve_entries(bytes, header, section, width, raws, i) is Err,
    ensures
        resolve_entries(bytes, header, section, width, raws, j) == resolve_entries(
            bytes,
            header,
            section,
            width,
            raws,
            i,
        ),
    decreases j,
{
    if i < j {
        lemma_resolve_error_stays(bytes, header, section, width, raws, i, (j - 1) as nat);
    }
}

} // verus!
