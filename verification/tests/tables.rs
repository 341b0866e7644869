use cpk_size_sync::entries::{
    detect_value_length, parse_entries, try_parse_entries, ValueLength, ValueType,
};
use cpk_size_sync::error::{FormatError, SyncError};
use cpk_size_sync::patch::{apply_sizes, build_size_map, path_key, synchronize, SizeMap};
use cpk_size_sync::reader::{read_i32, read_i64};
use cpk_size_sync::table::{
    interpret_value, parse_header, parse_name_section, parse_t2b, read_name_offsets, Entry,
    FloatBits, Header, ParsedT2b, ValueData, ValueField,
};
use cpk_size_sync::text::StringEncoding;

#[derive(Clone)]
enum Val {
    Str(&'static str),
    NoStr,
    Int(i64),
    Float(u64),
}

struct Row {
    name: &'static str,
    values: Vec<Val>,
}

fn row(name: &'static str, values: Vec<Val>) -> Row {
    Row { name, values }
}

fn item(values: Vec<Val>) -> Row {
    row("CPK_ITEM", values)
}

fn pad(out: &mut Vec<u8>, align: usize) {
    while out.len() % align != 0 {
        out.push(0);
    }
}

fn crc_of(names: &mut Vec<&'static str>, name: &'static str) -> u32 {
    let index = match names.iter().position(|n| *n == name) {
        Some(i) => i,
        None => {
            names.push(name);
            names.len() - 1
        }
    };
    0xC0DE_0000 + index as u32
}

/// Lays out a table as the format asks, with `selector` in the footer.
fn build_with(rows: &[Row], width: usize, selector: i16) -> Vec<u8> {
    let mut names: Vec<&'static str> = Vec::new();
    let mut strings: Vec<u8> = Vec::new();
    let mut out = vec![0u8; 16];
    for r in rows {
        out.extend_from_slice(&crc_of(&mut names, r.name).to_le_bytes());
        out.push(r.values.len() as u8);
        let mut tags = vec![0u8; (r.values.len() + 3) / 4];
        for (k, v) in r.values.iter().enumerate() {
            let tag: u8 = match v {
                Val::Str(_) | Val::NoStr => 0,
                Val::Int(_) => 1,
                Val::Float(_) => 2,
            };
            tags[k / 4] |= tag << (2 * (k % 4));
        }
        out.extend_from_slice(&tags);
        pad(&mut out, 4);
        for v in &r.values {
            let raw: i64 = match v {
                Val::Str(s) => {
                    let at = strings.len() as i64;
                    strings.extend_from_slice(s.as_bytes());
                    strings.push(0);
                    at
                }
                Val::NoStr => -1,
                Val::Int(n) => *n,
                Val::Float(bits) => *bits as i64,
            };
            if width == 4 {
                out.extend_from_slice(&(raw as i32).to_le_bytes());
            } else {
                out.extend_from_slice(&raw.to_le_bytes());
            }
        }
    }
    pad(&mut out, 16);
    let string_offset = out.len() as u32;
    out.extend_from_slice(&strings);
    out[0..4].copy_from_slice(&(rows.len() as u32).to_le_bytes());
    out[4..8].copy_from_slice(&string_offset.to_le_bytes());
    out[8..12].copy_from_slice(&(strings.len() as u32).to_le_bytes());
    pad(&mut out, 16);
    let mut pool: Vec<u8> = Vec::new();
    let mut records: Vec<u8> = Vec::new();
    // name offsets count from an arbitrary base: only their differences matter
    let base = 0x40u32;
    for (i, name) in names.iter().enumerate() {
        records.extend_from_slice(&(0xC0DE_0000 + i as u32).to_le_bytes());
        records.extend_from_slice(&(base + pool.len() as u32).to_le_bytes());
        pool.extend_from_slice(name.as_bytes());
        pool.push(0);
    }
    let pool_offset = 16 + records.len() as u32;
    out.extend_from_slice(&0u32.to_le_bytes());
    out.extend_from_slice(&(names.len() as u32).to_le_bytes());
    out.extend_from_slice(&pool_offset.to_le_bytes());
    out.extend_from_slice(&(pool.len() as u32).to_le_bytes());
    out.extend_from_slice(&records);
    out.extend_from_slice(&pool);
    pad(&mut out, 16);
    let mut footer = [0u8; 16];
    footer[0..4].copy_from_slice(&0x6232_7401u32.to_le_bytes());
    footer[6..8].copy_from_slice(&selector.to_le_bytes());
    out.extend_from_slice(&footer);
    out
}

fn build(rows: &[Row], width: usize) -> Vec<u8> {
    build_with(rows, width, 1)
}

fn text(s: &str) -> ValueData {
    ValueData::Str(Some(s.to_string()))
}

fn differing(a: &[u8], b: &[u8]) -> Vec<usize> {
    assert_eq!(a.len(), b.len());
    (0..a.len()).filter(|i| a[*i] != b[*i]).collect()
}

// ---- decoding ----

#[test]
fn decodes_names_types_values_and_offsets() {
    let bytes = build(
        &[
            row("HEAD", vec![Val::Int(7)]),
            item(vec![Val::Str("data/a.bin"), Val::Str(""), Val::Int(0), Val::Float(0x3f80_0000), Val::Int(512)]),
        ],
        4,
    );
    let table = parse_t2b(bytes.clone()).unwrap();
    assert_eq!(table.bytes, bytes);
    assert_eq!(table.value_length, ValueLength::Int);
    assert_eq!(table.entries.len(), 2);
    assert_eq!(table.entries[0].name, "HEAD");
    assert_eq!(
        table.entries[0].values,
        vec![ValueField { typ: ValueType::Integer, data: ValueData::Int(7), offset: 24 }]
    );
    let e = &table.entries[1];
    assert_eq!(e.name, "CPK_ITEM");
    assert_eq!(e.values.len(), 5);
    // entry at 28: checksum, count, two tag bytes, one byte of padding
    assert_eq!(e.values[0], ValueField { typ: ValueType::String, data: text("data/a.bin"), offset: 36 });
    assert_eq!(e.values[1], ValueField { typ: ValueType::String, data: text(""), offset: 40 });
    assert_eq!(e.values[2], ValueField { typ: ValueType::Integer, data: ValueData::Int(0), offset: 44 });
    assert_eq!(
        e.values[3],
        ValueField {
            typ: ValueType::FloatingPoint,
            data: ValueData::Float(FloatBits::Single(0x3f80_0000)),
            offset: 48
        }
    );
    assert_eq!(e.values[4], ValueField { typ: ValueType::Integer, data: ValueData::Int(512), offset: 52 });
}

#[test]
fn decodes_eight_byte_values() {
    let bytes = build(
        &[item(vec![Val::Str("p"), Val::NoStr, Val::Int(-3), Val::Float(0x4000_0000_0000_0000), Val::Int(1 << 40)])],
        8,
    );
    let table = parse_t2b(bytes).unwrap();
    assert_eq!(table.value_length, ValueLength::Long);
    let v = &table.entries[0].values;
    assert_eq!(v[0].data, text("p"));
    assert_eq!(v[1].data, ValueData::Str(None));
    assert_eq!(v[2].data, ValueData::Int(-3));
    assert_eq!(v[3].data, ValueData::Float(FloatBits::Double(0x4000_0000_0000_0000)));
    assert_eq!(v[4].data, ValueData::Int(1 << 40));
    assert_eq!(v.iter().map(|f| f.offset).collect::<Vec<_>>(), vec![24, 32, 40, 48, 56]);
}

#[test]
fn negative_four_byte_values_are_sign_extended() {
    let bytes = build(&[row("A", vec![Val::Int(-5), Val::Float(0xffff_ffff), Val::NoStr])], 4);
    let table = parse_t2b(bytes).unwrap();
    let v = &table.entries[0].values;
    assert_eq!(v[0].data, ValueData::Int(-5));
    assert_eq!(v[1].data, ValueData::Float(FloatBits::Single(0xffff_ffff)));
    assert_eq!(v[2].data, ValueData::Str(None));
}

#[test]
fn string_value_outside_the_pool_is_absent() {
    let mut bytes = build(&[row("A", vec![Val::Str("x"), Val::Int(1)])], 4);
    bytes[24..28].copy_from_slice(&1000i32.to_le_bytes());
    let table = parse_t2b(bytes).unwrap();
    assert_eq!(table.entries[0].values[0].data, ValueData::Str(None));
    assert_eq!(table.entries[0].values[0].typ, ValueType::String);
}

#[test]
fn invalid_utf8_value_is_absent_not_fatal() {
    let mut bytes = build(&[row("A", vec![Val::Str("xy"), Val::Int(1)])], 4);
    let so = u32::from_le_bytes(bytes[4..8].try_into().unwrap()) as usize;
    bytes[so] = 0xff;
    let table = parse_t2b(bytes.clone()).unwrap();
    assert_eq!(table.entries[0].values[0].data, ValueData::Str(None));
    // the legacy encoding takes the byte as a character
    let footer = bytes.len() - 16;
    bytes[footer + 6] = 0;
    let table = parse_t2b(bytes).unwrap();
    assert_eq!(table.entries[0].values[0].data, text("\u{ff}y"));
}

#[test]
fn empty_table_decodes() {
    let bytes = build(&[row("A", vec![])], 4);
    let table = parse_t2b(bytes).unwrap();
    assert_eq!(table.entries.len(), 1);
    assert!(table.entries[0].values.is_empty());
}

#[test]
fn every_known_selector_is_accepted() {
    for selector in [0i16, 1, 256, 257] {
        let bytes = build_with(&[row("A", vec![Val::Int(1)])], 4, selector);
        let header = parse_header(&bytes).unwrap();
        let expected = if selector == 0 { StringEncoding::Sjis } else { StringEncoding::Utf8 };
        assert_eq!(header.encoding, expected);
        assert!(parse_t2b(bytes).is_ok());
    }
}

#[test]
fn header_fields_are_read() {
    let bytes = build(&[row("A", vec![Val::Int(1)]), row("B", vec![Val::Str("s")])], 4);
    let header = parse_header(&bytes).unwrap();
    assert_eq!(
        header,
        Header {
            entry_count: 2,
            string_data_offset: 48,
            string_data_length: 2,
            encoding: StringEncoding::Utf8
        }
    );
    let section = parse_name_section(&bytes, &header).unwrap();
    assert_eq!(section.position, 64);
    assert_eq!(section.record_count, 2);
    assert_eq!(section.pool_offset, 32);
    assert_eq!(section.pool_size, 4);
    let offsets = read_name_offsets(&bytes, &section);
    assert_eq!(offsets.len(), 2);
    assert_eq!(offsets[&0xC0DE_0000], 0);
    assert_eq!(offsets[&0xC0DE_0001], 2);
}

#[test]
fn of_two_records_with_one_checksum_the_later_counts() {
    let mut bytes = build(&[row("A", vec![Val::Int(1)]), row("B", vec![Val::Int(2)])], 4);
    // both records now carry the checksum of "A"; the entry "B" keeps its own
    let header = parse_header(&bytes).unwrap();
    let section = parse_name_section(&bytes, &header).unwrap();
    let second = section.position + 16 + 8;
    bytes[second..second + 4].copy_from_slice(&0xC0DE_0000u32.to_le_bytes());
    assert_eq!(parse_t2b(bytes.clone()), Err(FormatError::MissingName));
    let offsets = read_name_offsets(&bytes, &section);
    assert_eq!(offsets.len(), 1);
    assert_eq!(offsets[&0xC0DE_0000], 2);
}

#[test]
fn interpret_value_by_type() {
    let pool = b"abc\0de\0";
    assert_eq!(
        interpret_value(ValueType::String, 4, ValueLength::Int, pool, StringEncoding::Utf8),
        text("de")
    );
    assert_eq!(
        interpret_value(ValueType::String, -1, ValueLength::Int, pool, StringEncoding::Utf8),
        ValueData::Str(None)
    );
    assert_eq!(
        interpret_value(ValueType::String, 7, ValueLength::Long, pool, StringEncoding::Utf8),
        ValueData::Str(None)
    );
    assert_eq!(
        interpret_value(ValueType::Integer, -9, ValueLength::Long, pool, StringEncoding::Sjis),
        ValueData::Int(-9)
    );
    assert_eq!(
        interpret_value(ValueType::FloatingPoint, -1, ValueLength::Int, pool, StringEncoding::Sjis),
        ValueData::Float(FloatBits::Single(0xffff_ffff))
    );
    assert_eq!(
        interpret_value(ValueType::FloatingPoint, -1, ValueLength::Long, pool, StringEncoding::Sjis),
        ValueData::Float(FloatBits::Double(u64::MAX))
    );
}

// ---- format errors ----

#[test]
fn short_buffer_is_too_small() {
    assert_eq!(parse_t2b(vec![0u8; 0x2f]), Err(FormatError::FileTooSmall));
    assert_eq!(parse_t2b(Vec::new()), Err(FormatError::FileTooSmall));
    let good = build(&[item(vec![Val::Str("a"), Val::Str(""), Val::Int(1)])], 4);
    assert_eq!(
        synchronize(vec![0u8; 0x2f], good.clone()),
        Err(SyncError::Original(FormatError::FileTooSmall))
    );
    assert_eq!(
        synchronize(good, vec![1u8; 10]),
        Err(SyncError::Patched(FormatError::FileTooSmall))
    );
}

#[test]
fn bad_magic_is_rejected() {
    let mut bytes = build(&[row("A", vec![Val::Int(1)])], 4);
    let footer = bytes.len() - 16;
    bytes[footer] ^= 1;
    assert_eq!(parse_t2b(bytes), Err(FormatError::InvalidMagic));
    assert_eq!(parse_t2b(vec![0u8; 0x30]), Err(FormatError::InvalidMagic));
}

#[test]
fn unknown_selector_is_rejected() {
    for selector in [2i16, -1, 255, 258] {
        let bytes = build_with(&[row("A", vec![Val::Int(1)])], 4, selector);
        assert_eq!(parse_t2b(bytes), Err(FormatError::UnknownEncoding(selector)));
    }
}

#[test]
fn tag_three_makes_the_width_unknown() {
    let mut bytes = build(&[row("A", vec![Val::Int(1)])], 4);
    bytes[21] = 3;
    assert_eq!(parse_t2b(bytes), Err(FormatError::UnknownValueWidth));
}

#[test]
fn stream_that_ends_too_early_makes_the_width_unknown() {
    let mut bytes = build(&[row("A", vec![Val::Int(1)])], 4);
    // one entry less than there is: 16 bytes of slack are too many
    bytes[0] = 0;
    assert_eq!(parse_t2b(bytes), Err(FormatError::UnknownValueWidth));
}

#[test]
fn string_data_behind_the_buffer_is_rejected() {
    let mut bytes = build(&[row("A", vec![Val::Int(1)])], 4);
    let len = bytes.len() as u32;
    bytes[8..12].copy_from_slice(&len.to_le_bytes());
    assert_eq!(parse_t2b(bytes), Err(FormatError::StringDataOutOfRange));
}

#[test]
fn checksum_header_behind_the_buffer_is_rejected() {
    let mut bytes = build(&[row("A", vec![Val::Int(1)])], 4);
    let so = u32::from_le_bytes(bytes[4..8].try_into().unwrap());
    let room = bytes.len() as u32 - so;
    bytes[8..12].copy_from_slice(&(room - 8).to_le_bytes());
    assert_eq!(parse_t2b(bytes), Err(FormatError::ChecksumHeaderOutOfRange));
}

#[test]
fn checksum_records_behind_the_buffer_are_rejected() {
    let mut bytes = build(&[row("A", vec![Val::Int(1)])], 4);
    let header = parse_header(&bytes).unwrap();
    let section = parse_name_section(&bytes, &header).unwrap();
    let at = section.position;
    bytes[at + 4..at + 8].copy_from_slice(&0x1000u32.to_le_bytes());
    assert_eq!(parse_t2b(bytes.clone()), Err(FormatError::ChecksumSectionOutOfRange));
    bytes[at + 4..at + 8].copy_from_slice(&1u32.to_le_bytes());
    bytes[at + 12..at + 16].copy_from_slice(&0x1000u32.to_le_bytes());
    assert_eq!(parse_t2b(bytes), Err(FormatError::ChecksumSectionOutOfRange));
}

#[test]
fn checksum_section_without_records_is_rejected() {
    let mut bytes = build(&[row("A", vec![Val::Int(1)])], 4);
    let header = parse_header(&bytes).unwrap();
    let at = parse_name_section(&bytes, &header).unwrap().position;
    bytes[at + 4..at + 8].copy_from_slice(&0u32.to_le_bytes());
    assert_eq!(parse_t2b(bytes), Err(FormatError::NoChecksumEntries));
}

#[test]
fn entry_without_a_record_is_rejected() {
    let mut bytes = build(&[row("A", vec![Val::Int(1)])], 4);
    bytes[16] ^= 0x55;
    assert_eq!(parse_t2b(bytes), Err(FormatError::MissingName));
}

#[test]
fn name_outside_the_pool_is_rejected() {
    let mut bytes = build(&[row("A", vec![Val::Int(1)]), row("B", vec![Val::Int(2)])], 4);
    let header = parse_header(&bytes).unwrap();
    let at = parse_name_section(&bytes, &header).unwrap().position;
    // second record: an offset far behind the pool
    bytes[at + 28..at + 32].copy_from_slice(&0x4000u32.to_le_bytes());
    assert_eq!(parse_t2b(bytes.clone()), Err(FormatError::NameReadFailed));
    // and one in front of the first record's offset
    bytes[at + 28..at + 32].copy_from_slice(&0x10u32.to_le_bytes());
    assert_eq!(parse_t2b(bytes), Err(FormatError::NameReadFailed));
}

// ---- the entry stream and the value width ----

#[test]
fn try_parse_entries_reads_the_raw_stream() {
    let bytes = build(&[row("A", vec![Val::Int(-2), Val::Str("x"), Val::Float(9), Val::NoStr, Val::Int(3)])], 4);
    let (entries, end) = try_parse_entries(&bytes, 1, 48, ValueLength::Int).unwrap();
    assert_eq!(end, 44);
    assert_eq!(entries.len(), 1);
    assert_eq!(entries[0].crc32, 0xC0DE_0000);
    assert_eq!(
        entries[0].types,
        vec![
            ValueType::Integer,
            ValueType::String,
            ValueType::FloatingPoint,
            ValueType::String,
            ValueType::Integer
        ]
    );
    assert_eq!(entries[0].values, vec![-2, 0, 9, -1, 3]);
    assert_eq!(entries[0].value_offsets, vec![24, 28, 32, 36, 40]);
    let again = parse_entries(&bytes, 1, 48, ValueLength::Int).unwrap();
    assert_eq!(again.1, 44);
    assert_eq!(again.0[0].values, entries[0].values);
}

#[test]
fn try_parse_entries_checks_the_slack() {
    let bytes = build(&[row("A", vec![Val::Int(1)])], 4);
    // the stream ends at 28
    assert!(try_parse_entries(&bytes, 1, 28, ValueLength::Int).is_some());
    assert!(try_parse_entries(&bytes, 1, 43, ValueLength::Int).is_some());
    assert!(try_parse_entries(&bytes, 1, 44, ValueLength::Int).is_none());
    assert!(try_parse_entries(&bytes, 1, 27, ValueLength::Int).is_none());
    assert!(try_parse_entries(&bytes, 0, 16, ValueLength::Int).is_some());
    assert!(try_parse_entries(&bytes, 0, 32, ValueLength::Int).is_none());
    assert!(try_parse_entries(&bytes, 2, 32, ValueLength::Int).is_none());
}

#[test]
fn try_parse_entries_needs_the_bytes() {
    let bytes = build(&[row("A", vec![Val::Int(1)])], 4);
    assert!(try_parse_entries(&bytes[..27], 1, 28, ValueLength::Int).is_none());
    assert!(try_parse_entries(&bytes[..20], 1, 28, ValueLength::Int).is_none());
    assert!(try_parse_entries(&[], 1, 28, ValueLength::Int).is_none());
    assert!(try_parse_entries(&bytes, usize::MAX, 28, ValueLength::Int).is_none());
}

#[test]
fn synthetic_table_of_one_width_fails_under_the_other() {
    let rows = [item(vec![Val::Str("data/a.bin"), Val::Str(""), Val::Int(0), Val::Int(0), Val::Int(512)])];
    let narrow = build(&rows, 4);
    let so4 = u32::from_le_bytes(narrow[4..8].try_into().unwrap()) as usize;
    assert!(try_parse_entries(&narrow, 1, so4, ValueLength::Int).is_some());
    assert!(try_parse_entries(&narrow, 1, so4, ValueLength::Long).is_none());
    assert_eq!(detect_value_length(&narrow, 1, so4), Some(ValueLength::Int));
    let wide = build(&rows, 8);
    let so8 = u32::from_le_bytes(wide[4..8].try_into().unwrap()) as usize;
    assert!(try_parse_entries(&wide, 1, so8, ValueLength::Long).is_some());
    assert!(try_parse_entries(&wide, 1, so8, ValueLength::Int).is_none());
    assert_eq!(detect_value_length(&wide, 1, so8), Some(ValueLength::Long));
}

#[test]
fn detection_prefers_four_bytes_where_both_widths_fit() {
    // without values the two readings are the same
    let bytes = build(&[row("A", vec![])], 8);
    assert!(try_parse_entries(&bytes, 1, 32, ValueLength::Int).is_some());
    assert!(try_parse_entries(&bytes, 1, 32, ValueLength::Long).is_some());
    assert_eq!(detect_value_length(&bytes, 1, 32), Some(ValueLength::Int));
    // three 8-byte values leave 12 bytes of slack to the 4-byte reading
    let three = build(&[row("A", vec![Val::Int(1), Val::Int(2), Val::Int(3)])], 8);
    assert_eq!(detect_value_length(&three, 1, 48), Some(ValueLength::Int));
    assert_eq!(detect_value_length(&three, 1, 12), None);
}

// ---- the sizes of the patched table ----

#[test]
fn path_key_needs_a_string_first() {
    let entry = |values: Vec<ValueData>| Entry {
        name: "CPK_ITEM".to_string(),
        values: values
            .into_iter()
            .map(|data| ValueField { typ: ValueType::String, data, offset: 0 })
            .collect(),
    };
    assert_eq!(
        path_key(&entry(vec![text("a/"), text("b")])),
        Some(("a/".to_string(), "b".to_string()))
    );
    assert_eq!(
        path_key(&entry(vec![text("a"), ValueData::Str(None)])),
        Some(("a".to_string(), String::new()))
    );
    assert_eq!(
        path_key(&entry(vec![text("a"), ValueData::Int(3), text("c")])),
        Some(("a".to_string(), String::new()))
    );
    assert_eq!(path_key(&entry(vec![text("a")])), None);
    assert_eq!(path_key(&entry(vec![])), None);
    assert_eq!(path_key(&entry(vec![ValueData::Str(None), text("b")])), None);
    assert_eq!(path_key(&entry(vec![ValueData::Int(1), text("b")])), None);
}

#[test]
fn size_map_keeps_the_later_size() {
    let mut sizes = SizeMap::new();
    assert!(sizes.is_empty());
    assert_eq!(sizes.get(&"a".to_string()), None);
    sizes.insert("a".to_string(), 1, ValueLength::Int);
    sizes.insert("b".to_string(), 2, ValueLength::Long);
    sizes.insert("a".to_string(), 3, ValueLength::Long);
    assert!(!sizes.is_empty());
    assert_eq!(sizes.get(&"a".to_string()), Some((3, ValueLength::Long)));
    assert_eq!(sizes.get(&"b".to_string()), Some((2, ValueLength::Long)));
    assert_eq!(sizes.get(&"c".to_string()), None);
}

fn parsed(rows: &[Row], width: usize) -> ParsedT2b {
    parse_t2b(build(rows, width)).unwrap()
}

#[test]
fn build_size_map_takes_integers_and_quoted_numbers() {
    let table = parsed(
        &[
            item(vec![Val::Str("data/a.bin"), Val::Str(""), Val::Int(1024)]),
            item(vec![Val::Str("data/b.bin"), Val::NoStr, Val::Str("\"2048\"")]),
            item(vec![Val::Str("data/c.bin"), Val::Str("\"\""), Val::Str("77")]),
            item(vec![Val::Str("data/d.bin"), Val::Str(""), Val::Str("big")]),
            item(vec![Val::Str("data/e.bin"), Val::Str(""), Val::Float(5)]),
            item(vec![Val::Str("data/f.bin"), Val::Str(""), Val::NoStr]),
            row("OTHER", vec![Val::Str("data/g.bin"), Val::Str(""), Val::Int(5)]),
            item(vec![Val::NoStr, Val::Str(""), Val::Int(6)]),
            item(vec![Val::Int(1), Val::Str(""), Val::Int(6)]),
            item(vec![Val::Str("only")]),
        ],
        4,
    );
    let sizes = build_size_map(&table).unwrap();
    assert_eq!(sizes.get(&"data/a.bin".to_string()), Some((1024, ValueLength::Int)));
    assert_eq!(sizes.get(&"data/b.bin".to_string()), Some((2048, ValueLength::Int)));
    assert_eq!(sizes.get(&"data/c.bin\"\"".to_string()), Some((77, ValueLength::Int)));
    assert_eq!(sizes.get(&"data/c.bin".to_string()), None);
    for missing in ["data/d.bin", "data/e.bin", "data/f.bin", "data/g.bin", "", "only"] {
        assert_eq!(sizes.get(&missing.to_string()), None);
    }
}

#[test]
fn build_size_map_later_row_overwrites() {
    let table = parsed(
        &[
            item(vec![Val::Str("a"), Val::Str(""), Val::Int(1)]),
            item(vec![Val::Str("a"), Val::Str(""), Val::Int(2)]),
            item(vec![Val::Str("a"), Val::Str(""), Val::Str("x")]),
        ],
        4,
    );
    let sizes = build_size_map(&table).unwrap();
    assert_eq!(sizes.get(&"a".to_string()), Some((2, ValueLength::Int)));
}

#[test]
fn build_size_map_records_the_width_of_the_table() {
    let table = parsed(&[item(vec![Val::Str("a"), Val::Str(""), Val::Int(1), Val::Int(0), Val::Int(0)])], 8);
    assert_eq!(table.value_length, ValueLength::Long);
    let sizes = build_size_map(&table).unwrap();
    assert_eq!(sizes.get(&"a".to_string()), Some((1, ValueLength::Long)));
}

#[test]
fn missing_size_column_is_fatal() {
    let table = parsed(
        &[
            item(vec![Val::Str("data/a.bin"), Val::Str(""), Val::Int(1)]),
            item(vec![Val::Str("data/b.bin"), Val::Str("")]),
            item(vec![Val::Str("data/c.bin"), Val::Str("")]),
        ],
        4,
    );
    assert_eq!(
        build_size_map(&table),
        Err(SyncError::MissingSizeField("data/b.bin".to_string()))
    );
}

#[test]
fn variant_rows_need_no_size_column() {
    let table = parsed(
        &[item(vec![Val::Str("data/a.bin"), Val::Str("variant")]), item(vec![Val::Str("b"), Val::Str(""), Val::Int(1)])],
        4,
    );
    assert!(build_size_map(&table).is_ok());
}

#[test]
fn table_without_sizes_is_an_error() {
    let reference = build(
        &[
            row("HEAD", vec![Val::Int(1)]),
            item(vec![Val::Str("data/a.bin"), Val::Str("variant"), Val::Int(2048)]),
            item(vec![Val::Str("data/b.bin"), Val::Str(""), Val::Str("n/a")]),
        ],
        4,
    );
    let original = build(&[item(vec![Val::Str("data/a.bin"), Val::Str(""), Val::Int(0), Val::Int(0), Val::Int(512)])], 4);
    assert_eq!(
        build_size_map(&parse_t2b(reference.clone()).unwrap()),
        Err(SyncError::NoPatchedEntries)
    );
    assert_eq!(synchronize(original, reference), Err(SyncError::NoPatchedEntries));
}

#[test]
fn errors_come_in_the_order_of_the_steps() {
    let good = build(&[item(vec![Val::Str("a"), Val::Str(""), Val::Int(1)])], 4);
    let no_sizes = build(&[row("X", vec![Val::Int(1)])], 4);
    let mut broken = good.clone();
    let footer = broken.len() - 16;
    broken[footer] = 0;
    assert_eq!(
        synchronize(broken.clone(), vec![0u8; 3]),
        Err(SyncError::Original(FormatError::InvalidMagic))
    );
    assert_eq!(
        synchronize(good.clone(), broken),
        Err(SyncError::Patched(FormatError::InvalidMagic))
    );
    assert_eq!(synchronize(good, no_sizes), Err(SyncError::NoPatchedEntries));
}

// ---- synchronising ----

#[test]
fn size_is_written_at_index_four() {
    let reference = build(&[item(vec![Val::Str("data/a.bin"), Val::Str(""), Val::Int(1024)])], 4);
    let original = build(&[item(vec![Val::Str("data/a.bin"), Val::Str(""), Val::Int(0), Val::Int(0), Val::Int(512)])], 4);
    let (out, count) = synchronize(original.clone(), reference).unwrap();
    assert_eq!(count, 1);
    // 512 and 1024 differ in their second byte only
    assert_eq!(differing(&original, &out), vec![41]);
    assert_eq!(read_i32(&out, 40), Some(1024));
    let table = parse_t2b(out).unwrap();
    assert_eq!(table.entries[0].values[4].data, ValueData::Int(1024));
    assert_eq!(table.entries[0].values[2].data, ValueData::Int(0));
}

#[test]
fn variant_rows_give_no_size() {
    let reference = build(
        &[
            item(vec![Val::Str("data/a.bin"), Val::Str("variant"), Val::Int(2048)]),
            item(vec![Val::Str("data/other.bin"), Val::Str(""), Val::Int(1)]),
        ],
        4,
    );
    let original = build(&[item(vec![Val::Str("data/a.bin"), Val::Str(""), Val::Int(0), Val::Int(0), Val::Int(512)])], 4);
    let sizes = build_size_map(&parse_t2b(reference.clone()).unwrap()).unwrap();
    assert_eq!(sizes.get(&"data/a.bin".to_string()), None);
    assert_eq!(sizes.get(&"data/a.binvariant".to_string()), None);
    let (out, count) = synchronize(original.clone(), reference).unwrap();
    assert_eq!(count, 0);
    assert_eq!(out, original);
}

#[test]
fn unmatched_rows_keep_every_byte() {
    let reference = build(&[item(vec![Val::Str("b"), Val::Str(""), Val::Int(99)])], 4);
    let original = build(
        &[
            item(vec![Val::Str("a"), Val::Str(""), Val::Int(0), Val::Int(0), Val::Int(1)]),
            item(vec![Val::Str("b"), Val::Str(""), Val::Int(0), Val::Int(0), Val::Int(2)]),
            item(vec![Val::Str("c"), Val::Str(""), Val::Int(0), Val::Int(0), Val::Int(3)]),
        ],
        4,
    );
    let table = parse_t2b(original.clone()).unwrap();
    let (out, count) = synchronize(original.clone(), reference).unwrap();
    assert_eq!(count, 1);
    let target = table.entries[1].values[4].offset;
    assert_eq!(differing(&original, &out), vec![target]);
    assert_eq!(read_i32(&out, target), Some(99));
    // the rows in front and behind: from their checksum to their last value
    for i in [0usize, 2] {
        let first = table.entries[i].values[0].offset - 8;
        let last = table.entries[i].values[4].offset + 4;
        assert_eq!(&out[first..last], &original[first..last]);
    }
}

#[test]
fn size_is_narrowed_to_the_width_of_the_original() {
    let reference = build(
        &[item(vec![Val::Str("a"), Val::Str(""), Val::Int(0x1_0000_0400), Val::Int(0), Val::Int(0)])],
        8,
    );
    let original = build(&[item(vec![Val::Str("a"), Val::Str(""), Val::Int(0), Val::Int(0), Val::Int(512)])], 4);
    assert_eq!(parse_t2b(reference.clone()).unwrap().value_length, ValueLength::Long);
    let (out, count) = synchronize(original.clone(), reference).unwrap();
    assert_eq!(count, 1);
    assert_eq!(out.len(), original.len());
    assert_eq!(read_i32(&out, 40), Some(0x400));
    assert_eq!(&out[44..], &original[44..]);
}

#[test]
fn wide_original_takes_all_eight_bytes() {
    let reference = build(&[item(vec![Val::Str("a"), Val::Str(""), Val::Int(-7)])], 4);
    let original = build(&[item(vec![Val::Str("a"), Val::Str(""), Val::Int(0), Val::Int(0), Val::Int(512)])], 8);
    let table = parse_t2b(original.clone()).unwrap();
    assert_eq!(table.value_length, ValueLength::Long);
    let at = table.entries[0].values[4].offset;
    let (out, count) = synchronize(original.clone(), reference).unwrap();
    assert_eq!(count, 1);
    assert_eq!(read_i64(&out, at), Some(-7));
    assert_eq!(differing(&original, &out), (at..at + 8).collect::<Vec<_>>());
}

#[test]
fn short_rows_hold_the_size_last() {
    let reference = build(&[item(vec![Val::Str("a"), Val::Str(""), Val::Int(5)])], 4);
    let original = build(
        &[item(vec![Val::Str("a"), Val::Str(""), Val::Int(1)]), item(vec![Val::Str("a"), Val::NoStr, Val::Int(8), Val::Int(9)])],
        4,
    );
    let table = parse_t2b(original.clone()).unwrap();
    let (out, count) = synchronize(original, reference).unwrap();
    assert_eq!(count, 2);
    let patched = parse_t2b(out).unwrap();
    assert_eq!(patched.entries[0].values[2].data, ValueData::Int(5));
    assert_eq!(patched.entries[1].values[2].data, ValueData::Int(8));
    assert_eq!(patched.entries[1].values[3].data, ValueData::Int(5));
    assert_eq!(patched.entries[1].values[3].offset, table.entries[1].values[3].offset);
}

#[test]
fn target_that_is_no_integer_is_skipped() {
    let reference = build(&[item(vec![Val::Str("a"), Val::Str(""), Val::Int(5)]), item(vec![Val::Str("b"), Val::Str(""), Val::Int(6)])], 4);
    let original = build(
        &[
            item(vec![Val::Str("a"), Val::Str(""), Val::Int(1), Val::Int(2), Val::Float(3), Val::Int(4)]),
            item(vec![Val::Str("b"), Val::Str("")]),
            item(vec![Val::Str("b"), Val::Str(""), Val::Int(1), Val::Int(2), Val::Str("3")]),
        ],
        4,
    );
    let (out, count) = synchronize(original.clone(), reference).unwrap();
    assert_eq!(count, 0);
    assert_eq!(out, original);
}

#[test]
fn rows_of_other_names_are_left_alone() {
    let reference = build(&[item(vec![Val::Str("a"), Val::Str(""), Val::Int(5)])], 4);
    let original = build(
        &[
            row("CPK_ITEM2", vec![Val::Str("a"), Val::Str(""), Val::Int(0), Val::Int(0), Val::Int(1)]),
            row("cpk_item", vec![Val::Str("a"), Val::Str(""), Val::Int(0), Val::Int(0), Val::Int(1)]),
            item(vec![Val::NoStr, Val::Str("a"), Val::Int(0), Val::Int(0), Val::Int(1)]),
        ],
        4,
    );
    let (out, count) = synchronize(original.clone(), reference).unwrap();
    assert_eq!(count, 0);
    assert_eq!(out, original);
}

#[test]
fn the_key_of_the_original_joins_both_parts() {
    let reference = build(&[item(vec![Val::Str("data/a.bin"), Val::Str(""), Val::Int(5)])], 4);
    let original = build(
        &[
            item(vec![Val::Str("data/"), Val::Str("a.bin"), Val::Int(0), Val::Int(0), Val::Int(1)]),
            item(vec![Val::Str("data/a.bin"), Val::Str("x"), Val::Int(0), Val::Int(0), Val::Int(1)]),
        ],
        4,
    );
    let (out, count) = synchronize(original, reference).unwrap();
    assert_eq!(count, 1);
    let table = parse_t2b(out).unwrap();
    assert_eq!(table.entries[0].values[4].data, ValueData::Int(5));
    assert_eq!(table.entries[1].values[4].data, ValueData::Int(1));
}

#[test]
fn synchronising_twice_gives_the_same_bytes() {
    let reference = build(
        &[item(vec![Val::Str("a"), Val::Str(""), Val::Int(5)]), item(vec![Val::Str("c"), Val::Str(""), Val::Str("\"12\"")])],
        4,
    );
    let original = build(
        &[
            item(vec![Val::Str("a"), Val::Str(""), Val::Int(0), Val::Int(0), Val::Int(1)]),
            item(vec![Val::Str("b"), Val::Str(""), Val::Int(0), Val::Int(0), Val::Int(2)]),
            item(vec![Val::Str("c"), Val::Str(""), Val::Int(0), Val::Int(0), Val::Int(3)]),
        ],
        8,
    );
    let first = synchronize(original.clone(), reference.clone()).unwrap();
    let second = synchronize(original.clone(), reference.clone()).unwrap();
    assert_eq!(first, second);
    assert_eq!(first.1, 2);
    // and what was synchronised stays as it is
    let third = synchronize(first.0.clone(), reference).unwrap();
    assert_eq!(third.0, first.0);
}

#[test]
fn decoding_the_output_gives_the_same_table_but_for_the_sizes() {
    let reference = build(&[item(vec![Val::Str("b"), Val::Str(""), Val::Int(4096)])], 4);
    let original = build(
        &[
            row("HEAD", vec![Val::Int(2), Val::Str("v1"), Val::Float(0x4048_f5c3)]),
            item(vec![Val::Str("a"), Val::Str(""), Val::Int(0), Val::Int(0), Val::Int(1)]),
            item(vec![Val::Str("b"), Val::Str(""), Val::Int(0), Val::Int(0), Val::Int(2)]),
        ],
        4,
    );
    let before = parse_t2b(original.clone()).unwrap();
    let (out, count) = synchronize(original, reference).unwrap();
    assert_eq!(count, 1);
    let after = parse_t2b(out).unwrap();
    assert_eq!(after.value_length, before.value_length);
    assert_eq!(after.entries.len(), before.entries.len());
    for (i, (a, b)) in after.entries.iter().zip(before.entries.iter()).enumerate() {
        assert_eq!(a.name, b.name);
        assert_eq!(a.values.len(), b.values.len());
        for (k, (x, y)) in a.values.iter().zip(b.values.iter()).enumerate() {
            assert_eq!(x.typ, y.typ);
            assert_eq!(x.offset, y.offset);
            if (i, k) == (2, 4) {
                assert_eq!(x.data, ValueData::Int(4096));
            } else {
                assert_eq!(x.data, y.data);
            }
        }
    }
}

#[test]
fn a_written_size_can_change_how_the_output_is_read() {
    // with values of eight bytes the size 512 stands at 40, and the reading
    // with values of four bytes finds an entry without values there
    let original = build(
        &[item(vec![Val::Str("a"), Val::Str(""), Val::Int(512)]), row("B", vec![])],
        8,
    );
    let reference = build(&[item(vec![Val::Str("a"), Val::Str(""), Val::Int(5)])], 4);
    let table = parse_t2b(original.clone()).unwrap();
    assert_eq!(table.value_length, ValueLength::Long);
    assert_eq!(table.entries[0].values[2].offset, 40);
    let (out, count) = synchronize(original.clone(), reference).unwrap();
    assert_eq!(count, 1);
    assert_eq!(differing(&original, &out), vec![40, 41]);
    assert_eq!(read_i64(&out, 40), Some(5));
    // the size 5 reads as an entry with five values that ends where the
    // string data starts: now the reading with four bytes is valid
    assert_eq!(detect_value_length(&out, 2, 64), Some(ValueLength::Int));
    assert_eq!(parse_t2b(out), Err(FormatError::MissingName));
}

#[test]
fn apply_sizes_skips_a_write_that_would_leave_the_buffer() {
    let table = ParsedT2b {
        bytes: vec![0u8; 8],
        value_length: ValueLength::Int,
        entries: vec![
            Entry {
                name: "CPK_ITEM".to_string(),
                values: vec![
                    ValueField { typ: ValueType::String, data: text("a"), offset: 0 },
                    ValueField { typ: ValueType::Integer, data: ValueData::Int(0), offset: 5 },
                ],
            },
            Entry {
                name: "CPK_ITEM".to_string(),
                values: vec![
                    ValueField { typ: ValueType::String, data: text("a"), offset: 0 },
                    ValueField { typ: ValueType::Integer, data: ValueData::Int(0), offset: 4 },
                ],
            },
        ],
    };
    let mut sizes = SizeMap::new();
    sizes.insert("a".to_string(), 0x0102_0304, ValueLength::Int);
    let (out, count) = apply_sizes(&table, &sizes);
    assert_eq!(count, 1);
    assert_eq!(out, vec![0, 0, 0, 0, 4, 3, 2, 1]);
}
