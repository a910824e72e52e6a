use dbf2csv::{
    convert_dbf_bytes, get_record_as_csv, get_field_content_as_string, get_field_header_as_csv, get_fields,
    memo_block_number, DbfError, DbfHeader, FieldKind, MemoFileType, MemoHeader, MemoResolver,
};

fn descriptor(name: &str, tag: u8, displacement: u32, length: u8) -> Vec<u8> {
    let mut d = vec![0u8; 32];
    d[..name.len()].copy_from_slice(name.as_bytes());
    d[11] = tag;
    d[12..16].copy_from_slice(&displacement.to_le_bytes());
    d[16] = length;
    d
}

fn table(fields: &[Vec<u8>], record_len: u16, records: &[Vec<u8>], language: u8) -> Vec<u8> {
    let header_len = (32 + 32 * fields.len() + 1) as u16;
    let mut t = vec![0u8; 32];
    t[0] = 0x03;
    t[1] = 123;
    t[2] = 4;
    t[3] = 5;
    t[4..8].copy_from_slice(&(records.len() as u32).to_le_bytes());
    t[8..10].copy_from_slice(&header_len.to_le_bytes());
    t[10..12].copy_from_slice(&record_len.to_le_bytes());
    t[29] = language;
    for f in fields {
        t.extend_from_slice(f);
    }
    t.push(0x0D);
    for r in records {
        assert_eq!(r.len(), record_len as usize);
        t.extend_from_slice(r);
    }
    t
}

fn record(flag: u8, body: &[u8]) -> Vec<u8> {
    let mut r = vec![flag];
    r.extend_from_slice(body);
    r
}

fn field(raw: &[u8], tag: char) -> String {
    get_field_content_as_string(raw, tag, &MemoResolver::new(None)).unwrap()
}

fn fixed_block_memo(block: usize, blob: &[u8], terminated: bool) -> Vec<u8> {
    let mut m = vec![0u8; 512 * block];
    m.extend_from_slice(blob);
    if terminated {
        m.push(0x1A);
        m.push(0x1A);
    }
    m
}

fn prefixed_memo(block_size: u16, block: usize, blob: &[u8]) -> Vec<u8> {
    let mut m = vec![0u8; 512.max(block * block_size as usize)];
    m[6..8].copy_from_slice(&block_size.to_be_bytes());
    m.truncate(block * block_size as usize);
    m.extend_from_slice(&[0, 0, 0, 1]);
    m.extend_from_slice(&(blob.len() as u32).to_be_bytes());
    m.extend_from_slice(blob);
    m.extend_from_slice(b"trailing bytes");
    m
}

#[test]
fn zero_record_table_has_header_line_only() {
    let t = table(&[descriptor("NAME", b'C', 1, 4), descriptor("AGE", b'N', 5, 3)], 8, &[], 3);
    let out = convert_dbf_bytes(&t, None).unwrap();
    assert_eq!(out.active, "NAME;AGE\r\n");
    assert!(out.deleted.is_none());
}

#[test]
fn header_fields_are_read() {
    let t = table(&[descriptor("NAME", b'C', 1, 4)], 5, &[record(b' ', b"abcd")], 3);
    let h = DbfHeader::new(&t);
    assert_eq!(h.version, 3);
    assert_eq!(h.last_update, "5.4.2023");
    assert_eq!(h.records, 1);
    assert_eq!(h.bytes_header, 65);
    assert_eq!(h.bytes_record, 5);
    assert_eq!(h.language, 3);
    assert!(h.bytes_record > 0 && h.bytes_header >= 32);
}

#[test]
fn date_is_reordered() {
    assert_eq!(field(b"20230405", 'D'), "05.04.2023");
}

#[test]
fn date_of_other_length_is_empty() {
    assert_eq!(field(b"2023045 ", 'D'), "");
    assert_eq!(field(b"        ", 'D'), "");
    assert_eq!(field(b"202304051", 'D'), "");
}

#[test]
fn date_between_blanks_is_reordered() {
    assert_eq!(field(b" 19991231 ", 'D'), "31.12.1999");
}

#[test]
fn logical_values() {
    assert_eq!(field(b"Y", 'L'), "true");
    assert_eq!(field(b"t", 'L'), "true");
    assert_eq!(field(b"n", 'L'), "false");
    assert_eq!(field(b"F", 'L'), "false");
    assert_eq!(field(b" ", 'L'), "");
    assert_eq!(field(b"?", 'L'), "");
}

#[test]
fn integer_is_little_endian_decimal() {
    assert_eq!(field(&[0x01, 0x00, 0x00, 0x00], 'I'), "1");
    assert_eq!(field(&[0x00, 0x01, 0x00, 0x00], 'I'), "256");
    assert_eq!(field(&[0xFF, 0xFF, 0xFF, 0xFF], 'I'), "4294967295");
    assert_eq!(field(&[0x00, 0x00, 0x00, 0x00], 'I'), "0");
}

#[test]
fn integer_of_other_width_is_empty() {
    assert_eq!(field(&[0x01, 0x00], 'I'), "");
}

#[test]
fn character_field_is_decoded_as_windows_1252() {
    assert_eq!(field(b"abc ", 'C'), "abc ");
    assert_eq!(field(&[0x80, b'1', 0xE4], 'C'), "\u{20AC}1\u{E4}");
    assert_eq!(field(b"12.50", 'N'), "12.50");
}

#[test]
fn unsupported_types_give_placeholders() {
    assert_eq!(field(b"1.5", 'F'), "missing implementation for float");
    assert_eq!(field(b"12345678", 'T'), "missing implementation for time");
    assert_eq!(field(b"12345678", 'Y'), "missing implementation for currency");
    assert_eq!(field(b"12345678", 'B'), "missing implementation for double");
    assert_eq!(field(b"12345678", 'O'), "missing implementation for double");
    assert_eq!(field(b"1234", 'G'), "missing implementation for general");
    assert_eq!(field(b"1234", 'P'), "missing implementation for picture");
    assert_eq!(field(b"1234", '+'), "missing implementation for autoinc");
    assert_eq!(field(b"12345678", '@'), "missing implementation for timestamp");
    assert_eq!(field(b"abc", 'V'), "missing implementation for varchar");
    assert_eq!(field(b"abc", 'X'), "missing implementation unknown fieldtype");
}

#[test]
fn field_kinds_from_tags() {
    assert_eq!(FieldKind::from_tag('C'), FieldKind::Character);
    assert_eq!(FieldKind::from_tag('M'), FieldKind::Memo);
    assert_eq!(FieldKind::from_tag('O'), FieldKind::Double);
    assert_eq!(FieldKind::from_tag('z'), FieldKind::Unknown);
}

#[test]
fn memo_index_zero_is_empty() {
    let memo = MemoResolver::new(Some(fixed_block_memo(1, b"text", true)));
    assert_eq!(get_field_content_as_string(&[0, 0, 0, 0], 'M', &memo).unwrap(), "");
    assert_eq!(field(&[0, 0, 0, 0], 'M'), "");
}

#[test]
fn memo_without_memo_file_is_placeholder() {
    assert_eq!(field(&[3, 0, 0, 0], 'M'), "memofile missing");
}

#[test]
fn memo_with_memo_file_is_quoted_blob() {
    let memo = MemoResolver::new(Some(fixed_block_memo(2, b"hello; world", true)));
    assert_eq!(get_field_content_as_string(&[2, 0, 0, 0], 'M', &memo).unwrap(), "\"hello; world\"");
}

#[test]
fn fixed_block_blob_ends_before_first_marker() {
    let mut m = fixed_block_memo(1, b"first", true);
    m.extend_from_slice(b"more");
    let memo = MemoResolver::new(Some(m));
    assert_eq!(memo.resolve(1).unwrap(), "first");
    assert_eq!(memo.resolve(0).unwrap(), "");
}

#[test]
fn fixed_block_blob_without_marker_is_malformed() {
    let memo = MemoResolver::new(Some(fixed_block_memo(1, b"open ended", false)));
    assert_eq!(memo.resolve(1), Err(DbfError::MalformedMemoBlock));
}

#[test]
fn memo_block_past_end_is_malformed() {
    let memo = MemoResolver::new(Some(fixed_block_memo(1, b"x", true)));
    assert_eq!(memo.resolve(2), Err(DbfError::MalformedMemoBlock));
    assert_eq!(
        get_field_content_as_string(&[9, 0, 0, 0], 'M', &memo),
        Err(DbfError::MalformedMemoBlock)
    );
}

#[test]
fn length_prefixed_blob_has_declared_length() {
    let memo = MemoResolver::new(Some(prefixed_memo(64, 9, b"prefixed\x1Ablob")));
    assert_eq!(memo.resolve(9).unwrap(), "prefixed\u{1A}blob");
    assert_eq!(get_field_content_as_string(&[9, 0, 0, 0], 'M', &memo).unwrap(), "\"prefixed\u{1A}blob\"");
}

#[test]
fn length_prefixed_blob_past_end_is_malformed() {
    let mut m = prefixed_memo(64, 9, b"abc");
    m.truncate(64 * 9 + 8 + 2);
    let memo = MemoResolver::new(Some(m));
    assert_eq!(memo.resolve(9), Err(DbfError::MalformedMemoBlock));
    assert_eq!(memo.resolve(100), Err(DbfError::MalformedMemoBlock));
}

#[test]
fn memo_header_dialects() {
    let new = prefixed_memo(64, 9, b"");
    let h = MemoHeader::new(&new);
    assert_eq!(h.memo_type, MemoFileType::New);
    assert_eq!(h.block_size, 64);
    let mut old = vec![0u8; 512];
    old[20] = 0x00;
    old[21] = 0x02;
    let h = MemoHeader::new(&old);
    assert_eq!(h.memo_type, MemoFileType::Old);
    assert_eq!(h.block_size, 512);
}

#[test]
fn legacy_decimal_memo_index() {
    assert_eq!(memo_block_number(b"        12"), 12);
    assert_eq!(memo_block_number(b"  +7\0\0    "), 7);
    assert_eq!(memo_block_number(b"      12ab"), 0);
    assert_eq!(memo_block_number(b"          "), 0);
    assert_eq!(memo_block_number(b"4294967296"), 0);
    assert_eq!(memo_block_number(b"4294967295"), 4294967295);
    assert_eq!(memo_block_number(&[5, 0, 0, 0]), 5);
    let memo = MemoResolver::new(Some(fixed_block_memo(1, b"legacy", true)));
    assert_eq!(get_field_content_as_string(b"         1", 'M', &memo).unwrap(), "\"legacy\"");
}

#[test]
fn records_are_routed_by_delete_flag() {
    let t = table(
        &[descriptor("NAME", b'C', 1, 3)],
        4,
        &[record(b' ', b"one"), record(b'*', b"two"), record(b' ', b"six"), record(b'x', b"ten")],
        3,
    );
    let out = convert_dbf_bytes(&t, None).unwrap();
    assert_eq!(out.active, "NAME\r\none\r\nsix\r\n");
    assert_eq!(out.deleted.unwrap(), "NAME\r\ntwo\r\nten\r\n");
}

#[test]
fn full_record_line() {
    let t = table(
        &[
            descriptor("NAME", b'C', 1, 4),
            descriptor("BORN", b'D', 5, 8),
            descriptor("OK", b'L', 13, 1),
            descriptor("COUNT", b'I', 14, 4),
            descriptor("NOTE", b'M', 18, 4),
            descriptor("PRICE", b'Y', 22, 8),
        ],
        30,
        &[record(b' ', b"Anna20230405T\x07\x00\x00\x00\x01\x00\x00\x0012345678")],
        3,
    );
    let memo = fixed_block_memo(1, b"a note", true);
    let out = convert_dbf_bytes(&t, Some(memo)).unwrap();
    assert_eq!(
        out.active,
        "NAME;BORN;OK;COUNT;NOTE;PRICE\r\nAnna;05.04.2023;true;7;\"a note\";missing implementation for currency\r\n"
    );
    assert!(out.deleted.is_none());
}

#[test]
fn missing_displacements_are_filled_in() {
    let absent = table(
        &[descriptor("A", b'C', 0, 2), descriptor("B", b'C', 0, 3), descriptor("C", b'C', 0, 1)],
        7,
        &[],
        3,
    );
    let given = table(
        &[descriptor("A", b'C', 1, 2), descriptor("B", b'C', 3, 3), descriptor("C", b'C', 6, 1)],
        7,
        &[],
        3,
    );
    let a = get_fields(&absent).unwrap();
    let g = get_fields(&given).unwrap();
    let da: Vec<u32> = a.iter().map(|f| f.displacement).collect();
    let dg: Vec<u32> = g.iter().map(|f| f.displacement).collect();
    assert_eq!(da, vec![1, 3, 6]);
    assert_eq!(da, dg);
    assert_eq!(get_field_header_as_csv(&a), get_field_header_as_csv(&g));
    assert_eq!(get_field_header_as_csv(&a), "A;B;C\r\n");
}

#[test]
fn field_names_skip_zero_bytes() {
    let t = table(&[descriptor("AB\0CD", b'C', 1, 1)], 2, &[], 3);
    let f = get_fields(&t).unwrap();
    assert_eq!(f[0].fieldname, "ABCD");
    assert_eq!(f[0].fieldtype, 'C');
    assert_eq!(f[0].length, 1);
}

#[test]
fn zero_fields_is_valid() {
    let t = table(&[], 1, &[record(b' ', b"")], 3);
    assert_eq!(get_fields(&t).unwrap().len(), 0);
    let out = convert_dbf_bytes(&t, None).unwrap();
    assert_eq!(out.active, "\r\n\r\n");
}

#[test]
fn decoding_twice_gives_same_output() {
    let t = table(
        &[descriptor("NAME", b'C', 1, 3), descriptor("NOTE", b'M', 4, 4)],
        8,
        &[record(b' ', b"one\x01\0\0\0"), record(b'*', b"two\0\0\0\0")],
        3,
    );
    let memo = fixed_block_memo(1, b"memo text", true);
    let a = convert_dbf_bytes(&t, Some(memo.clone())).unwrap();
    let b = convert_dbf_bytes(&t, Some(memo)).unwrap();
    assert_eq!(a.active, b.active);
    assert_eq!(a.deleted, b.deleted);
    assert_eq!(a.active, "NAME;NOTE\r\none;\"memo text\"\r\n");
}

#[test]
fn dos_code_page_is_remapped() {
    let t = table(&[descriptor("NAME", b'C', 1, 3)], 4, &[record(b' ', &[0x84, 0x94, 0x81])], 0x10);
    let out = convert_dbf_bytes(&t, None).unwrap();
    assert_eq!(out.active, "NAME\r\n\u{E4}\u{F6}\u{FC}\r\n");
}

#[test]
fn other_code_page_is_not_remapped() {
    let t = table(&[descriptor("NAME", b'C', 1, 1)], 2, &[record(b' ', &[0x84])], 0x03);
    let out = convert_dbf_bytes(&t, None).unwrap();
    assert_eq!(out.active, "NAME\r\n\u{201E}\r\n");
}

#[test]
fn short_buffer_is_truncated_header() {
    assert_eq!(convert_dbf_bytes(&[0u8; 31], None).err(), Some(DbfError::TruncatedHeader));
    assert_eq!(get_fields(&[0u8; 10]).err(), Some(DbfError::TruncatedHeader));
}

#[test]
fn missing_terminator_is_truncated_header() {
    let mut t = table(&[descriptor("NAME", b'C', 1, 3)], 4, &[], 3);
    t.truncate(64);
    assert_eq!(convert_dbf_bytes(&t, None).err(), Some(DbfError::TruncatedHeader));
}

#[test]
fn descriptors_past_header_length_are_truncated_header() {
    let mut t = table(&[descriptor("NAME", b'C', 1, 3)], 4, &[], 3);
    t[8] = 40;
    assert_eq!(convert_dbf_bytes(&t, None).err(), Some(DbfError::TruncatedHeader));
}

#[test]
fn record_area_past_end_is_truncated() {
    let mut t = table(&[descriptor("NAME", b'C', 1, 3)], 4, &[record(b' ', b"one")], 3);
    t[4] = 2;
    assert_eq!(convert_dbf_bytes(&t, None).err(), Some(DbfError::TruncatedRecordArea));
}

#[test]
fn zero_record_length_is_truncated() {
    let t = table(&[], 0, &[], 3);
    assert_eq!(convert_dbf_bytes(&t, None).err(), Some(DbfError::TruncatedRecordArea));
}

#[test]
fn field_past_record_end_is_truncated() {
    let t = table(&[descriptor("NAME", b'C', 1, 9)], 4, &[record(b' ', b"one")], 3);
    assert_eq!(convert_dbf_bytes(&t, None).err(), Some(DbfError::TruncatedRecordArea));
}

#[test]
fn bad_memo_block_fails_the_table() {
    let t = table(&[descriptor("NOTE", b'M', 1, 4)], 5, &[record(b'*', &[7, 0, 0, 0])], 3);
    let memo = fixed_block_memo(1, b"x", true);
    assert_eq!(convert_dbf_bytes(&t, Some(memo)).err(), Some(DbfError::MalformedMemoBlock));
}

#[test]
fn streams_are_encoded_in_windows_1252() {
    let t = table(
        &[descriptor("NAME", b'C', 1, 2)],
        3,
        &[record(b' ', &[0xE4, 0x80]), record(b'*', b"ok")],
        3,
    );
    let out = convert_dbf_bytes(&t, None).unwrap();
    assert_eq!(out.active, "NAME\r\n\u{E4}\u{20AC}\r\n");
    assert_eq!(out.active_bytes(), b"NAME\r\n\xE4\x80\r\n".to_vec());
    assert_eq!(out.deleted_bytes().unwrap(), b"NAME\r\nok\r\n".to_vec());
}

#[test]
fn no_deleted_bytes_without_deleted_records() {
    let t = table(&[descriptor("NAME", b'C', 1, 2)], 3, &[record(b' ', b"ok")], 3);
    let out = convert_dbf_bytes(&t, None).unwrap();
    assert!(out.deleted_bytes().is_none());
}

#[test]
fn record_line_keeps_empty_fields() {
    let t = table(
        &[descriptor("A", b'C', 1, 1), descriptor("B", b'L', 2, 1), descriptor("C", b'C', 3, 1)],
        4,
        &[],
        3,
    );
    let fields = get_fields(&t).unwrap();
    let line = get_record_as_csv(b" x?z", &fields, &MemoResolver::new(None)).unwrap();
    assert_eq!(line, "x;;z\r\n");
}

#[test]
fn memo_file_shorter_than_its_header_has_no_blocks() {
    let memo = MemoResolver::new(Some(vec![0, 0, 0, 0, 0, 0, 0, 64, 0x1A]));
    assert_eq!(memo.resolve(1), Err(DbfError::MalformedMemoBlock));
    assert_eq!(memo.resolve(0).unwrap(), "");
}

#[test]
fn terminator_at_offset_32_is_an_empty_schema() {
    let mut bytes = vec![0u8; 32];
    bytes.push(0x0D);
    assert!(get_fields(&bytes).unwrap().is_empty());
}

#[test]
fn descriptor_scan_ignores_declared_header_length() {
    let mut t = table(&[descriptor("NAME", b'C', 1, 3), descriptor("AGE", b'N', 4, 2)], 6, &[], 3);
    t[8] = 40;
    t[9] = 0;
    let f = get_fields(&t).unwrap();
    assert_eq!(f.len(), 2);
    assert_eq!(f[1].fieldname, "AGE");
    assert_eq!(f[1].displacement, 4);
}

#[test]
fn fallback_counts_all_earlier_fields() {
    let t = table(
        &[descriptor("A", b'C', 1, 2), descriptor("B", b'C', 0, 3), descriptor("C", b'C', 0, 4)],
        10,
        &[],
        3,
    );
    let f = get_fields(&t).unwrap();
    let d: Vec<u32> = f.iter().map(|x| x.displacement).collect();
    assert_eq!(d, vec![1, 3, 6]);
}
