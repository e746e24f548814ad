use pazifista::stringtable::{
    inspect_stringtable_bss, parse_stringtable_index_sections, parse_stringtable_text_entries,
    StringtableError,
};

fn u32le(out: &mut Vec<u8>, v: u32) {
    out.extend_from_slice(&v.to_le_bytes());
}

fn utf16le(out: &mut Vec<u8>, units: &[u16]) {
    for u in units {
        out.extend_from_slice(&u.to_le_bytes());
    }
}

fn sample_table() -> Vec<u8> {
    let mut b = b"PABR".to_vec();
    u32le(&mut b, 1);
    // section 0: hash, start id, two rows
    u32le(&mut b, 0xdead_beef);
    u32le(&mut b, 5);
    u32le(&mut b, 2);
    for (hash, first, second) in [(1u32, 0u32, 1u32), (0x2a, 1, 7)] {
        u32le(&mut b, hash);
        u32le(&mut b, first);
        u32le(&mut b, second);
        u32le(&mut b, 0);
    }
    // two texts
    u32le(&mut b, 2);
    b.push(1);
    u32le(&mut b, 4);
    utf16le(&mut b, &[0x41, 0x42]);
    b.push(2);
    u32le(&mut b, 8);
    utf16le(&mut b, &[0x78, 0xd83d, 0xde00, 0xdc00]);
    b
}

#[test]
fn stringtable_sections_and_rows_are_read_in_order() {
    let bytes = sample_table();
    let sections = parse_stringtable_index_sections(&bytes, 1).expect("sections");
    assert_eq!(sections.len(), 1);
    let s = &sections[0].summary;
    assert_eq!(s.header_offset, 8);
    assert_eq!(s.header_hash_hex, "0xdeadbeef");
    assert_eq!(s.start_id, 5);
    assert_eq!(s.row_count, 2);
    assert_eq!(s.payload_offset, 20);
    assert_eq!(s.payload_end_offset, 52);
    let row = sections[0].rows[1];
    assert_eq!((row.row_index, row.row_offset, row.hash, row.first_id, row.second_id), (1, 36, 0x2a, 1, 7));
}

#[test]
fn stringtable_texts_decode_utf16_with_replacement() {
    let bytes = sample_table();
    let entries = parse_stringtable_text_entries(&bytes, 56, 2).expect("texts");
    assert_eq!(entries[0].text, "AB");
    assert_eq!((entries[0].offset, entries[0].tag, entries[0].byte_len), (56, 1, 4));
    assert_eq!(entries[1].text, "x\u{1f600}\u{fffd}");
    assert_eq!((entries[1].string_id, entries[1].offset, entries[1].byte_len), (1, 65, 8));
}

#[test]
fn stringtable_inspection_reports_focus_ids() {
    let bytes = sample_table();
    let ins = inspect_stringtable_bss(&bytes, &[1, 7, 9], Some("out.json")).expect("inspection");
    assert_eq!(ins.summary.header_section_count, 1);
    assert_eq!(ins.summary.total_index_row_count, 2);
    assert_eq!(ins.summary.text_entry_count, 2);
    assert_eq!(ins.summary.focus_entry_count, 1);
    assert_eq!(ins.summary.missing_focus_entry_count, 2);
    assert_eq!(ins.summary.output_path.as_deref(), Some("out.json"));
    assert_eq!(ins.trailing_text_count_offset, 52);
    assert_eq!(ins.trailing_text_payload_offset, 56);
    assert_eq!(ins.trailing_text_end_offset, bytes.len());
    assert_eq!(ins.missing_focus_string_ids, vec![7, 9]);
    let first = &ins.focus_entries[0];
    assert_eq!(first.entry.as_ref().map(|e| e.text.as_str()), Some("x\u{1f600}\u{fffd}"));
    let rows: Vec<usize> = first.referenced_by_rows.iter().map(|r| r.row_index).collect();
    assert_eq!(rows, vec![0, 1]);
    assert_eq!(ins.focus_entries[1].referenced_by_rows.len(), 1);
    assert_eq!(ins.focus_entries[1].referenced_by_rows[0].hash_hex, "0x0000002a");
    assert!(ins.focus_entries[2].entry.is_none());
    assert!(ins.focus_entries[2].referenced_by_rows.is_empty());
}

#[test]
fn stringtable_errors_name_the_first_fault() {
    assert_eq!(inspect_stringtable_bss(b"PABR", &[], None).unwrap_err(), StringtableError::TooSmall);
    assert_eq!(
        inspect_stringtable_bss(b"XABR\0\0\0\0\0\0\0\0", &[], None).unwrap_err(),
        StringtableError::MissingMagic
    );
    let mut bytes = sample_table();
    bytes[32] = 1; // trailer of row 0
    assert_eq!(
        inspect_stringtable_bss(&bytes, &[], None).unwrap_err(),
        StringtableError::NonZeroRowTrailer(0, 0, 1)
    );
    let mut bytes = sample_table();
    bytes[16] = 9; // row count 9 runs past the end
    assert_eq!(
        parse_stringtable_index_sections(&bytes, 1).unwrap_err(),
        StringtableError::SectionOutOfBounds(0)
    );
    let bytes = sample_table();
    assert_eq!(
        parse_stringtable_index_sections(&bytes[..12], 1).unwrap_err(),
        StringtableError::SectionHeaderTruncated(0)
    );
    assert_eq!(
        inspect_stringtable_bss(&bytes[..54], &[], None).unwrap_err(),
        StringtableError::TextCountTruncated
    );
    let mut odd = sample_table();
    odd[57] = 3;
    assert_eq!(
        parse_stringtable_text_entries(&odd, 56, 1).unwrap_err(),
        StringtableError::OddTextLength(0)
    );
    assert_eq!(
        parse_stringtable_text_entries(&bytes, 56, 3).unwrap_err(),
        StringtableError::TextTagTruncated(2)
    );
    assert_eq!(
        parse_stringtable_text_entries(&bytes[..67], 56, 2).unwrap_err(),
        StringtableError::TextLengthTruncated(1)
    );
    assert_eq!(
        parse_stringtable_text_entries(&bytes[..70], 56, 2).unwrap_err(),
        StringtableError::TextOutOfBounds(1)
    );
}
