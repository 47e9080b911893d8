use podpacker::render::{array_decl, header, hex_byte, hex_levels, hex_record, raw_bytes};

#[test]
fn byte_is_written_in_capitals_without_leading_zero() {
    assert_eq!(hex_byte(0x00), "0x0");
    assert_eq!(hex_byte(0x09), "0x9");
    assert_eq!(hex_byte(0x0A), "0xA");
    assert_eq!(hex_byte(0x0F), "0xF");
    assert_eq!(hex_byte(0x10), "0x10");
    assert_eq!(hex_byte(0xA3), "0xA3");
    assert_eq!(hex_byte(0xFF), "0xFF");
}

#[test]
fn every_byte_is_written_as_upper_hex() {
    for byte in 0u8..=255 {
        assert_eq!(hex_byte(byte), format!("0x{:X}", byte));
    }
}

#[test]
fn record_is_written_with_commas_between_bytes() {
    let mut record = [0u8; 33];
    for i in 0..33 {
        record[i] = (i * 8) as u8;
    }
    let parts: Vec<String> = record.iter().map(|byte| format!("0x{:X}", byte)).collect();
    assert_eq!(hex_record(&record), parts.join(", "));
    assert!(hex_record(&record).starts_with("0x0, 0x8, 0x10, 0x18, "));
    assert!(hex_record(&record).ends_with(", 0xF8, 0x0"));
}

#[test]
fn each_record_becomes_one_row() {
    assert_eq!(hex_levels(&vec![]), Vec::<String>::new());
    let rows = hex_levels(&vec![[0xABu8; 33], [1u8; 33]]);
    assert_eq!(rows, vec![hex_record(&[0xABu8; 33]), hex_record(&[1u8; 33])]);
    assert_eq!(rows[1], vec!["0x1"; 33].join(", "));
}

#[test]
fn header_names_the_count() {
    assert_eq!(
        header(3),
        "// This file was generated by podpacker, DO NOT EDIT\n\n#ifndef _CHUNKS_H\n#define _CHUNKS_H\n\nextern const UINT8 CHUNKS[][];\n#define CHUNK_COUNT 3\n\n\n#endif\n"
    );
}

#[test]
fn header_writes_the_count_in_base_ten() {
    for count in [0usize, 9, 10, 11, 99, 100, 101, 1234567890, usize::MAX] {
        let text = header(count);
        assert!(text.contains(&format!("#define CHUNK_COUNT {}\n", count)));
        assert!(text.starts_with("// This file was generated by podpacker, DO NOT EDIT\n\n"));
        assert!(text.ends_with("\n\n\n#endif\n"));
    }
}

#[test]
fn array_of_no_rows_is_empty_between_braces() {
    assert_eq!(
        array_decl(vec![]),
        "// This file was auto-generated by podpacker. DO NOT EDIT.\n#include <types.h>\n\nconst UINT8 CHUNKS[][] = {  };"
    );
}

#[test]
fn array_holds_each_row_between_braces() {
    assert_eq!(
        array_decl(vec![String::from("0x1, 0x2"), String::from("0xFF")]),
        "// This file was auto-generated by podpacker. DO NOT EDIT.\n#include <types.h>\n\nconst UINT8 CHUNKS[][] = { { 0x1, 0x2 },\n{ 0xFF },\n };"
    );
}

#[test]
fn raw_form_lays_records_end_to_end() {
    assert_eq!(raw_bytes(&vec![]), Vec::<u8>::new());
    let mut first = [0u8; 33];
    let mut second = [0u8; 33];
    for i in 0..33 {
        first[i] = i as u8;
        second[i] = 100 + i as u8;
    }
    let raw = raw_bytes(&vec![first, second]);
    assert_eq!(raw.len(), 66);
    for i in 0..33 {
        assert_eq!(raw[i], i as u8);
        assert_eq!(raw[33 + i], 100 + i as u8);
    }
}
