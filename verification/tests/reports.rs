//! Reports on bytes, and the texts in them.

use elf_rewrite::text::{
    comes_before, decimal_text, get_string_at, hex_text, padded_hex_text, same_text, split_colons,
};
use elf_rewrite::writer_debug::{
    compare_bytes, get_section_name, hex_dump, validate_elf_structure, ProgramHeaderDebugInfo,
    SectionDebugInfo,
};

#[test]
fn numbers_are_written_out() {
    assert_eq!(decimal_text(0), "0");
    assert_eq!(decimal_text(1234567890), "1234567890");
    assert_eq!(decimal_text(u64::MAX), "18446744073709551615");
    assert_eq!(hex_text(0), "0");
    assert_eq!(hex_text(0xdeadbeef), "deadbeef");
    assert_eq!(padded_hex_text(0xf, 2), "0f");
    assert_eq!(padded_hex_text(0x123, 2), "123");
    assert_eq!(padded_hex_text(7, 8), "00000007");
}

#[test]
fn strings_end_at_a_zero_byte() {
    assert_eq!(get_string_at(b"abc\0def", 0), "abc");
    assert_eq!(get_string_at(b"abc\0def", 4), "def");
    assert_eq!(get_string_at(b"abc\0def", 3), "");
    assert_eq!(get_string_at(b"abc\0def", 7), "");
    assert_eq!(get_string_at(b"abc\0def", 100), "");
    assert_eq!(get_string_at("grün\0".as_bytes(), 0), "grün");
}

#[test]
fn bytes_that_are_no_text_are_repaired() {
    assert_eq!(get_string_at(b"a\xffb\0", 0), "a\u{fffd}b");
    assert_eq!(get_string_at(b"\xe2\x9c\0", 0), "\u{fffd}");
}

#[test]
fn texts_are_compared_by_their_bytes() {
    assert!(same_text("libc", "libc"));
    assert!(!same_text("libc", "libm"));
    assert!(!same_text("lib", "libc"));
    assert!(comes_before(".dynamic", ".dynstr"));
    assert!(comes_before("lib", "libc"));
    assert!(!comes_before("libc", "libc"));
    assert!(!comes_before("z", "a"));
}

#[test]
fn paths_are_split_at_colons() {
    assert_eq!(split_colons("/a:/b"), vec!["/a", "/b"]);
    assert_eq!(split_colons(""), vec![""]);
    assert_eq!(split_colons(":x:"), vec!["", "x", ""]);
    assert_eq!(split_colons(":x:").join(":"), ":x:");
    assert_eq!(split_colons("ü:ß"), vec!["ü", "ß"]);
}

#[test]
fn equal_bytes_are_reported_identical() {
    assert_eq!(compare_bytes(b"abc", b"abc", "x"), vec!["x: ✓ Identical"]);
    assert_eq!(compare_bytes(b"", b"", ""), vec![": ✓ Identical"]);
}

#[test]
fn different_bytes_are_reported() {
    assert_eq!(
        compare_bytes(b"\x00\x01\xff", b"\x00\x02\x0f\x00", "ctx"),
        vec![
            "ctx: Length mismatch: 3 vs 4 bytes",
            "ctx: Byte diff at offset 0x1: 0x01 vs 0x02",
            "ctx: Byte diff at offset 0x2: 0xff vs 0x0f",
        ]
    );
    assert_eq!(compare_bytes(b"ab", b"abc", "c"), vec!["c: Length mismatch: 2 vs 3 bytes"]);
}

#[test]
fn only_ten_differences_have_lines() {
    let a = vec![0u8; 40];
    let mut b = vec![1u8; 40];
    let report = compare_bytes(&a, &b, "c");
    assert_eq!(report.len(), 11);
    assert_eq!(report[0], "c: Byte diff at offset 0x0: 0x00 vs 0x01");
    assert_eq!(report[9], "c: Byte diff at offset 0x9: 0x00 vs 0x01");
    assert_eq!(report[10], "c: ... and 30 more differences (last at 0x27)");
    for x in b.iter_mut().skip(10) {
        *x = 0;
    }
    assert_eq!(compare_bytes(&a, &b, "c").len(), 10);
}

#[test]
fn a_dump_has_sixteen_bytes_to_a_line() {
    let data: Vec<u8> = (0x38..0x4d).collect();
    assert_eq!(
        hex_dump(&data, 1, 100, "data"),
        vec![
            "=== data ===",
            "00000001: 39 3a 3b 3c 3d 3e 3f 40  41 42 43 44 45 46 47 48  |9:;<=>?@ABCDEFGH|",
            "00000011: 49 4a 4b 4c                                      |IJKL|",
        ]
    );
}

#[test]
fn a_dump_shows_dots_and_may_be_empty() {
    assert_eq!(
        hex_dump(b"\x00A\x7f~ ", 0, 5, "l"),
        vec![
            "=== l ===",
            "00000000: 00 41 7f 7e 20                                   |.A.~ |",
        ]
    );
    assert_eq!(hex_dump(b"abc", 3, 5, "l"), vec!["=== l ==="]);
    assert_eq!(hex_dump(b"abc", 9, 0, "l"), vec!["=== l ==="]);
    assert_eq!(
        hex_dump(b"abcdefghi", 0, 9, "l")[1],
        "00000000: 61 62 63 64 65 66 67 68  69                       |abcdefghi|"
    );
}

#[test]
fn the_identification_is_validated() {
    assert_eq!(validate_elf_structure(&[0; 63]), vec!["File too small to be valid ELF"]);
    let mut data = vec![0u8; 64];
    assert_eq!(
        validate_elf_structure(&data),
        vec!["Invalid ELF magic number", "✗ Invalid ELF class: 0", "✗ Invalid endianness: 0"]
    );
    data[..6].copy_from_slice(b"\x7fELF\x01\x02");
    assert_eq!(
        validate_elf_structure(&data),
        vec!["✓ Valid ELF magic", "✓ ELF32", "✓ Big endian"]
    );
    data[..6].copy_from_slice(b"\x7fELF\x02\x01");
    assert_eq!(
        validate_elf_structure(&data),
        vec!["✓ Valid ELF magic", "✓ ELF64", "✓ Little endian"]
    );
}

#[test]
fn section_names_are_read_from_their_table() {
    let data = b"....\0.text\0.data";
    assert_eq!(get_section_name(data, 4, 1), ".text");
    assert_eq!(get_section_name(data, 4, 7), ".data");
    assert_eq!(get_section_name(data, 4, 0), "");
    assert_eq!(get_section_name(data, 4, 0x1f), "<invalid offset 0x1f>");
}

#[test]
fn debug_information_can_be_shown() {
    let section = SectionDebugInfo {
        index: 1,
        name: ".text".to_string(),
        offset: 2,
        size: 3,
        type_: 4,
        flags: 5,
        addr: 6,
    };
    assert_eq!(format!("{:?}", section.clone()), format!("{:?}", section));
    let header = ProgramHeaderDebugInfo {
        index: 1,
        type_: 2,
        offset: 3,
        vaddr: 4,
        paddr: 5,
        filesz: 6,
        memsz: 7,
        flags: 8,
        align: 9,
    };
    assert_eq!(header.clone().align, 9);
}
