//! Files are built, modified, written and read again.

use elf_rewrite::rewrite::ElfMut;
use elf_rewrite::types::Error;

const PT_LOAD: u64 = 1;
const PT_DYNAMIC: u64 = 2;
const PT_INTERP: u64 = 3;
const PT_NOTE: u64 = 4;
const PT_PHDR: u64 = 6;

/// The class and byte order of a file to be built.
#[derive(Clone, Copy)]
struct Kind {
    wide: bool,
    little: bool,
}

const KINDS: [Kind; 4] = [
    Kind { wide: true, little: true },
    Kind { wide: true, little: false },
    Kind { wide: false, little: true },
    Kind { wide: false, little: false },
];

impl Kind {
    fn word(&self) -> usize {
        if self.wide {
            8
        } else {
            4
        }
    }

    fn put(&self, out: &mut Vec<u8>, value: u64, width: usize) {
        let mut bytes: Vec<u8> = value.to_le_bytes()[..width].to_vec();
        if !self.little {
            bytes.reverse();
        }
        out.extend_from_slice(&bytes);
    }

    fn get(&self, data: &[u8], at: usize, width: usize) -> u64 {
        let mut bytes = data[at..at + width].to_vec();
        if !self.little {
            bytes.reverse();
        }
        bytes.resize(8, 0);
        u64::from_le_bytes([
            bytes[0], bytes[1], bytes[2], bytes[3], bytes[4], bytes[5], bytes[6], bytes[7],
        ])
    }

    fn segment(&self, p_type: u64, offset: u64, addr: u64, size: u64, align: u64) -> Vec<u8> {
        let w = self.word();
        let mut out = Vec::new();
        self.put(&mut out, p_type, 4);
        if self.wide {
            self.put(&mut out, 4, 4);
        }
        self.put(&mut out, offset, w);
        self.put(&mut out, addr, w);
        self.put(&mut out, addr, w);
        self.put(&mut out, size, w);
        self.put(&mut out, size, w);
        if !self.wide {
            self.put(&mut out, 4, 4);
        }
        self.put(&mut out, align, w);
        out
    }

    fn section(&self, s: &Section) -> Vec<u8> {
        let w = self.word();
        let mut out = Vec::new();
        self.put(&mut out, s.name as u64, 4);
        self.put(&mut out, s.sh_type, 4);
        self.put(&mut out, 2, w);
        self.put(&mut out, s.offset as u64, w);
        self.put(&mut out, s.offset as u64, w);
        self.put(&mut out, s.body.len() as u64, w);
        self.put(&mut out, 0, 4);
        self.put(&mut out, 0, 4);
        self.put(&mut out, s.align, w);
        self.put(&mut out, 0, w);
        out
    }

    fn dynamic(&self, entries: &[(u64, u64)]) -> Vec<u8> {
        let mut out = Vec::new();
        for &(tag, value) in entries {
            self.put(&mut out, tag, self.word());
            self.put(&mut out, value, self.word());
        }
        out
    }

    /// The dynamic entries of a section in a written file.
    fn entries(&self, data: &[u8]) -> Vec<(u64, u64)> {
        let w = self.word();
        data.chunks(2 * w).map(|c| (self.get(c, 0, w), self.get(c, w, w))).collect()
    }
}

/// A section of a file to be built.
#[derive(Clone)]
struct Section {
    name: usize,
    sh_type: u64,
    offset: usize,
    align: u64,
    body: Vec<u8>,
}

const NAMES: &[u8] =
    b"\0.interp\0.note.b\0.note.a\0.dynstr\0.dynamic\0.text\0.shstrtab\0.dynsym\0";

fn name_offset(name: &str) -> usize {
    let mut wanted = vec![0u8];
    wanted.extend_from_slice(name.as_bytes());
    wanted.push(0);
    NAMES.windows(wanted.len()).position(|w| w == wanted.as_slice()).unwrap() + 1
}

const STRINGS: &[u8] = b"\0libc.so.6\0libm.so.6\0/old/one:/old/two\0\0";

/// The dynamic entries that the built files have.
fn usual_entries() -> Vec<(u64, u64)> {
    vec![(1, 1), (1, 11), (29, 21), (5, 0x4444), (10, 0x55), (6, 0x66), (0, 0)]
}

/// Builds a file of the given type with an interpreter, two notes, strings and dynamic
/// entries.
fn build_with(kind: Kind, e_type: u64, entries: &[(u64, u64)]) -> Vec<u8> {
    let w = kind.word();
    let ehdr = if kind.wide { 64 } else { 52 };
    let phent = if kind.wide { 56 } else { 32 };
    let shent = if kind.wide { 64 } else { 40 };
    let dynamic = kind.dynamic(entries);
    let section = |name: &str, sh_type: u64, offset: usize, align: u64, body: &[u8]| Section {
        name: name_offset(name),
        sh_type,
        offset,
        align,
        body: body.to_vec(),
    };
    let sections = vec![
        Section { name: 0, sh_type: 0, offset: 0, align: 0, body: vec![] },
        section(".interp", 1, 0x1c0, 1, b"/lib/ld2.so\0"),
        section(".note.b", 7, 0x1f0, 4, b"note b here."),
        section(".note.a", 7, 0x1e0, 4, b"note a, here"),
        section(".text", 1, 0x300, 16, b"some code"),
        section(".dynstr", 3, 0x400, 1, STRINGS),
        section(".dynamic", 6, 0x500, 8, &dynamic),
        section(".dynsym", 11, 0x600, 8, b"symbols."),
        section(".shstrtab", 3, 0x700, 1, NAMES),
    ];
    let shoff = 0x800;
    let segments = [
        kind.segment(PT_LOAD, 0, 0, 0x800, 0x1000),
        kind.segment(PT_PHDR, ehdr as u64, ehdr as u64, 5 * phent as u64, 8),
        kind.segment(PT_INTERP, 0x1c0, 0x1c0, 12, 1),
        kind.segment(PT_NOTE, 0x1e0, 0x1e0, 0x1c, 4),
        kind.segment(PT_DYNAMIC, 0x500, 0x500, dynamic.len() as u64, 8),
    ];
    let mut out = vec![0x7f, b'E', b'L', b'F'];
    out.push(if kind.wide { 2 } else { 1 });
    out.push(if kind.little { 1 } else { 2 });
    out.push(1);
    out.resize(16, 0);
    kind.put(&mut out, e_type, 2);
    kind.put(&mut out, 62, 2);
    kind.put(&mut out, 1, 4);
    kind.put(&mut out, 0x300, w);
    kind.put(&mut out, ehdr as u64, w);
    kind.put(&mut out, shoff as u64, w);
    kind.put(&mut out, 0, 4);
    kind.put(&mut out, ehdr as u64, 2);
    kind.put(&mut out, phent as u64, 2);
    kind.put(&mut out, segments.len() as u64, 2);
    kind.put(&mut out, shent as u64, 2);
    kind.put(&mut out, sections.len() as u64, 2);
    kind.put(&mut out, 8, 2);
    assert_eq!(out.len(), ehdr);
    for s in &segments {
        assert_eq!(s.len(), phent);
        out.extend_from_slice(s);
    }
    for s in &sections {
        if out.len() < s.offset + s.body.len() {
            out.resize(s.offset + s.body.len(), 0);
        }
        out[s.offset..s.offset + s.body.len()].copy_from_slice(&s.body);
    }
    out.resize(shoff, 0);
    for s in &sections {
        let bytes = kind.section(s);
        assert_eq!(bytes.len(), shent);
        out.extend_from_slice(&bytes);
    }
    out
}

fn build(kind: Kind) -> Vec<u8> {
    build_with(kind, 3, &usual_entries())
}

fn strings(texts: &[&str]) -> Vec<String> {
    texts.iter().map(|s| s.to_string()).collect()
}

/// The bytes of a section of a written file.
fn section_of(elf: &ElfMut, index: usize) -> Vec<u8> {
    let shdr = &elf.section_headers[index];
    let at = shdr.sh_offset as usize;
    elf.contents[at..at + shdr.sh_size as usize].to_vec()
}

/// The position of the section with a type in a built or written file.
fn of_type(elf: &ElfMut, sh_type: u32) -> usize {
    elf.section_headers.iter().position(|s| s.sh_type == sh_type).unwrap()
}

/// The strings of dynamic linking stand before the section names, or behind all sections.
fn dynstr(elf: &ElfMut) -> usize {
    let name = name_offset(".dynstr");
    elf.section_headers.iter().position(|s| s.sh_name == name).unwrap()
}

/// The usual entries with the values that the sections of a file give them.
fn entries_in_line(elf: &ElfMut) -> Vec<(u64, u64)> {
    let strings = &elf.section_headers[dynstr(elf)];
    let symbols = &elf.section_headers[of_type(elf, 11)];
    vec![
        (1, 1),
        (1, 11),
        (29, 21),
        (5, strings.sh_addr),
        (10, strings.sh_size),
        (6, symbols.sh_addr),
        (0, 0),
    ]
}

#[test]
fn parsing_reads_all_tables() {
    for kind in KINDS {
        let data = build(kind);
        let elf = ElfMut::parse(&data).unwrap();
        assert_eq!(elf.contents, data);
        assert_eq!(elf.header.e_type, 3);
        assert_eq!(elf.header.e_machine, 62);
        assert_eq!(elf.header.e_entry, 0x300);
        assert_eq!(elf.header.e_shoff, 0x800);
        assert_eq!(elf.header.e_shstrndx, 8);
        assert_eq!(elf.program_headers.len(), 5);
        assert_eq!(elf.program_headers[3].p_type, 4);
        assert_eq!(elf.program_headers[3].p_offset, 0x1e0);
        assert_eq!(elf.program_headers[3].p_filesz, 0x1c);
        assert_eq!(elf.program_headers[3].p_flags, 4);
        assert_eq!(elf.program_headers[0].p_align, 0x1000);
        assert_eq!(elf.section_headers.len(), 9);
        assert_eq!(elf.section_headers[6].sh_type, 6);
        assert_eq!(elf.section_headers[6].sh_offset, 0x500);
        assert_eq!(elf.section_headers[6].sh_addralign, 8);
        assert_eq!(elf.get_interpreter(), Some("/lib/ld2.so".to_string()));
        assert!(elf.is_readable());
        assert_eq!(elf.get_needed().unwrap(), strings(&["libc.so.6", "libm.so.6"]));
        assert_eq!(elf.get_runpath().unwrap(), strings(&["/old/one", "/old/two"]));
        assert_eq!(elf.get_rpath().unwrap(), strings(&[]));
    }
}

#[test]
fn writing_an_unchanged_file_gives_it_back() {
    for kind in KINDS {
        let data = build(kind);
        let mut elf = ElfMut::parse(&data).unwrap();
        assert!(elf.can_write());
        assert_eq!(elf.write().unwrap(), data);
    }
}

#[test]
fn the_interpreter_is_set_and_read_again() {
    for kind in KINDS {
        let data = build(kind);
        let mut elf = ElfMut::parse(&data).unwrap();
        elf.set_interpreter("/some/where/else/ld.so").unwrap();
        assert!(elf.can_write());
        let out = elf.write().unwrap();
        assert_eq!(elf.get_interpreter(), Some("/some/where/else/ld.so".to_string()));
        let again = ElfMut::parse(&out).unwrap();
        assert_eq!(again.get_interpreter(), Some("/some/where/else/ld.so".to_string()));
        assert_eq!(again.get_needed().unwrap(), strings(&["libc.so.6", "libm.so.6"]));
        assert_eq!(again.program_headers, elf.program_headers);
        assert_eq!(again.section_headers, elf.section_headers);
        assert_eq!(again.header, elf.header);
        let interp = again.program_headers.iter().find(|p| p.p_type == 3).unwrap();
        assert_eq!(interp.p_filesz, 23);
        assert_eq!(again.section_headers[1].sh_size, 23);
        assert!(out.len() > data.len());
    }
}

#[test]
fn note_segments_are_split_when_a_note_moves() {
    for kind in [KINDS[0], KINDS[1]] {
        let mut elf = ElfMut::parse(&build(kind)).unwrap();
        elf.set_interpreter("/x").unwrap();
        let out = elf.write().unwrap();
        let again = ElfMut::parse(&out).unwrap();
        let notes: Vec<_> = again.program_headers.iter().filter(|p| p.p_type == 4).collect();
        assert_eq!(notes.len(), 2);
        for note in notes {
            let at = note.p_offset as usize;
            let body = &out[at..at + note.p_filesz as usize];
            assert!(body == b"note b here." || body == b"note a, here");
        }
    }
}

#[test]
fn a_shorter_path_is_written_in_place() {
    for kind in KINDS {
        let data = build(kind);
        let mut elf = ElfMut::parse(&data).unwrap();
        assert!(elf.can_set_runpath("/new"));
        elf.set_runpath("/new").unwrap();
        assert_eq!(elf.get_runpath().unwrap(), strings(&["/new"]));
        let out = elf.write().unwrap();
        let mut wanted = data.clone();
        wanted[0x400 + 21..0x400 + 38].copy_from_slice(b"/new\0\0\0\0\0\0\0\0\0\0\0\0\0");
        assert_eq!(out, wanted);
    }
}

#[test]
fn a_path_in_place_can_change_its_tag() {
    for kind in KINDS {
        let mut elf = ElfMut::parse(&build(kind)).unwrap();
        elf.set_rpath("/a:/b").unwrap();
        assert_eq!(elf.get_rpath().unwrap(), strings(&["/a", "/b"]));
        assert_eq!(elf.get_runpath().unwrap(), strings(&[]));
        let again = ElfMut::parse(&elf.write().unwrap()).unwrap();
        assert_eq!(again.get_rpath().unwrap(), strings(&["/a", "/b"]));
    }
}

#[test]
fn a_longer_path_is_put_behind_the_strings() {
    for kind in KINDS {
        let mut elf = ElfMut::parse(&build(kind)).unwrap();
        let path = "/quite/a/long/path:/and/another/one";
        assert!(elf.can_set_runpath(path));
        elf.set_runpath(path).unwrap();
        let out = elf.write().unwrap();
        let again = ElfMut::parse(&out).unwrap();
        assert_eq!(
            again.get_runpath().unwrap(),
            strings(&["/quite/a/long/path", "/and/another/one"])
        );
        assert_eq!(again.get_needed().unwrap(), strings(&["libc.so.6", "libm.so.6"]));
    }
}

#[test]
fn needed_libraries_are_added() {
    for kind in KINDS {
        let mut elf = ElfMut::parse(&build(kind)).unwrap();
        assert!(elf.can_add_needed(&["liba.so", "libb.so"]));
        elf.add_needed(&["liba.so", "libb.so"]).unwrap();
        let out = elf.write().unwrap();
        let again = ElfMut::parse(&out).unwrap();
        assert_eq!(
            again.get_needed().unwrap(),
            strings(&["libc.so.6", "libm.so.6", "liba.so", "libb.so"])
        );
        let dynamic = again.section_headers.iter().position(|s| s.sh_type == 6).unwrap();
        assert_eq!(
            kind.entries(&section_of(&again, dynamic)),
            vec![
                (1, 1),
                (1, 11),
                (29, 21),
                (5, again.section_headers[dynstr(&again)].sh_addr),
                (10, STRINGS.len() as u64 + 16),
                (6, again.section_headers[of_type(&again, 11)].sh_addr),
                (1, STRINGS.len() as u64),
                (1, STRINGS.len() as u64 + 8),
                (0, 0)
            ]
        );
    }
}

#[test]
fn needed_libraries_are_removed() {
    for kind in KINDS {
        let mut elf = ElfMut::parse(&build(kind)).unwrap();
        assert!(elf.can_remove_needed(&["libc.so.6", "none"]));
        elf.remove_needed(&["libc.so.6", "none"]).unwrap();
        assert_eq!(elf.get_needed().unwrap(), strings(&["libm.so.6"]));
        assert_eq!(elf.contents, build(kind));
        let again = ElfMut::parse(&elf.write().unwrap()).unwrap();
        assert_eq!(again.get_needed().unwrap(), strings(&["libm.so.6"]));
        let mut wanted = entries_in_line(&again);
        wanted.remove(0);
        wanted.push((0, 0));
        assert_eq!(kind.entries(&section_of(&again, of_type(&again, 6))), wanted);
    }
}

#[test]
fn needed_libraries_are_replaced() {
    for kind in KINDS {
        let mut elf = ElfMut::parse(&build(kind)).unwrap();
        let pairs = [("libc.so.6", "libmusl.so1"), ("libm.so.6", "libn.so")];
        assert!(elf.can_replace_needed(&pairs));
        elf.replace_needed(&pairs).unwrap();
        let again = ElfMut::parse(&elf.write().unwrap()).unwrap();
        assert_eq!(again.get_needed().unwrap(), strings(&["libmusl.so1", "libn.so"]));
    }
}

#[test]
fn an_unknown_type_cannot_be_rewritten() {
    let mut elf = ElfMut::parse(&build_with(KINDS[0], 4, &usual_entries())).unwrap();
    elf.set_interpreter("/x").unwrap();
    match elf.write() {
        Err(Error::Malformed(m)) => assert_eq!(m, "Unsupported ELF type for rewriting: 4"),
        _ => panic!("no error"),
    }
}

fn message_of(data: &[u8]) -> String {
    match ElfMut::parse(data) {
        Ok(_) => panic!("no error"),
        Err(e) => e.message(),
    }
}

#[test]
fn files_without_a_header_are_refused() {
    let wide = build(KINDS[0]);
    assert_eq!(message_of(&wide[..15]), "Malformed entity: Too small");
    let mut data = wide.clone();
    data[0] = 1;
    assert_eq!(message_of(&data), "Invalid magic number: 0x10102464c4501");
    match ElfMut::parse(&data) {
        Err(Error::BadMagic(magic)) => assert_eq!(magic, 0x0001_0102_464c_4501),
        _ => panic!("no error"),
    }
    let mut data = wide.clone();
    data[4] = 0x1f;
    assert_eq!(message_of(&data), "Malformed entity: invalid ELF class 1f");
    let mut data = wide.clone();
    data[5] = 0xab;
    assert_eq!(
        message_of(&data),
        "Malformed entity: invalid ELF endianness DATA type ab"
    );
    assert_eq!(message_of(&wide[..16]), "type is too big (2) for 0");
    assert_eq!(message_of(&wide[..30]), "type is too big (8) for 6");
    assert_eq!(message_of(&wide[..63]), "type is too big (2) for 1");
    assert_eq!(message_of(&build(KINDS[2])[..51]), "type is too big (2) for 1");
}

#[test]
fn tables_that_do_not_fit_are_refused() {
    let kind = KINDS[0];
    let data = build(kind);
    match ElfMut::parse(&data[..0x7f0]) {
        Err(Error::Scroll(text)) => assert_eq!(text, "bad offset 2048"),
        _ => panic!("no error"),
    }
    assert_eq!(message_of(&data[..0x810]), "type is too big (8) for 0");
    assert_eq!(message_of(&data[..0x850]), "type is too big (8) for 0");
    let mut many = data.clone();
    many[56..58].copy_from_slice(&[0xff, 0xff]);
    match ElfMut::parse(&many) {
        Err(Error::BufferTooShort(n, what)) => {
            assert_eq!(n, 0xffff);
            assert_eq!(what, "program headers");
        }
        _ => panic!("no error"),
    }
    assert_eq!(message_of(&many), "Buffer is too short for 65535 program headers");
    let mut many = data.clone();
    many[60..62].copy_from_slice(&[0xff, 0xff]);
    assert_eq!(message_of(&many), "Buffer is too short for 65535 section headers");
    let mut far = data.clone();
    far[32..40].copy_from_slice(&0x10000u64.to_le_bytes());
    assert_eq!(message_of(&far), "bad offset 65536");
    let mut late = data.clone();
    let at = (data.len() - 60) as u64;
    late[32..40].copy_from_slice(&at.to_le_bytes());
    assert_eq!(message_of(&late), "type is too big (4) for 0");
}

#[test]
fn section_headers_may_be_counted_by_the_first() {
    let mut data = build(KINDS[0]);
    data[60..62].copy_from_slice(&[0, 0]);
    data[0x800 + 32..0x800 + 40].copy_from_slice(&3u64.to_le_bytes());
    assert_eq!(ElfMut::parse(&data).unwrap().section_headers.len(), 3);
    data[0x800 + 32..0x800 + 40].copy_from_slice(&0u64.to_le_bytes());
    assert_eq!(ElfMut::parse(&data).unwrap().section_headers.len(), 1);
    data[40..48].copy_from_slice(&0u64.to_le_bytes());
    let elf = ElfMut::parse(&data).unwrap();
    assert_eq!(elf.section_headers.len(), 0);
    assert_eq!(elf.get_interpreter(), None);
}

#[test]
fn missing_sections_are_reported() {
    let mut data = build(KINDS[0]);
    data[62..64].copy_from_slice(&[0, 0]);
    let mut elf = ElfMut::parse(&data).unwrap();
    let wanted = "Malformed entity: Section '.dynstr' not found";
    assert!(elf.is_readable());
    assert_eq!(elf.get_needed().unwrap_err().message(), wanted);
    assert_eq!(elf.get_rpath().unwrap_err().message(), wanted);
    assert_eq!(elf.set_runpath("x").unwrap_err().message(), wanted);
    assert_eq!(elf.add_needed(&["x"]).unwrap_err().message(), wanted);
    assert_eq!(elf.remove_needed(&["x"]).unwrap_err().message(), wanted);
    assert_eq!(elf.replace_needed(&[("x", "y")]).unwrap_err().message(), wanted);
    assert_eq!(
        elf.set_interpreter("x").unwrap_err().message(),
        "Malformed entity: Section '.interp' not found"
    );
    assert_eq!(elf.write().unwrap(), data);
}

#[test]
fn a_missing_dynamic_section_is_reported() {
    let mut elf = ElfMut::parse(&build(KINDS[0])).unwrap();
    elf.section_headers[6].sh_name = 0;
    let wanted = "Malformed entity: Section '.dynamic' not found";
    assert_eq!(elf.get_needed().unwrap_err().message(), wanted);
    assert_eq!(elf.get_runpath().unwrap_err().message(), wanted);
    assert_eq!(elf.set_rpath("x").unwrap_err().message(), wanted);
    assert_eq!(elf.add_needed(&["x"]).unwrap_err().message(), wanted);
    assert_eq!(elf.remove_needed(&["x"]).unwrap_err().message(), wanted);
    assert_eq!(elf.replace_needed(&[("x", "y")]).unwrap_err().message(), wanted);
}

#[test]
fn strings_outside_of_the_file_are_not_used() {
    let mut elf = ElfMut::parse(&build(KINDS[0])).unwrap();
    elf.section_headers[5].sh_offset = u64::MAX;
    assert_eq!(elf.get_needed().unwrap(), strings(&[]));
    assert_eq!(elf.get_runpath().unwrap(), strings(&[]));
    let wanted = "Malformed entity: Invalid dynstr section";
    assert_eq!(elf.remove_needed(&["x"]).unwrap_err().message(), wanted);
    assert_eq!(elf.replace_needed(&[("x", "y")]).unwrap_err().message(), wanted);
    assert!(!elf.can_set_runpath("x"));
}

#[test]
fn a_dynamic_section_outside_of_the_file_cannot_be_read() {
    let mut elf = ElfMut::parse(&build(KINDS[0])).unwrap();
    elf.section_headers[6].sh_size = 0x10000;
    assert!(!elf.is_readable());
    assert!(!elf.can_set_runpath("x"));
    assert!(!elf.can_add_needed(&["x"]));
    assert!(elf.can_add_needed(&[]));
    assert!(!elf.can_remove_needed(&["x"]));
    assert!(!elf.can_replace_needed(&[("x", "y")]));
}

#[test]
fn an_interpreter_outside_of_the_file_is_empty() {
    let mut elf = ElfMut::parse(&build(KINDS[0])).unwrap();
    elf.section_headers[1].sh_offset = u64::MAX;
    assert_eq!(elf.get_interpreter(), Some(String::new()));
    elf.section_headers[1].sh_offset = 0x1c0;
    elf.section_headers[1].sh_size = 0;
    assert_eq!(elf.get_interpreter(), Some(String::new()));
}

#[test]
fn the_present_interpreter_changes_nothing() {
    let data = build(KINDS[0]);
    let mut elf = ElfMut::parse(&data).unwrap();
    elf.set_interpreter("/lib/ld2.so").unwrap();
    assert_eq!(elf.write().unwrap(), data);
}

#[test]
fn no_libraries_change_nothing() {
    let data = build(KINDS[1]);
    let mut elf = ElfMut::parse(&data).unwrap();
    elf.add_needed(&[]).unwrap();
    elf.remove_needed(&[]).unwrap();
    elf.replace_needed(&[]).unwrap();
    assert_eq!(elf.write().unwrap(), data);
}

#[test]
fn libraries_need_a_null_entry() {
    let mut entries = usual_entries();
    entries.pop();
    let mut elf = ElfMut::parse(&build_with(KINDS[0], 3, &entries)).unwrap();
    assert_eq!(
        elf.add_needed(&["libaaaa"]).unwrap_err().message(),
        "Malformed entity: No DT_NULL in dynamic section"
    );
    let again = ElfMut::parse(&elf.write().unwrap()).unwrap();
    let strings_at = again.section_headers.iter().position(|s| s.sh_size == 48).unwrap();
    assert_eq!(&section_of(&again, strings_at)[40..], b"libaaaa\0");
}

#[test]
fn a_path_without_an_entry_is_put_before_the_null_entry() {
    for kind in KINDS {
        let entries = [(1, 1), (0, 0)];
        let mut elf = ElfMut::parse(&build_with(kind, 2, &entries)).unwrap();
        assert!(elf.can_set_rpath("/a:/bcd"));
        elf.set_rpath("/a:/bcd").unwrap();
        let again = ElfMut::parse(&elf.write().unwrap()).unwrap();
        assert_eq!(again.get_rpath().unwrap(), strings(&["/a", "/bcd"]));
        assert_eq!(again.get_runpath().unwrap(), strings(&[]));
        assert_eq!(again.get_needed().unwrap(), strings(&["libc.so.6"]));
        assert_eq!(again.get_interpreter(), Some("/lib/ld2.so".to_string()));
    }
}

#[test]
fn a_path_needs_an_entry_or_a_null_entry() {
    let mut elf = ElfMut::parse(&build_with(KINDS[0], 3, &[(1, 1), (1, 11)])).unwrap();
    elf.set_runpath("/a/bcde").unwrap();
    let again = ElfMut::parse(&elf.write().unwrap()).unwrap();
    assert_eq!(again.get_runpath().unwrap(), strings(&[]));
    assert_eq!(again.get_needed().unwrap(), strings(&["libc.so.6", "libm.so.6"]));
}

#[test]
fn a_path_at_the_end_of_the_file_cannot_be_written_in_place() {
    let mut data = build(KINDS[0]);
    data.truncate(0x800);
    data.extend_from_slice(b"long path");
    let mut elf = ElfMut::parse(&build(KINDS[0])).unwrap();
    elf.contents = data;
    elf.section_headers[5].sh_offset = 0x800 - 21;
    elf.section_headers[5].sh_size = 30;
    assert_eq!(elf.get_runpath().unwrap(), strings(&["long path"]));
    assert!(!elf.can_set_runpath("short"));
    elf.contents.push(0);
    assert!(elf.can_set_runpath("short"));
    elf.set_runpath("short").unwrap();
    assert_eq!(elf.get_runpath().unwrap(), strings(&["short"]));
}

#[test]
fn entries_that_do_not_fit_are_reported() {
    let mut elf = ElfMut::parse(&build(KINDS[0])).unwrap();
    elf.set_interpreter("\u{1d}\0\0\0\0\0\0\0\u{15}\0\0\0\0\0\0\0").unwrap();
    let end = elf.contents.len();
    for i in [1, 6] {
        elf.section_headers[i].sh_offset = end as u64 - 8;
        elf.section_headers[i].sh_size = 17;
    }
    match elf.set_rpath("/r") {
        Err(Error::Scroll(text)) => assert_eq!(text, "type is too big (8) for 0"),
        _ => panic!("no error"),
    }
    assert_eq!(&elf.contents[end - 8..], &[15, 0, 0, 0, 0, 0, 0, 0]);
    elf.section_headers[1].sh_offset = end as u64 + 5;
    elf.section_headers[6].sh_offset = end as u64 + 5;
    match elf.set_rpath("/s") {
        Err(Error::Scroll(text)) => assert_eq!(text, format!("bad offset {}", end + 5)),
        _ => panic!("no error"),
    }
}

#[test]
fn names_are_replaced_in_place_where_they_fit() {
    for kind in KINDS {
        let mut elf = ElfMut::parse(&build(kind)).unwrap();
        elf.replace_needed(&[("libc.so.6", "x"), ("libc.so.6", "libd.so"), ("none", "y")]).unwrap();
        assert_eq!(&elf.contents[0x400..0x415], b"\0libd.so\0\0\0libm.so.6\0");
        let again = ElfMut::parse(&elf.write().unwrap()).unwrap();
        assert_eq!(again.get_needed().unwrap(), strings(&["libd.so", "libm.so.6"]));
        assert_eq!(again.get_runpath().unwrap(), strings(&["/old/one", "/old/two"]));
    }
}

#[test]
fn longer_names_are_put_behind_the_strings() {
    for kind in KINDS {
        let mut elf = ElfMut::parse(&build(kind)).unwrap();
        let pairs = [("libc.so.6", "libmusl.so1"), ("libm.so.6", "libmath.so1")];
        elf.replace_needed(&pairs).unwrap();
        let again = ElfMut::parse(&elf.write().unwrap()).unwrap();
        assert_eq!(again.get_needed().unwrap(), strings(&["libmusl.so1", "libmath.so1"]));
    }
}

#[test]
fn several_modifications_go_together() {
    for kind in KINDS {
        let mut elf = ElfMut::parse(&build(kind)).unwrap();
        elf.set_interpreter("/ld.so.").unwrap();
        elf.set_runpath("/in/place").unwrap();
        elf.remove_needed(&["libm.so.6"]).unwrap();
        let out = elf.write().unwrap();
        assert_eq!(elf.get_interpreter(), Some("/ld.so.".to_string()));
        let again = ElfMut::parse(&out).unwrap();
        assert_eq!(again.get_interpreter(), Some("/ld.so.".to_string()));
        assert_eq!(again.get_runpath().unwrap(), strings(&["/in/place"]));
        assert_eq!(again.get_needed().unwrap(), strings(&["libc.so.6"]));
    }
}

#[test]
fn new_bytes_extend_a_loaded_segment_that_ends_before_them() {
    let mut elf = ElfMut::parse(&build(KINDS[2])).unwrap();
    elf.set_interpreter("/x").unwrap();
    let out = elf.write().unwrap();
    assert_eq!(out.len(), 0x1000 + 3 + 1);
    assert_eq!(&out[0x1000..], b"/x\0\0");
    let again = ElfMut::parse(&out).unwrap();
    assert_eq!(again.program_headers.len(), 5);
    assert_eq!(again.program_headers[0].p_type, PT_PHDR as u32);
    assert_eq!(again.program_headers[0].p_filesz, 5 * 32);
    let load = again.program_headers.iter().find(|p| p.p_type == 1).unwrap();
    assert_eq!((load.p_offset, load.p_filesz, load.p_memsz), (0, 0x1004, 0x1003));
    let interp = again.program_headers.iter().find(|p| p.p_type == 3).unwrap();
    assert_eq!((interp.p_offset, interp.p_vaddr, interp.p_filesz), (0x1000, 0x1000, 3));
}

#[test]
fn new_bytes_get_a_segment_of_their_own_elsewhere() {
    let data = build(KINDS[2]);
    let mut elf = ElfMut::parse(&data).unwrap();
    elf.program_headers[0].p_filesz = 0;
    elf.program_headers[0].p_memsz = 0x12345;
    elf.set_interpreter("/x").unwrap();
    let out = elf.write().unwrap();
    let again = ElfMut::parse(&out).unwrap();
    assert_eq!(again.header.e_phnum, 6);
    let load = again.program_headers.last().unwrap();
    assert_eq!((load.p_type, load.p_flags, load.p_align), (1, 6, 0x1000));
    assert_eq!((load.p_offset, load.p_filesz), (0x1000, 4));
    assert_eq!((load.p_vaddr, load.p_paddr, load.p_memsz), (0x13000, 0x13000, 3));
    assert_eq!(again.section_headers[1].sh_addr, 0x13000);
    for i in 0..data.len() {
        let header = i < 52 + 6 * 32 || (0x800..0x800 + 9 * 40).contains(&i);
        let entry = (0x500..0x500 + 7 * 8).contains(&i);
        assert!(header || entry || out[i] == data[i]);
    }
}

#[test]
fn section_headers_are_sorted_by_their_places() {
    for kind in KINDS {
        let mut elf = ElfMut::parse(&build(kind)).unwrap();
        elf.section_headers.swap(8, 2);
        elf.header.e_shstrndx = 2;
        elf.remove_needed(&["none"]).unwrap();
        elf.write().unwrap();
        assert_eq!(elf.header.e_shstrndx, 8);
        let types: Vec<u32> = elf.section_headers.iter().map(|s| s.sh_type).collect();
        assert_eq!(types, vec![0, 1, 7, 7, 1, 3, 6, 11, 3]);
    }
}

#[test]
fn contents_of_different_alignment_find_room() {
    for kind in KINDS {
        let mut elf = ElfMut::parse(&build(kind)).unwrap();
        elf.set_interpreter("/1").unwrap();
        elf.set_runpath("/a/path/that/is/longer/than/before").unwrap();
        assert!(elf.can_write());
        let again = ElfMut::parse(&elf.write().unwrap()).unwrap();
        assert_eq!(again.get_interpreter(), Some("/1".to_string()));
        assert_eq!(
            again.get_runpath().unwrap(),
            strings(&["/a/path/that/is/longer/than/before"])
        );
    }
}

#[test]
fn the_file_has_room_for_contents_that_are_filled_up() {
    let mut elf = ElfMut::parse(&build(KINDS[2])).unwrap();
    elf.section_headers[1].sh_addralign = 8;
    elf.set_interpreter("/x").unwrap();
    let out = elf.write().unwrap();
    assert_eq!(out.len(), 0x1000 + 8 + 1);
    assert_eq!(&out[0x1000..], b"/x\0\0\0\0\0\0\0");
    let load = elf.program_headers.iter().find(|p| p.p_type == 1).unwrap();
    assert_eq!((load.p_filesz, load.p_memsz), (0x1004, 0x1003));
    // Behind 56 bytes of entries stand the strings, and then the interpreter.
    let cases = [
        ("/a/path/that/is/29/bytes/long", 56 + 70 + 16 + 1),
        ("/a/path/that/is/32/bytes/long/so", 0x90 + 3 + 1),
    ];
    for (path, len) in cases {
        let mut elf = ElfMut::parse(&build(KINDS[2])).unwrap();
        elf.section_headers[1].sh_addralign = 16;
        elf.set_interpreter("/x").unwrap();
        elf.set_runpath(path).unwrap();
        let out = elf.write().unwrap();
        assert_eq!(out.len(), 0x1000 + len);
        let again = ElfMut::parse(&out).unwrap();
        assert_eq!(again.get_interpreter(), Some("/x".to_string()));
        assert_eq!(again.get_runpath().unwrap(), strings(&[path]));
    }
}

#[test]
fn written_entries_wait_without_what_follows_the_null_entry() {
    for kind in KINDS {
        let size = 2 * kind.word() as u64;
        let mut elf = ElfMut::parse(&build(kind)).unwrap();
        elf.remove_needed(&["libc.so.6"]).unwrap();
        for count in [7, 6, 6] {
            let again = ElfMut::parse(&elf.write().unwrap()).unwrap();
            assert_eq!(again.section_headers[of_type(&again, 6)].sh_size, count * size);
            assert_eq!(again.get_needed().unwrap(), strings(&["libm.so.6"]));
            assert_eq!(elf.get_needed().unwrap(), strings(&["libm.so.6"]));
        }
    }
}

#[test]
fn names_in_place_leave_the_paths() {
    for kind in KINDS {
        let mut elf = ElfMut::parse(&build(kind)).unwrap();
        elf.replace_needed(&[("libc.so.6", "libc"), ("libm.so.6", "a/longer/libm")]).unwrap();
        let again = ElfMut::parse(&elf.write().unwrap()).unwrap();
        assert_eq!(again.get_needed().unwrap(), strings(&["libc", "a/longer/libm"]));
        assert_eq!(again.get_runpath().unwrap(), strings(&["/old/one", "/old/two"]));
    }
}

#[test]
fn two_segments_for_the_table_cannot_be_sorted() {
    let mut elf = ElfMut::parse(&build(KINDS[0])).unwrap();
    elf.set_interpreter("/x").unwrap();
    elf.program_headers[0].p_type = 6;
    assert!(!elf.can_write());
}

#[test]
fn addresses_out_of_range_cannot_be_written() {
    let mut elf = ElfMut::parse(&build(KINDS[0])).unwrap();
    elf.set_interpreter("/x").unwrap();
    elf.program_headers[0].p_memsz = u64::MAX;
    assert!(!elf.can_write());
}

#[test]
fn headers_that_announce_no_class_are_not_written() {
    let mut elf = ElfMut::parse(&build(KINDS[0])).unwrap();
    elf.set_interpreter("/x").unwrap();
    elf.header.e_ident[4] = 7;
    assert_eq!(
        elf.write().unwrap_err().message(),
        "Malformed entity: Invalid class in Header: 7"
    );
    let mut elf = ElfMut::parse(&build(KINDS[0])).unwrap();
    elf.set_interpreter("/x").unwrap();
    elf.header.e_ident[5] = 0x1b;
    assert_eq!(
        elf.write().unwrap_err().message(),
        "Malformed entity: invalid ELF DATA type 1b"
    );
}

#[test]
fn a_header_that_does_not_fit_is_written_as_far_as_it_does() {
    let mut elf = ElfMut::parse(&build(KINDS[2])).unwrap();
    elf.contents.clear();
    elf.section_headers[6].sh_name = 0;
    elf.set_interpreter("/xy").unwrap();
    match elf.write() {
        Err(Error::Scroll(text)) => assert_eq!(text, "type is too big (1) for 0"),
        _ => panic!("no error"),
    }
    assert_eq!(elf.contents, b"\x7fELF\x01");
    let mut elf = ElfMut::parse(&build(KINDS[2])).unwrap();
    elf.contents.clear();
    elf.section_headers[6].sh_name = 0;
    elf.set_interpreter("/a/path/of/25/characters.").unwrap();
    match elf.write() {
        Err(Error::Scroll(text)) => assert_eq!(text, "type is too big (4) for 3"),
        _ => panic!("no error"),
    }
    assert_eq!(elf.contents.len(), 27);
    assert_eq!(&elf.contents[16..24], &[3, 0, 62, 0, 1, 0, 0, 0]);
    assert_eq!(&elf.contents[24..], b".\0\0");
}

#[test]
fn tables_outside_of_the_file_are_left_out() {
    let mut elf = ElfMut::parse(&build(KINDS[2])).unwrap();
    elf.header.e_shoff = u64::MAX;
    elf.header.e_phoff = u64::MAX - 4;
    elf.set_interpreter("/x").unwrap();
    let out = elf.write().unwrap();
    let data = build(KINDS[2]);
    assert_eq!(&out[52..0x500], &data[52..0x500]);
    assert_eq!(&out[0x538..data.len()], &data[0x538..]);
}

#[test]
fn reading_a_file_twice_gives_the_same() {
    for kind in KINDS {
        let data = build(kind);
        let one = ElfMut::parse(&data).unwrap();
        let two = ElfMut::parse(&data).unwrap();
        assert_eq!(one.header, two.header);
        assert_eq!(one.program_headers, two.program_headers);
        assert_eq!(one.section_headers, two.section_headers);
    }
}

#[test]
fn sections_that_nothing_was_done_to_keep_their_contents() {
    for kind in KINDS {
        let mut elf = ElfMut::parse(&build(kind)).unwrap();
        elf.set_interpreter("/ld").unwrap();
        let again = ElfMut::parse(&elf.write().unwrap()).unwrap();
        for (i, s) in again.section_headers.iter().enumerate() {
            match s.sh_type {
                11 => assert_eq!(section_of(&again, i), b"symbols."),
                6 => assert_eq!(kind.entries(&section_of(&again, i)), entries_in_line(&again)),
                7 => assert!(section_of(&again, i).starts_with(b"note ")),
                _ => {}
            }
        }
    }
}

#[test]
fn moved_sections_are_aligned_and_loaded() {
    for kind in KINDS {
        let data = build(kind);
        let mut elf = ElfMut::parse(&data).unwrap();
        elf.add_needed(&["libxyz1"]).unwrap();
        let again = ElfMut::parse(&elf.write().unwrap()).unwrap();
        let mut moved = 0;
        for s in &again.section_headers {
            if s.sh_offset >= data.len() as u64 {
                moved += 1;
                assert_eq!(s.sh_offset % s.sh_addralign.max(1), 0);
                assert_eq!(s.sh_addr % s.sh_addralign.max(1), 0);
                assert!(again.program_headers.iter().any(|p| p.p_type == 1
                    && p.p_offset <= s.sh_offset
                    && s.sh_offset + s.sh_size <= p.p_offset + p.p_filesz
                    && p.p_vaddr <= s.sh_addr
                    && s.sh_addr + s.sh_size <= p.p_vaddr + p.p_memsz));
            }
        }
        assert_eq!(moved, if kind.wide { 5 } else { 2 });
        let dynamic = again.program_headers.iter().find(|p| p.p_type == 2).unwrap();
        let section = again.section_headers.iter().find(|s| s.sh_type == 6).unwrap();
        assert_eq!(dynamic.p_offset, section.sh_offset);
        assert_eq!(dynamic.p_filesz, section.sh_size);
    }
}

#[test]
fn the_dynamic_entries_in_the_file_follow_the_sections() {
    for kind in KINDS {
        let mut elf = ElfMut::parse(&build(kind)).unwrap();
        elf.set_runpath("/quite/a/long/path/for/libraries").unwrap();
        for _ in 0..2 {
            let out = elf.write().unwrap();
            let again = ElfMut::parse(&out).unwrap();
            let strings_at = &again.section_headers[dynstr(&again)];
            let mut wanted = entries_in_line(&again);
            wanted[2] = (29, STRINGS.len() as u64);
            assert_eq!(kind.entries(&section_of(&again, of_type(&again, 6))), wanted);
            assert_eq!(strings_at.sh_size, STRINGS.len() as u64 + 33);
            assert!(strings_at.sh_addr >= 0x1000);
            assert_eq!(elf.section_headers, again.section_headers);
        }
    }
}

#[test]
fn what_was_set_is_read_from_the_same_value_after_writing() {
    for kind in KINDS {
        for path in ["/quite/a/long/path:/and/another/one", "/short", "/old/one:/old/two"] {
            let mut elf = ElfMut::parse(&build(kind)).unwrap();
            elf.set_runpath(path).unwrap();
            elf.add_needed(&["libx.so"]).unwrap();
            elf.write().unwrap();
            let paths: Vec<&str> = path.split(':').collect();
            assert!(elf.is_readable());
            assert_eq!(elf.get_runpath().unwrap(), strings(&paths));
            assert_eq!(
                elf.get_needed().unwrap(),
                strings(&["libc.so.6", "libm.so.6", "libx.so"])
            );
        }
    }
}

#[test]
fn adding_libraries_twice_is_adding_all_of_them() {
    for kind in KINDS {
        let mut one = ElfMut::parse(&build(kind)).unwrap();
        one.add_needed(&["liba.so"]).unwrap();
        one.add_needed(&["libbb.so", "libc"]).unwrap();
        let mut two = ElfMut::parse(&build(kind)).unwrap();
        two.add_needed(&["liba.so", "libbb.so", "libc"]).unwrap();
        let out = one.write().unwrap();
        assert_eq!(out, two.write().unwrap());
        let again = ElfMut::parse(&out).unwrap();
        assert_eq!(
            again.get_needed().unwrap(),
            strings(&["libc.so.6", "libm.so.6", "liba.so", "libbb.so", "libc"])
        );
    }
}

#[test]
fn libraries_that_wait_can_be_removed_and_replaced() {
    for kind in KINDS {
        let mut elf = ElfMut::parse(&build(kind)).unwrap();
        elf.add_needed(&["liba.so", "libbb.so", "libc"]).unwrap();
        elf.remove_needed(&["liba.so"]).unwrap();
        elf.replace_needed(&[("libbb.so", "libb"), ("libc", "libcc.so.1")]).unwrap();
        let again = ElfMut::parse(&elf.write().unwrap()).unwrap();
        assert_eq!(
            again.get_needed().unwrap(),
            strings(&["libc.so.6", "libm.so.6", "libb", "libcc.so.1"])
        );
    }
}

#[test]
fn a_shorter_path_is_written_over_strings_that_wait() {
    for kind in KINDS {
        let mut elf = ElfMut::parse(&build(kind)).unwrap();
        elf.add_needed(&["libx.so"]).unwrap();
        elf.set_rpath("/new").unwrap();
        let again = ElfMut::parse(&elf.write().unwrap()).unwrap();
        assert_eq!(again.get_rpath().unwrap(), strings(&["/new"]));
        assert_eq!(again.get_runpath().unwrap(), strings(&[]));
        assert_eq!(
            again.get_needed().unwrap(),
            strings(&["libc.so.6", "libm.so.6", "libx.so"])
        );
        let mut elf = ElfMut::parse(&build(kind)).unwrap();
        elf.set_runpath("/one/path/behind/all/strings").unwrap();
        elf.set_runpath("/shorter").unwrap();
        let again = ElfMut::parse(&elf.write().unwrap()).unwrap();
        assert_eq!(again.get_runpath().unwrap(), strings(&["/shorter"]));
    }
}

#[test]
fn one_entry_names_the_paths_and_the_others_stay() {
    for kind in KINDS {
        for path in ["/new", "/one/path/behind/all/strings"] {
            let mut elf = ElfMut::parse(&build(kind)).unwrap();
            elf.set_rpath(path).unwrap();
            assert_eq!(elf.get_runpath().unwrap(), strings(&[]));
            let again = ElfMut::parse(&elf.write().unwrap()).unwrap();
            assert_eq!(again.get_runpath().unwrap(), strings(&[]));
            let entries = kind.entries(&section_of(&again, of_type(&again, 6)));
            let tags: Vec<u64> = entries.iter().map(|e| e.0).collect();
            assert_eq!(tags, vec![1, 1, 15, 5, 10, 6, 0]);
            assert_eq!(entries[..2], [(1, 1), (1, 11)]);
        }
    }
}

#[test]
fn the_interpreter_that_was_set_last_is_written() {
    for kind in KINDS {
        let mut elf = ElfMut::parse(&build(kind)).unwrap();
        elf.set_interpreter("/other/ld.so").unwrap();
        elf.set_interpreter("/lib/ld2.so").unwrap();
        let again = ElfMut::parse(&elf.write().unwrap()).unwrap();
        assert_eq!(again.get_interpreter(), Some("/lib/ld2.so".to_string()));
    }
}

#[test]
fn a_segment_is_not_extended_over_unequal_gaps() {
    let mut elf = ElfMut::parse(&build(KINDS[2])).unwrap();
    elf.program_headers[0].p_memsz = 0x1800;
    elf.set_interpreter("/x").unwrap();
    let again = ElfMut::parse(&elf.write().unwrap()).unwrap();
    assert_eq!(again.header.e_phnum, 6);
    let interp = &again.section_headers[1];
    assert_eq!((interp.sh_offset, interp.sh_addr), (0x1000, 0x2000));
    assert!(again.program_headers.iter().any(|p| p.p_type == 1
        && p.p_offset <= interp.sh_offset
        && interp.sh_offset + interp.sh_size <= p.p_offset + p.p_filesz
        && interp.sh_addr - p.p_vaddr == interp.sh_offset - p.p_offset));
}

#[test]
fn an_unknown_type_with_nothing_waiting_is_written_as_it_is() {
    let data = build_with(KINDS[0], 0, &usual_entries());
    let mut elf = ElfMut::parse(&data).unwrap();
    assert_eq!(elf.write().unwrap(), data);
    elf.remove_needed(&["libc.so.6"]).unwrap();
    assert_eq!(
        elf.write().unwrap_err().message(),
        "Malformed entity: Unsupported ELF type for rewriting: 0"
    );
}
