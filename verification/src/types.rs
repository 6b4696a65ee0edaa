//! The plain data of an ELF file: its headers, its dynamic entries and the
//! constants that give their fields a meaning.

use crate::text;
use vstd::prelude::*;

verus! {

/// Byte order of the integers of a file.
#[derive(Clone, Copy, Debug, PartialEq, Eq, Structural)]
pub enum Endian {
    /// Least significant byte first.
    Little,
    /// Most significant byte first.
    Big,
}

/// Width of the addresses of a file.
#[derive(Clone, Copy, Debug, PartialEq, Eq, Structural)]
pub enum Container {
    /// 32-bit objects.
    Little,
    /// 64-bit objects.
    Big,
}

/// How the structures of a file are laid out as bytes.
#[derive(Clone, Copy, Debug, PartialEq, Eq, Structural)]
pub struct Ctx {
    pub container: Container,
    pub le: Endian,
}

/// The ELF file header.
#[derive(Clone, Copy, Debug, PartialEq, Eq)]
pub struct Header {
    pub e_ident: [u8; 16],
    pub e_type: u16,
    pub e_machine: u16,
    pub e_version: u32,
    pub e_entry: u64,
    pub e_phoff: u64,
    pub e_shoff: u64,
    pub e_flags: u32,
    pub e_ehsize: u16,
    pub e_phentsize: u16,
    pub e_phnum: u16,
    pub e_shentsize: u16,
    pub e_shnum: u16,
    pub e_shstrndx: u16,
}

/// A program header: one segment of the file.
#[derive(Clone, Copy, Debug, PartialEq, Eq, Structural)]
pub struct ProgramHeader {
    pub p_type: u32,
    pub p_flags: u32,
    pub p_offset: u64,
    pub p_vaddr: u64,
    pub p_paddr: u64,
    pub p_filesz: u64,
    pub p_memsz: u64,
    pub p_align: u64,
}

/// A section header: one named region of the file.
#[derive(Clone, Copy, Debug, PartialEq, Eq, Structural)]
pub struct SectionHeader {
    pub sh_name: usize,
    pub sh_type: u32,
    pub sh_flags: u64,
    pub sh_addr: u64,
    pub sh_offset: u64,
    pub sh_size: u64,
    pub sh_link: u32,
    pub sh_info: u32,
    pub sh_addralign: u64,
    pub sh_entsize: u64,
}

/// An entry of the dynamic section.
#[derive(Clone, Copy, Debug, PartialEq, Eq, Structural)]
pub struct Dyn {
    pub d_tag: u64,
    pub d_val: u64,
}

/// Why a file could not be read or rewritten.
#[derive(Debug)]
pub enum Error {
    /// The file is malformed; the text says how.
    Malformed(String),
    /// The file does not start with the ELF magic number.
    BadMagic(u64),
    /// A structure does not fit at its place; the text says what does not fit.
    Scroll(String),
    /// The bytes cannot hold that many of the named structures.
    BufferTooShort(usize, &'static str),
}

/// An [`Error`] as a mathematical value.
pub enum ErrorView {
    Malformed(Seq<char>),
    BadMagic(int),
    Scroll(Seq<char>),
    BufferTooShort(int, Seq<char>),
}

impl View for Error {
    type V = ErrorView;

    open spec fn view(&self) -> ErrorView {
        match self {
            Error::Malformed(text) => ErrorView::Malformed(text@),
            Error::BadMagic(magic) => ErrorView::BadMagic(*magic as int),
            Error::Scroll(text) => ErrorView::Scroll(text@),
            Error::BufferTooShort(n, what) => ErrorView::BufferTooShort(*n as int, what@),
        }
    }
}

impl ErrorView {
    /// What is said of the error.
    pub open spec fn message(self) -> Seq<char> {
        match self {
            ErrorView::Malformed(text) => "Malformed entity: "@ + text,
            ErrorView::BadMagic(magic) => "Invalid magic number: 0x"@ + text::hex(magic),
            ErrorView::Scroll(text) => text,
            ErrorView::BufferTooShort(n, what) => "Buffer is too short for "@ + text::decimal(n)
                + " "@ + what,
        }
    }
}

impl Error {
    /// What is said of the error.
    pub fn message(&self) -> (r: String)
        ensures
            r@ == self@.message(),
    {
        match self {
            Error::Malformed(text) => {
                let mut message = "Malformed entity: ".to_owned();
                message.append(text.as_str());
                message
            },
            Error::BadMagic(magic) => {
                let mut message = "Invalid magic number: 0x".to_owned();
                message.append(text::hex_text(*magic).as_str());
                message
            },
            Error::Scroll(text) => text.as_str().to_owned(),
            Error::BufferTooShort(n, what) => {
                let mut message = "Buffer is too short for ".to_owned();
                message.append(text::decimal_text(*n as u64).as_str());
                message.append(" ");
                message.append(what);
                message
            },
        }
    }
}

/// What a call without a value reports: nothing, or the error it ended in.
pub open spec fn outcome(r: Result<(), Error>) -> Option<ErrorView> {
    match r {
        Ok(_) => None,
        Err(e) => Some(e@),
    }
}

// Position of the class and of the byte order in `e_ident`, and their values.
pub const EI_CLASS: usize = 4;
pub const EI_DATA: usize = 5;
pub const ELFCLASS32: u8 = 1;
pub const ELFCLASS64: u8 = 2;
pub const ELFDATA2LSB: u8 = 1;
pub const ELFDATA2MSB: u8 = 2;

// File types.
pub const ET_EXEC: u16 = 2;
pub const ET_DYN: u16 = 3;

// Machines.
pub const EM_SPARC: u16 = 2;
pub const EM_MIPS: u16 = 8;
pub const EM_PPC: u16 = 20;
pub const EM_PPC64: u16 = 21;
pub const EM_FAKE_ALPHA: u16 = 41;
pub const EM_SPARCV9: u16 = 43;
pub const EM_IA_64: u16 = 50;
pub const EM_AARCH64: u16 = 183;
pub const EM_LOONGARCH: u16 = 258;

// Segment types and flags.
pub const PT_LOAD: u32 = 1;
pub const PT_DYNAMIC: u32 = 2;
pub const PT_INTERP: u32 = 3;
pub const PT_NOTE: u32 = 4;
pub const PT_PHDR: u32 = 6;
/// The flags of a readable and writable segment: 4 for readable, 2 for writable.
pub const PF_RW: u32 = 6;

// Section types.
pub const SHT_PROGBITS: u32 = 1;
pub const SHT_NOTE: u32 = 7;
pub const SHT_NOBITS: u32 = 8;

// Tags of dynamic entries.
pub const DT_NULL: u64 = 0;
pub const DT_NEEDED: u64 = 1;
pub const DT_HASH: u64 = 4;
pub const DT_STRTAB: u64 = 5;
pub const DT_SYMTAB: u64 = 6;
pub const DT_RELA: u64 = 7;
pub const DT_RELASZ: u64 = 8;
pub const DT_STRSZ: u64 = 10;
pub const DT_RPATH: u64 = 15;
pub const DT_REL: u64 = 17;
pub const DT_RELSZ: u64 = 18;
pub const DT_JMPREL: u64 = 23;
pub const DT_RUNPATH: u64 = 29;
pub const DT_GNU_HASH: u64 = 0x6fff_fef5;
pub const DT_VERSYM: u64 = 0x6fff_fff0;
pub const DT_VERDEF: u64 = 0x6fff_fffc;
pub const DT_VERNEED: u64 = 0x6fff_fffe;

impl Ctx {
    /// Bytes of an address: 4 in a 32-bit file, 8 in a 64-bit file.
    pub open spec fn word(self) -> int {
        match self.container {
            Container::Little => 4,
            Container::Big => 8,
        }
    }

    /// Bytes of the file header.
    pub open spec fn ehdr_len(self) -> int {
        match self.container {
            Container::Little => 52,
            Container::Big => 64,
        }
    }

    /// Bytes of a program header.
    pub open spec fn phdr_len(self) -> int {
        match self.container {
            Container::Little => 32,
            Container::Big => 56,
        }
    }

    /// Bytes of a section header.
    pub open spec fn shdr_len(self) -> int {
        match self.container {
            Container::Little => 40,
            Container::Big => 64,
        }
    }

    /// Bytes of a dynamic entry.
    pub open spec fn dyn_len(self) -> int {
        2 * self.word()
    }

    /// Bytes of the file header.
    pub fn header_size(self) -> (r: usize)
        ensures
            r == self.ehdr_len(),
    {
        match self.container {
            Container::Little => 52,
            Container::Big => 64,
        }
    }

    /// Bytes of a program header.
    pub fn program_header_size(self) -> (r: usize)
        ensures
            r == self.phdr_len(),
    {
        match self.container {
            Container::Little => 32,
            Container::Big => 56,
        }
    }

    /// Bytes of a section header.
    pub fn section_header_size(self) -> (r: usize)
        ensures
            r == self.shdr_len(),
    {
        match self.container {
            Container::Little => 40,
            Container::Big => 64,
        }
    }

    /// Bytes of a dynamic entry.
    pub fn dyn_size(self) -> (r: usize)
        ensures
            r == self.dyn_len(),
    {
        match self.container {
            Container::Little => 8,
            Container::Big => 16,
        }
    }
}

} // verus!
