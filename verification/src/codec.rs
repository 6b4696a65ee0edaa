//! How the structures of an ELF file stand in its bytes, and the reading and
//! writing of them.

use crate::text;
use crate::types;
use crate::types::{
    Container, Ctx, Dyn, Endian, Error, ErrorView, Header, ProgramHeader, SectionHeader,
    EI_CLASS, EI_DATA, ELFCLASS32, ELFCLASS64, ELFDATA2LSB, ELFDATA2MSB,
};
use goblin::container::{Container as RawContainer, Ctx as RawCtx};
use goblin::elf::dynamic::Dyn as RawDyn;
use goblin::elf::header::Header as RawHeader;
use goblin::elf::program_header::ProgramHeader as RawProgramHeader;
use goblin::elf::section_header::SectionHeader as RawSectionHeader;
use goblin::error::Error as Fault;
use scroll::{Pread, Pwrite, BE, LE};
use vstd::prelude::*;

verus! {

/// The number that bytes stand for, the least significant byte first.
pub open spec fn le_uint(b: Seq<u8>) -> nat
    decreases b.len(),
{
    if b.len() == 0 {
        0
    } else {
        b[0] as nat + 256 * le_uint(b.drop_first())
    }
}

/// The `w` low bytes of a number, the least significant byte first.
pub open spec fn le_bytes(v: nat, w: nat) -> Seq<u8>
    decreases w,
{
    if w == 0 {
        Seq::empty()
    } else {
        seq![(v % 256) as u8] + le_bytes(v / 256, (w - 1) as nat)
    }
}

/// The number that bytes stand for in a byte order.
pub open spec fn uint(b: Seq<u8>, e: Endian) -> nat {
    match e {
        Endian::Little => le_uint(b),
        Endian::Big => le_uint(b.reverse()),
    }
}

/// The `w` low bytes of a number in a byte order.
#[verifier::opaque]
pub open spec fn uint_bytes(v: nat, w: nat, e: Endian) -> Seq<u8> {
    match e {
        Endian::Little => le_bytes(v, w),
        Endian::Big => le_bytes(v, w).reverse(),
    }
}

/// The number of `w` bytes at a place.
#[verifier::opaque]
pub open spec fn field(b: Seq<u8>, at: int, w: int, e: Endian) -> nat {
    uint(b.subrange(at, at + w), e)
}

/// `part` written over `whole`, starting at `at`.
pub open spec fn splice(whole: Seq<u8>, at: int, part: Seq<u8>) -> Seq<u8> {
    whole.subrange(0, at) + part + whole.subrange(at + part.len(), whole.len() as int)
}

/// The layout that the identification bytes `b` announce.
pub open spec fn announced_ctx(b: Seq<u8>) -> Ctx {
    Ctx {
        container: if b[EI_CLASS as int] == ELFCLASS32 {
            Container::Little
        } else {
            Container::Big
        },
        le: if b[EI_DATA as int] == ELFDATA2LSB {
            Endian::Little
        } else {
            Endian::Big
        },
    }
}

/// `h` is the file header that `b` starts with.
pub open spec fn starts_with_header(b: Seq<u8>, h: Header) -> bool {
    let e = announced_ctx(b).le;
    let w = announced_ctx(b).word();
    &&& h.e_ident@ == b.subrange(0, 16)
    &&& h.e_type == field(b, 16, 2, e)
    &&& h.e_machine == field(b, 18, 2, e)
    &&& h.e_version == field(b, 20, 4, e)
    &&& h.e_entry == field(b, 24, w, e)
    &&& h.e_phoff == field(b, 24 + w, w, e)
    &&& h.e_shoff == field(b, 24 + 2 * w, w, e)
    &&& h.e_flags == field(b, 24 + 3 * w, 4, e)
    &&& h.e_ehsize == field(b, 28 + 3 * w, 2, e)
    &&& h.e_phentsize == field(b, 30 + 3 * w, 2, e)
    &&& h.e_phnum == field(b, 32 + 3 * w, 2, e)
    &&& h.e_shentsize == field(b, 34 + 3 * w, 2, e)
    &&& h.e_shnum == field(b, 36 + 3 * w, 2, e)
    &&& h.e_shstrndx == field(b, 38 + 3 * w, 2, e)
}

/// The place of the program header table that the file header of `b` gives.
pub open spec fn phoff(b: Seq<u8>) -> u64 {
    field(b, 24 + announced_ctx(b).word(), announced_ctx(b).word(), announced_ctx(b).le) as u64
}

/// The place of the section header table that the file header of `b` gives.
pub open spec fn shoff(b: Seq<u8>) -> u64 {
    field(b, 24 + 2 * announced_ctx(b).word(), announced_ctx(b).word(), announced_ctx(b).le) as u64
}

/// The number of program headers that the file header of `b` gives.
pub open spec fn phnum(b: Seq<u8>) -> u16 {
    field(b, 32 + 3 * announced_ctx(b).word(), 2, announced_ctx(b).le) as u16
}

/// The number of section headers that the file header of `b` gives.
pub open spec fn shnum(b: Seq<u8>) -> u16 {
    field(b, 36 + 3 * announced_ctx(b).word(), 2, announced_ctx(b).le) as u16
}

/// The bytes of a file header.
pub open spec fn header_bytes(h: Header) -> Seq<u8> {
    let e = announced_ctx(h.e_ident@).le;
    let w = announced_ctx(h.e_ident@).word() as nat;
    h.e_ident@ + uint_bytes(h.e_type as nat, 2, e) + uint_bytes(h.e_machine as nat, 2, e)
        + uint_bytes(h.e_version as nat, 4, e) + uint_bytes(h.e_entry as nat, w, e) + uint_bytes(
        h.e_phoff as nat,
        w,
        e,
    ) + uint_bytes(h.e_shoff as nat, w, e) + uint_bytes(h.e_flags as nat, 4, e) + uint_bytes(
        h.e_ehsize as nat,
        2,
        e,
    ) + uint_bytes(h.e_phentsize as nat, 2, e) + uint_bytes(h.e_phnum as nat, 2, e) + uint_bytes(
        h.e_shentsize as nat,
        2,
        e,
    ) + uint_bytes(h.e_shnum as nat, 2, e) + uint_bytes(h.e_shstrndx as nat, 2, e)
}

/// The program header at a place.
pub open spec fn phdr_at(b: Seq<u8>, at: int, ctx: Ctx) -> ProgramHeader {
    let e = ctx.le;
    let w = ctx.word();
    let p = if ctx.container is Big {
        at + 8
    } else {
        at + 4
    };
    ProgramHeader {
        p_type: field(b, at, 4, e) as u32,
        p_flags: field(b, if ctx.container is Big { at + 4 } else { at + 24 }, 4, e) as u32,
        p_offset: field(b, p, w, e) as u64,
        p_vaddr: field(b, p + w, w, e) as u64,
        p_paddr: field(b, p + 2 * w, w, e) as u64,
        p_filesz: field(b, p + 3 * w, w, e) as u64,
        p_memsz: field(b, p + 4 * w, w, e) as u64,
        p_align: field(b, at + ctx.phdr_len() - w, w, e) as u64,
    }
}

/// The bytes of a program header.
pub open spec fn phdr_bytes(p: ProgramHeader, ctx: Ctx) -> Seq<u8> {
    let e = ctx.le;
    let w = ctx.word() as nat;
    let flags = uint_bytes(p.p_flags as nat, 4, e);
    let body = uint_bytes(p.p_offset as nat, w, e) + uint_bytes(p.p_vaddr as nat, w, e)
        + uint_bytes(p.p_paddr as nat, w, e) + uint_bytes(p.p_filesz as nat, w, e) + uint_bytes(
        p.p_memsz as nat,
        w,
        e,
    );
    let align = uint_bytes(p.p_align as nat, w, e);
    uint_bytes(p.p_type as nat, 4, e) + (match ctx.container {
        Container::Little => body + flags,
        Container::Big => flags + body,
    }) + align
}

/// The section header at a place.
pub open spec fn shdr_at(b: Seq<u8>, at: int, ctx: Ctx) -> SectionHeader {
    let e = ctx.le;
    let w = ctx.word();
    SectionHeader {
        sh_name: field(b, at, 4, e) as usize,
        sh_type: field(b, at + 4, 4, e) as u32,
        sh_flags: field(b, at + 8, w, e) as u64,
        sh_addr: field(b, at + 8 + w, w, e) as u64,
        sh_offset: field(b, at + 8 + 2 * w, w, e) as u64,
        sh_size: field(b, at + 8 + 3 * w, w, e) as u64,
        sh_link: field(b, at + 8 + 4 * w, 4, e) as u32,
        sh_info: field(b, at + 12 + 4 * w, 4, e) as u32,
        sh_addralign: field(b, at + 16 + 4 * w, w, e) as u64,
        sh_entsize: field(b, at + 16 + 5 * w, w, e) as u64,
    }
}

/// The bytes of a section header.
pub open spec fn shdr_bytes(h: SectionHeader, ctx: Ctx) -> Seq<u8> {
    let e = ctx.le;
    let w = ctx.word() as nat;
    uint_bytes(h.sh_name as nat, 4, e) + uint_bytes(h.sh_type as nat, 4, e) + uint_bytes(
        h.sh_flags as nat,
        w,
        e,
    ) + uint_bytes(h.sh_addr as nat, w, e) + uint_bytes(h.sh_offset as nat, w, e) + uint_bytes(
        h.sh_size as nat,
        w,
        e,
    ) + uint_bytes(h.sh_link as nat, 4, e) + uint_bytes(h.sh_info as nat, 4, e) + uint_bytes(
        h.sh_addralign as nat,
        w,
        e,
    ) + uint_bytes(h.sh_entsize as nat, w, e)
}

/// The dynamic entry at a place.
pub open spec fn dyn_at(b: Seq<u8>, at: int, ctx: Ctx) -> Dyn {
    let w = ctx.word();
    Dyn { d_tag: field(b, at, w, ctx.le) as u64, d_val: field(b, at + w, w, ctx.le) as u64 }
}

/// The bytes of a dynamic entry.
pub open spec fn dyn_bytes(d: Dyn, ctx: Ctx) -> Seq<u8> {
    let w = ctx.word() as nat;
    uint_bytes(d.d_tag as nat, w, ctx.le) + uint_bytes(d.d_val as nat, w, ctx.le)
}

/// The complaint about a place behind the end of the bytes.
pub open spec fn bad_offset(at: int) -> ErrorView {
    ErrorView::Scroll("bad offset "@ + text::decimal(at))
}

/// The complaint about integers of the given widths, read or written one behind the
/// other in `room` bytes: it names the first that does not fit and the bytes left
/// for it.
pub open spec fn misfit(widths: Seq<int>, room: int) -> ErrorView
    decreases widths.len(),
{
    if widths.len() <= 1 || room < widths[0] {
        ErrorView::Scroll(
            "type is too big ("@ + text::decimal(widths[0]) + ") for "@ + text::decimal(room),
        )
    } else {
        misfit(widths.drop_first(), room - widths[0])
    }
}

/// The widths of the integers of a file header, in their order.
pub open spec fn header_widths(ctx: Ctx) -> Seq<int> {
    let w = ctx.word();
    seq![2, 2, 4, w, w, w, 4, 2, 2, 2, 2, 2, 2]
}

/// The widths of the integers of a program header, in their order.
pub open spec fn phdr_widths(ctx: Ctx) -> Seq<int> {
    match ctx.container {
        Container::Little => seq![4, 4, 4, 4, 4, 4, 4, 4],
        Container::Big => seq![4, 4, 8, 8, 8, 8, 8, 8],
    }
}

/// The widths of the integers of a section header, in their order.
pub open spec fn shdr_widths(ctx: Ctx) -> Seq<int> {
    let w = ctx.word();
    seq![4, 4, w, w, w, w, 4, 4, w, w]
}

/// What is wrong with the file header that `b` should start with, if anything.
pub open spec fn header_fault(b: Seq<u8>) -> Option<ErrorView> {
    if b.len() < 16 {
        Some(ErrorView::Malformed("Too small"@))
    } else if b.subrange(0, 4) != seq![0x7fu8, 0x45, 0x4c, 0x46] {
        Some(ErrorView::BadMagic(le_uint(b.subrange(0, 8)) as int))
    } else if b[EI_CLASS as int] != ELFCLASS32 && b[EI_CLASS as int] != ELFCLASS64 {
        Some(ErrorView::Malformed("invalid ELF class "@ + text::hex(b[EI_CLASS as int] as int)))
    } else if b[EI_DATA as int] != ELFDATA2LSB && b[EI_DATA as int] != ELFDATA2MSB {
        Some(
            ErrorView::Malformed(
                "invalid ELF endianness DATA type "@ + text::hex(b[EI_DATA as int] as int),
            ),
        )
    } else if b.len() < announced_ctx(b).ehdr_len() {
        Some(misfit(header_widths(announced_ctx(b)), b.len() - 16))
    } else {
        None
    }
}

/// What is wrong with a table of `count` program headers at `at`, if anything.
pub open spec fn phdrs_fault(b: Seq<u8>, at: int, count: int, ctx: Ctx) -> Option<ErrorView> {
    let size = ctx.phdr_len();
    if count > b.len() as int / size {
        Some(ErrorView::BufferTooShort(count, "program headers"@))
    } else if count == 0 || at + count * size <= b.len() {
        None
    } else if at > b.len() {
        Some(bad_offset(at))
    } else {
        Some(misfit(phdr_widths(ctx), (b.len() - at) % size))
    }
}

/// The length of the section header table at `at`: the announced count, or, where
/// that is zero, the size of the first section, and in any case at least one.
pub open spec fn shdrs_announced(b: Seq<u8>, at: int, count: int, ctx: Ctx) -> int {
    if count == 0 {
        shdr_at(b, at, ctx).sh_size as int % (usize::MAX + 1)
    } else {
        count
    }
}

/// The number of section headers in the table at `at`.
pub open spec fn shdrs_len(b: Seq<u8>, at: int, count: int, ctx: Ctx) -> int {
    if at == 0 {
        0
    } else if shdrs_announced(b, at, count, ctx) == 0 {
        1
    } else {
        shdrs_announced(b, at, count, ctx)
    }
}

/// What is wrong with a table of section headers at `at`, if anything.
pub open spec fn shdrs_fault(b: Seq<u8>, at: int, count: int, ctx: Ctx) -> Option<ErrorView> {
    let size = ctx.shdr_len();
    if at == 0 {
        None
    } else if at > b.len() {
        Some(bad_offset(at))
    } else if at + size > b.len() {
        Some(misfit(shdr_widths(ctx), b.len() - at))
    } else if shdrs_announced(b, at, count, ctx) > b.len() as int / size {
        Some(ErrorView::BufferTooShort(shdrs_announced(b, at, count, ctx), "section headers"@))
    } else if at + shdrs_len(b, at, count, ctx) * size > b.len() {
        Some(misfit(shdr_widths(ctx), (b.len() - at) % size))
    } else {
        None
    }
}

/// The widths of what is written for a file header: the identification byte by byte,
/// then the integers.
pub open spec fn header_parts(ctx: Ctx) -> Seq<int> {
    Seq::new(16, |i: int| 1int) + header_widths(ctx)
}

/// The bytes that parts of the given widths, written one behind the other, fill in
/// `room` bytes before one does not fit.
pub open spec fn fitting(widths: Seq<int>, room: int) -> int
    decreases widths.len(),
{
    if widths.len() == 0 || room < widths[0] {
        0
    } else {
        widths[0] + fitting(widths.drop_first(), room - widths[0])
    }
}

/// What keeps a file header from being written at the start of `b`, if anything.
pub open spec fn header_write_fault(b: Seq<u8>, h: Header) -> Option<ErrorView> {
    let class = h.e_ident@[EI_CLASS as int];
    let data = h.e_ident@[EI_DATA as int];
    let ctx = announced_ctx(h.e_ident@);
    if class != ELFCLASS32 && class != ELFCLASS64 {
        Some(ErrorView::Malformed("Invalid class in Header: "@ + text::decimal(class as int)))
    } else if data != ELFDATA2LSB && data != ELFDATA2MSB {
        Some(ErrorView::Malformed("invalid ELF DATA type "@ + text::hex(data as int)))
    } else if b.len() < ctx.ehdr_len() {
        Some(misfit(header_parts(ctx), b.len() as int))
    } else {
        None
    }
}

/// The bytes after an attempt to write a file header at their start: in bytes that
/// are too short the fields that fit are written.
pub open spec fn with_header(b: Seq<u8>, h: Header) -> Seq<u8> {
    let ctx = announced_ctx(h.e_ident@);
    if header_write_fault(b, h) is None {
        splice(b, 0, header_bytes(h))
    } else if header_write_fault(b, h)->0 is Malformed {
        b
    } else {
        splice(b, 0, header_bytes(h).take(fitting(header_parts(ctx), b.len() as int)))
    }
}

proof fn lemma_le_bytes_len(v: nat, w: nat)
    ensures
        le_bytes(v, w).len() == w,
    decreases w,
{
    if w > 0 {
        lemma_le_bytes_len(v / 256, (w - 1) as nat);
    }
}

/// A number takes the bytes it is given.
pub proof fn lemma_uint_bytes_len(v: nat, w: nat, e: Endian)
    ensures
        uint_bytes(v, w, e).len() == w,
{
    reveal(uint_bytes);
    lemma_le_bytes_len(v, w);
}

/// A dynamic entry takes the bytes of one.
pub proof fn lemma_dyn_bytes_len(d: Dyn, ctx: Ctx)
    ensures
        dyn_bytes(d, ctx).len() == ctx.dyn_len(),
{
    lemma_uint_bytes_len(d.d_tag as nat, ctx.word() as nat, ctx.le);
    lemma_uint_bytes_len(d.d_val as nat, ctx.word() as nat, ctx.le);
}

/// Writes `part` over `contents`, starting at `at`.
pub fn overwrite(contents: &mut Vec<u8>, at: usize, part: &[u8])
    requires
        at + part@.len() <= old(contents)@.len(),
    ensures
        final(contents)@ == splice(old(contents)@, at as int, part@),
{
    let ghost before = contents@;
    assert(before.len() == contents.len());
    let mut i: usize = 0;
    while i < part.len()
        invariant
            i <= part@.len(),
            at + part@.len() <= before.len() <= usize::MAX,
            contents@.len() == before.len(),
            forall|j: int|
                0 <= j < before.len() ==> contents@[j] == (if at <= j < at + i {
                    part@[j - at]
                } else {
                    before[j]
                }),
        decreases part.len() - i,
    {
        contents[at + i] = part[i];
        i = i + 1;
    }
    assert(contents@ =~= splice(before, at as int, part@));
}

/// Calls scroll's `Pread::pread` for goblin's `elf::header::Header` at offset
/// zero. The header comes back field by field from the places of its class, in
/// its own byte order; the error is the first fault that `header_fault` lists.
#[verifier::external_body]
pub(crate) fn read_header(data: &[u8]) -> (r: Result<Header, Error>)
    ensures
        match r {
            Ok(h) => header_fault(data@) is None && starts_with_header(data@, h),
            Err(e) => header_fault(data@) == Some(e@),
        },
{
    match data.pread::<RawHeader>(0) {
        Ok(h) => Ok(
            Header {
                e_ident: h.e_ident, e_type: h.e_type, e_machine: h.e_machine,
                e_version: h.e_version, e_entry: h.e_entry, e_phoff: h.e_phoff,
                e_shoff: h.e_shoff, e_flags: h.e_flags, e_ehsize: h.e_ehsize,
                e_phentsize: h.e_phentsize, e_phnum: h.e_phnum, e_shentsize: h.e_shentsize,
                e_shnum: h.e_shnum, e_shstrndx: h.e_shstrndx,
            },
        ),
        Err(Fault::BadMagic(n)) => Err(Error::BadMagic(n)),
        Err(Fault::Malformed(m)) => Err(Error::Malformed(m)),
        Err(e) => Err(Error::Scroll(e.to_string())),
    }
}

/// Calls goblin's `elf::program_header::ProgramHeader::parse`. The table comes back
/// entry by entry from its place; the error is the first fault that `phdrs_fault`
/// lists.
#[verifier::external_body]
pub(crate) fn read_program_headers(data: &[u8], at: usize, count: usize, ctx: Ctx) -> (r: Result<
    Vec<ProgramHeader>,
    Error,
>)
    ensures
        match r {
            Ok(v) => {
                &&& phdrs_fault(data@, at as int, count as int, ctx) is None
                &&& v@ == Seq::new(
                    count as nat,
                    |i: int| phdr_at(data@, at + i * ctx.phdr_len(), ctx),
                )
            },
            Err(e) => phdrs_fault(data@, at as int, count as int, ctx) == Some(e@),
        },
{
    let width = match ctx.container { Container::Little => RawContainer::Little, Container::Big => RawContainer::Big };
    let le = match ctx.le { Endian::Little => LE, Endian::Big => BE };
    match RawProgramHeader::parse(data, at, count, RawCtx::new(width, le)) {
        Ok(v) => Ok(
            v.into_iter().map(|p| ProgramHeader {
                p_type: p.p_type, p_flags: p.p_flags, p_offset: p.p_offset, p_vaddr: p.p_vaddr,
                p_paddr: p.p_paddr, p_filesz: p.p_filesz, p_memsz: p.p_memsz, p_align: p.p_align,
            }).collect(),
        ),
        Err(Fault::BufferTooShort(n, what)) => Err(Error::BufferTooShort(n, what)),
        Err(e) => Err(Error::Scroll(e.to_string())),
    }
}

/// Calls goblin's `elf::section_header::SectionHeader::parse`. The table comes back
/// entry by entry from its place; the error is the first fault that `shdrs_fault`
/// lists.
#[verifier::external_body]
pub(crate) fn read_section_headers(data: &[u8], at: usize, count: usize, ctx: Ctx) -> (r: Result<
    Vec<SectionHeader>,
    Error,
>)
    ensures
        match r {
            Ok(v) => {
                &&& shdrs_fault(data@, at as int, count as int, ctx) is None
                &&& v@ == Seq::new(
                    shdrs_len(data@, at as int, count as int, ctx) as nat,
                    |i: int| shdr_at(data@, at + i * ctx.shdr_len(), ctx),
                )
            },
            Err(e) => shdrs_fault(data@, at as int, count as int, ctx) == Some(e@),
        },
{
    let width = match ctx.container { Container::Little => RawContainer::Little, Container::Big => RawContainer::Big };
    let le = match ctx.le { Endian::Little => LE, Endian::Big => BE };
    match RawSectionHeader::parse(data, at, count, RawCtx::new(width, le)) {
        Ok(v) => Ok(
            v.into_iter().map(|s| SectionHeader {
                sh_name: s.sh_name, sh_type: s.sh_type, sh_flags: s.sh_flags, sh_addr: s.sh_addr,
                sh_offset: s.sh_offset, sh_size: s.sh_size, sh_link: s.sh_link,
                sh_info: s.sh_info, sh_addralign: s.sh_addralign, sh_entsize: s.sh_entsize,
            }).collect(),
        ),
        Err(Fault::BufferTooShort(n, what)) => Err(Error::BufferTooShort(n, what)),
        Err(e) => Err(Error::Scroll(e.to_string())),
    }
}

/// Calls scroll's `Pread::pread_with` for goblin's `elf::dynamic::Dyn`, at a place
/// where an entry fits. The entry is the one that stands there.
#[verifier::external_body]
pub(crate) fn read_dyn(data: &[u8], at: usize, ctx: Ctx) -> (r: Dyn)
    requires
        at + ctx.dyn_len() <= data@.len(),
    ensures
        r == dyn_at(data@, at as int, ctx),
{
    let width = match ctx.container { Container::Little => RawContainer::Little, Container::Big => RawContainer::Big };
    let le = match ctx.le { Endian::Little => LE, Endian::Big => BE };
    let d = data.pread_with::<RawDyn>(at, RawCtx::new(width, le)).unwrap();
    Dyn { d_tag: d.d_tag, d_val: d.d_val }
}

/// Calls scroll's `Pwrite::pwrite_with` for goblin's `elf::header::Header` at offset
/// zero. The header's bytes, in the class and byte order that it announces itself,
/// replace the first bytes; where it announces none that exists, nothing is written.
#[verifier::external_body]
pub(crate) fn write_header(contents: &mut Vec<u8>, h: &Header) -> (r: Result<(), Error>)
    ensures
        types::outcome(r) == header_write_fault(old(contents)@, *h),
        final(contents)@ == with_header(old(contents)@, *h),
{
    let raw = RawHeader {
        e_ident: h.e_ident, e_type: h.e_type, e_machine: h.e_machine, e_version: h.e_version,
        e_entry: h.e_entry, e_phoff: h.e_phoff, e_shoff: h.e_shoff, e_flags: h.e_flags,
        e_ehsize: h.e_ehsize, e_phentsize: h.e_phentsize, e_phnum: h.e_phnum,
        e_shentsize: h.e_shentsize, e_shnum: h.e_shnum, e_shstrndx: h.e_shstrndx,
    };
    match contents.pwrite_with(raw, 0, LE) {
        Ok(_) => Ok(()),
        Err(Fault::Malformed(m)) => Err(Error::Malformed(m)),
        Err(e) => Err(Error::Scroll(e.to_string())),
    }
}

/// Calls scroll's `Pwrite::pwrite_with` for goblin's
/// `elf::program_header::ProgramHeader`, at a place where one fits. The bytes of the
/// program header replace those that stood there.
#[verifier::external_body]
pub(crate) fn write_program_header(contents: &mut Vec<u8>, p: &ProgramHeader, at: usize, ctx: Ctx)
    requires
        at + ctx.phdr_len() <= old(contents)@.len(),
    ensures
        final(contents)@ == splice(old(contents)@, at as int, phdr_bytes(*p, ctx)),
{
    let width = match ctx.container { Container::Little => RawContainer::Little, Container::Big => RawContainer::Big };
    let le = match ctx.le { Endian::Little => LE, Endian::Big => BE };
    let raw = RawProgramHeader {
        p_type: p.p_type, p_flags: p.p_flags, p_offset: p.p_offset, p_vaddr: p.p_vaddr,
        p_paddr: p.p_paddr, p_filesz: p.p_filesz, p_memsz: p.p_memsz, p_align: p.p_align,
    };
    contents.pwrite_with(raw, at, RawCtx::new(width, le)).unwrap();
}

/// Calls scroll's `Pwrite::pwrite_with` for goblin's
/// `elf::section_header::SectionHeader`, at a place where one fits. The bytes of the
/// section header replace those that stood there.
#[verifier::external_body]
pub(crate) fn write_section_header(contents: &mut Vec<u8>, s: &SectionHeader, at: usize, ctx: Ctx)
    requires
        at + ctx.shdr_len() <= old(contents)@.len(),
    ensures
        final(contents)@ == splice(old(contents)@, at as int, shdr_bytes(*s, ctx)),
{
    let width = match ctx.container { Container::Little => RawContainer::Little, Container::Big => RawContainer::Big };
    let le = match ctx.le { Endian::Little => LE, Endian::Big => BE };
    let raw = RawSectionHeader {
        sh_name: s.sh_name, sh_type: s.sh_type, sh_flags: s.sh_flags, sh_addr: s.sh_addr,
        sh_offset: s.sh_offset, sh_size: s.sh_size, sh_link: s.sh_link, sh_info: s.sh_info,
        sh_addralign: s.sh_addralign, sh_entsize: s.sh_entsize,
    };
    contents.pwrite_with(raw, at, RawCtx::new(width, le)).unwrap();
}

/// The bytes after an attempt to write a dynamic entry at a place: where it does not
/// fit, the tag alone is written if that fits.
pub open spec fn with_dyn(b: Seq<u8>, d: Dyn, at: int, ctx: Ctx) -> Seq<u8> {
    if at + ctx.dyn_len() <= b.len() {
        splice(b, at, dyn_bytes(d, ctx))
    } else if at + ctx.word() <= b.len() {
        splice(b, at, uint_bytes(d.d_tag as nat, ctx.word() as nat, ctx.le))
    } else {
        b
    }
}

/// What keeps a dynamic entry from being written at a place, if anything.
pub open spec fn dyn_write_fault(b: Seq<u8>, at: int, ctx: Ctx) -> Option<ErrorView> {
    if at + ctx.dyn_len() <= b.len() {
        None
    } else if at > b.len() {
        Some(bad_offset(at))
    } else {
        Some(misfit(seq![ctx.word(), ctx.word()], b.len() - at))
    }
}

/// Calls scroll's `Pwrite::pwrite_with` for goblin's `elf::dynamic::Dyn`. The bytes
/// of the entry replace those at the place; where the entry does not fit, the error
/// says what does not, and the tag is written if there is room for it.
#[verifier::external_body]
pub(crate) fn write_dyn(contents: &mut Vec<u8>, d: Dyn, at: usize, ctx: Ctx) -> (r: Result<
    (),
    Error,
>)
    ensures
        types::outcome(r) == dyn_write_fault(old(contents)@, at as int, ctx),
        final(contents)@ == with_dyn(old(contents)@, d, at as int, ctx),
{
    let width = match ctx.container { Container::Little => RawContainer::Little, Container::Big => RawContainer::Big };
    let le = match ctx.le { Endian::Little => LE, Endian::Big => BE };
    match contents.pwrite_with(RawDyn { d_tag: d.d_tag, d_val: d.d_val }, at, RawCtx::new(width, le)) {
        Ok(_) => Ok(()),
        Err(e) => Err(Error::Scroll(e.to_string())),
    }
}

} // verus!
