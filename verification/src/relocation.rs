//! How the contents that wait are placed in a file, and how its headers follow.
//!
//! They are placed behind the end of the file, in the order of their names. Sections
//! that the program header table may grow into are placed with them. A step whose
//! addresses or places would be out of range leads to no state at all.

use crate::codec;
use crate::edits;
use crate::edits::Step;
use crate::order;
use crate::sections;
use crate::state::ElfState;
use crate::text;
use crate::types::{
    Ctx, Dyn, ErrorView, Header, ProgramHeader, SectionHeader, DT_GNU_HASH, DT_HASH, DT_JMPREL,
    DT_REL, DT_RELA, DT_RELASZ, DT_RELSZ, DT_STRSZ, DT_STRTAB, DT_SYMTAB, DT_VERDEF, DT_VERNEED,
    DT_VERSYM, EM_AARCH64, EM_FAKE_ALPHA, EM_IA_64, EM_LOONGARCH, EM_MIPS, EM_PPC, EM_PPC64,
    EM_SPARC, EM_SPARCV9, ET_DYN, ET_EXEC, PF_RW, PT_DYNAMIC, PT_INTERP, PT_LOAD, PT_NOTE,
    PT_PHDR, SHT_NOBITS, SHT_NOTE, SHT_PROGBITS,
};
use vstd::prelude::*;

verus! {

/// The page size of a machine.
pub open spec fn page_size(machine: u16) -> int {
    if machine == EM_FAKE_ALPHA || machine == EM_IA_64 || machine == EM_MIPS || machine == EM_PPC
        || machine == EM_PPC64 || machine == EM_AARCH64 || machine == EM_LOONGARCH {
        0x10000
    } else if machine == EM_SPARC || machine == EM_SPARCV9 {
        0x2000
    } else {
        0x1000
    }
}

/// The least multiple of `m` that is not below `n`; `n` itself where `m` is zero.
pub open spec fn rounded(n: int, m: int) -> int {
    if m == 0 {
        n
    } else {
        ((n + m - 1) / m) * m
    }
}

/// The rounded number is a multiple of `m`, not below `n`, and less than `m` above it.
pub proof fn lemma_rounded(n: int, m: int)
    requires
        0 <= n,
        0 < m,
    ensures
        n <= rounded(n, m) < n + m,
        rounded(n, m) % m == 0,
{
    let q = (n + m - 1) / m;
    vstd::arithmetic::div_mod::lemma_fundamental_div_mod(n + m - 1, m);
    assert(q * m == m * q) by (nonlinear_arith);
    vstd::arithmetic::div_mod::lemma_mod_multiples_basic(q, m);
}

/// No multiple of `m` that is not below `n` is less than the rounded number.
pub proof fn law_rounded_is_least(n: int, m: int, k: int)
    requires
        0 <= n <= k,
        0 < m,
        k % m == 0,
    ensures
        rounded(n, m) <= k,
{
    let q = (n + m - 1) / m;
    let t = k / m;
    vstd::arithmetic::div_mod::lemma_fundamental_div_mod(n + m - 1, m);
    vstd::arithmetic::div_mod::lemma_fundamental_div_mod(k, m);
    assert(q <= t) by (nonlinear_arith)
        requires
            m * t >= n,
            m * q < n + m,
            m > 0,
    ;
    assert(q * m <= m * t) by (nonlinear_arith)
        requires
            q <= t,
            m > 0,
    ;
}

/// Whether the rounding of `n` to a multiple of `m` stays in range.
pub open spec fn can_round(n: int, m: int) -> bool {
    m == 0 || n + m - 1 <= u64::MAX
}

/// The greater of two numbers.
pub open spec fn greater(a: int, b: int) -> int {
    if b > a {
        b
    } else {
        a
    }
}

/// The alignment of a section, at least one.
pub open spec fn alignment(h: SectionHeader) -> int {
    greater(h.sh_addralign as int, 1)
}

/// The highest address behind one of the first `n` segments.
pub open spec fn top_address(phdrs: Seq<ProgramHeader>, n: int) -> int
    decreases n,
{
    if n <= 0 {
        0
    } else {
        let end = phdrs[n - 1].p_vaddr + phdrs[n - 1].p_memsz;
        greater(
            top_address(phdrs, n - 1),
            if end > u64::MAX {
                u64::MAX as int
            } else {
                end
            },
        )
    }
}

/// The greatest alignment of the first `n` segments, at least `least`.
pub open spec fn top_align(phdrs: Seq<ProgramHeader>, least: int, n: int) -> int
    decreases n,
{
    if n <= 0 {
        least
    } else {
        greater(top_align(phdrs, least, n - 1), phdrs[n - 1].p_align as int)
    }
}

/// The note sections among the first `n` sections.
pub open spec fn notes(shdrs: Seq<SectionHeader>, n: int) -> Seq<SectionHeader>
    decreases n,
{
    if n <= 0 {
        Seq::empty()
    } else if shdrs[n - 1].sh_type == SHT_NOTE {
        notes(shdrs, n - 1).push(shdrs[n - 1])
    } else {
        notes(shdrs, n - 1)
    }
}

/// The number of note segments among the first `n` segments.
pub open spec fn note_segments(phdrs: Seq<ProgramHeader>, n: int) -> int
    decreases n,
{
    if n <= 0 {
        0
    } else if phdrs[n - 1].p_type == PT_NOTE {
        note_segments(phdrs, n - 1) + 1
    } else {
        note_segments(phdrs, n - 1)
    }
}

/// The number of segments of the program header table itself among the first `n`.
pub open spec fn table_segments(phdrs: Seq<ProgramHeader>, n: int) -> int
    decreases n,
{
    if n <= 0 {
        0
    } else if phdrs[n - 1].p_type == PT_PHDR {
        table_segments(phdrs, n - 1) + 1
    } else {
        table_segments(phdrs, n - 1)
    }
}

/// The note sections among the first `n` sections that start inside a segment.
pub open spec fn notes_inside(shdrs: Seq<SectionHeader>, p: ProgramHeader, n: int) -> Seq<
    SectionHeader,
>
    decreases n,
{
    if n <= 0 {
        Seq::empty()
    } else {
        let h = shdrs[n - 1];
        if h.sh_type == SHT_NOTE && p.p_offset <= h.sh_offset < p.p_offset + p.p_filesz {
            notes_inside(shdrs, p, n - 1).push(h)
        } else {
            notes_inside(shdrs, p, n - 1)
        }
    }
}

/// The places of sections.
pub open spec fn offsets(shdrs: Seq<SectionHeader>) -> Seq<u128> {
    Seq::new(shdrs.len(), |i: int| shdrs[i].sh_offset as u128)
}

/// Sections in the order of their places, those at one place in their own order.
pub open spec fn by_offset(shdrs: Seq<SectionHeader>) -> Seq<SectionHeader> {
    let o = order::order(offsets(shdrs));
    Seq::new(shdrs.len(), |i: int| shdrs[o[i] as int])
}

/// The segment for one note section of a note segment.
pub open spec fn note_piece(p: ProgramHeader, h: SectionHeader) -> ProgramHeader {
    ProgramHeader {
        p_type: PT_NOTE,
        p_flags: p.p_flags,
        p_offset: h.sh_offset,
        p_vaddr: (p.p_vaddr + (h.sh_offset - p.p_offset)) as u64,
        p_paddr: (p.p_paddr + (h.sh_offset - p.p_offset)) as u64,
        p_filesz: h.sh_size,
        p_memsz: h.sh_size,
        p_align: h.sh_addralign,
    }
}

/// Whether the addresses of a piece of a note segment are in range.
pub open spec fn piece_fits(p: ProgramHeader, h: SectionHeader) -> bool {
    &&& p.p_vaddr + (h.sh_offset - p.p_offset) <= u64::MAX
    &&& p.p_paddr + (h.sh_offset - p.p_offset) <= u64::MAX
}

/// What becomes of a segment when note segments are split: a note segment with
/// several note sections is split into one for each, in the order of their places.
pub open spec fn split_segment(shdrs: Seq<SectionHeader>, p: ProgramHeader) -> Option<
    Seq<ProgramHeader>,
> {
    let inside = by_offset(notes_inside(shdrs, p, shdrs.len() as int));
    if p.p_type != PT_NOTE {
        Some(seq![p])
    } else if p.p_offset + p.p_filesz > u64::MAX {
        None
    } else if inside.len() <= 1 {
        Some(seq![p])
    } else if exists|k: int| 0 <= k < inside.len() && !piece_fits(p, #[trigger] inside[k]) {
        None
    } else {
        Some(Seq::new(inside.len(), |k: int| note_piece(p, inside[k])))
    }
}

/// The segments after the splitting of note segments from the `i`-th on: the first
/// piece of each in its place, the other pieces behind all of them.
pub open spec fn split_from(
    shdrs: Seq<SectionHeader>,
    phdrs: Seq<ProgramHeader>,
    first: Seq<ProgramHeader>,
    others: Seq<ProgramHeader>,
    i: int,
) -> Option<Seq<ProgramHeader>>
    decreases phdrs.len() - i,
{
    if i >= phdrs.len() {
        Some(first + others)
    } else {
        match split_segment(shdrs, phdrs[i]) {
            None => None,
            Some(pieces) => split_from(
                shdrs,
                phdrs,
                first.push(pieces[0]),
                others + pieces.drop_first(),
                i + 1,
            ),
        }
    }
}

/// The first position from the `i`-th on that holds `x`.
pub open spec fn position_from(o: Seq<usize>, x: usize, i: int) -> Option<int>
    decreases o.len() - i,
{
    if i >= o.len() {
        None
    } else if o[i] == x {
        Some(i)
    } else {
        position_from(o, x, i + 1)
    }
}

/// Where each number below the length of `o` stands in it.
pub open spec fn positions(o: Seq<usize>) -> Seq<usize> {
    Seq::new(o.len(), |i: int| position_from(o, i as usize, 0)->0 as usize)
}

/// The first segment from the `i`-th on that a load of new bytes can extend: it ends
/// less than a page before them, in the file and in memory, and loads the bytes from
/// `offset` on to the addresses from `addr` on.
pub open spec fn extendable_from(
    phdrs: Seq<ProgramHeader>,
    offset: int,
    addr: int,
    page: int,
    i: int,
) -> Option<Option<int>>
    decreases phdrs.len() - i,
{
    if i >= phdrs.len() {
        Some(None)
    } else {
        let p = phdrs[i];
        let end_offset = p.p_offset + p.p_filesz;
        let end_addr = p.p_vaddr + p.p_memsz;
        if p.p_type != PT_LOAD {
            extendable_from(phdrs, offset, addr, page, i + 1)
        } else if end_offset > u64::MAX || end_addr > u64::MAX {
            None
        } else if end_offset <= offset < end_offset + page && end_addr <= addr < end_addr + page
            && addr - p.p_vaddr == offset - p.p_offset {
            Some(Some(i))
        } else {
            extendable_from(phdrs, offset, addr, page, i + 1)
        }
    }
}

/// The key by which segments are sorted: the program header table first, then by
/// physical address.
pub open spec fn segment_key(p: ProgramHeader) -> u128 {
    if p.p_type == PT_PHDR {
        0
    } else {
        (p.p_paddr + 1) as u128
    }
}

/// Segments in the order of their keys.
pub open spec fn by_key(phdrs: Seq<ProgramHeader>) -> Seq<ProgramHeader> {
    let o = order::order(Seq::new(phdrs.len(), |i: int| segment_key(phdrs[i])));
    Seq::new(phdrs.len(), |i: int| phdrs[o[i] as int])
}

/// A segment that covers a section.
pub open spec fn covering(p: ProgramHeader, h: SectionHeader) -> ProgramHeader {
    ProgramHeader {
        p_offset: h.sh_offset,
        p_vaddr: h.sh_addr,
        p_paddr: h.sh_addr,
        p_filesz: h.sh_size,
        p_memsz: h.sh_size,
        ..p
    }
}

/// Bytes with the first `n` program headers written over them, those that fit.
pub open spec fn phdrs_written(
    b: Seq<u8>,
    phdrs: Seq<ProgramHeader>,
    at: int,
    ctx: Ctx,
    n: int,
) -> Seq<u8>
    decreases n,
{
    if n <= 0 {
        b
    } else {
        let before = phdrs_written(b, phdrs, at, ctx, n - 1);
        let place = at + (n - 1) * ctx.phdr_len();
        if place + ctx.phdr_len() <= before.len() {
            codec::splice(before, place, codec::phdr_bytes(phdrs[n - 1], ctx))
        } else {
            before
        }
    }
}

/// Bytes with the first `n` section headers written over them, those that fit.
pub open spec fn shdrs_written(
    b: Seq<u8>,
    shdrs: Seq<SectionHeader>,
    at: int,
    ctx: Ctx,
    n: int,
) -> Seq<u8>
    decreases n,
{
    if n <= 0 {
        b
    } else {
        let before = shdrs_written(b, shdrs, at, ctx, n - 1);
        let place = at + (n - 1) * ctx.shdr_len();
        if place + ctx.shdr_len() <= before.len() {
            codec::splice(before, place, codec::shdr_bytes(shdrs[n - 1], ctx))
        } else {
            before
        }
    }
}

impl ElfState {
    /// The state with other program headers, their number noted in the file header.
    pub open spec fn with_phdrs(self, phdrs: Seq<ProgramHeader>) -> ElfState {
        ElfState {
            phdrs,
            header: Header { e_phnum: phdrs.len() as u16, ..self.header },
            ..self
        }
    }

    /// The bytes that the file header and the program header table may come to take.
    pub open spec fn table_end(self) -> int {
        let count = self.phdrs.len() + notes(self.shdrs, self.shdrs.len() as int).len() + 1;
        rounded(self.ctx.ehdr_len() + count * self.ctx.phdr_len(), self.ctx.word())
    }

    /// Whether a section can be moved: not one with code or data, but the interpreter.
    pub open spec fn is_movable(self, i: int) -> bool {
        self.name_of(i) == Some(".interp"@) || (self.shdrs[i].sh_type != SHT_PROGBITS
            && self.shdrs[i].sh_type != SHT_NOBITS)
    }

    /// Whether a section has to give way to headers that end at `limit`.
    pub open spec fn is_in_the_way(self, i: int, limit: int) -> bool {
        &&& self.shdrs[i].sh_offset <= limit
        &&& self.name_of(i) is Some
        &&& sections::lookup(self.replaced, self.name_of(i)->0) is None
        &&& self.is_movable(i)
    }

    /// The sections but the first, below the `n`-th, that have to give way.
    pub open spec fn obstacles(self, limit: int, n: int) -> Seq<usize>
        decreases n,
    {
        if n <= 1 {
            Seq::empty()
        } else if self.is_in_the_way(n - 1, limit) {
            self.obstacles(limit, n - 1).push((n - 1) as usize)
        } else {
            self.obstacles(limit, n - 1)
        }
    }

    /// The state with the contents of the listed sections from the `k`-th on waiting to
    /// be placed.
    pub open spec fn lifted_from(self, list: Seq<usize>, k: int) -> Option<ElfState>
        decreases list.len() - k,
    {
        if k >= list.len() {
            Some(self)
        } else {
            let size = self.shdrs[list[k] as int].sh_size;
            let name = self.name_of(list[k] as int)->0;
            if size > isize::MAX {
                None
            } else {
                self.with_section(
                    name,
                    edits::resized(self.current(name, self.section(name)->0), size as int),
                ).lifted_from(list, k + 1)
            }
        }
    }

    /// Whether the content of a note section waits to be placed.
    pub open spec fn moves_note(self) -> bool {
        exists|k: int|
            0 <= k < self.replaced.len() && (#[trigger] self.section(self.replaced[k].0) matches Some(
                h,
            ) && h.sh_type == SHT_NOTE)
    }

    /// The state with note segments split, where a note section is to be placed.
    pub open spec fn normalized(self) -> Option<ElfState> {
        if !self.moves_note() {
            Some(self)
        } else {
            match split_from(self.shdrs, self.phdrs, Seq::empty(), Seq::empty(), 0) {
                Some(phdrs) => Some(self.with_phdrs(phdrs)),
                None => None,
            }
        }
    }

    /// The order of the section headers by their places.
    pub open spec fn sorting(self) -> Seq<usize> {
        order::order(offsets(self.shdrs))
    }

    /// The state with the section headers sorted by their places.
    pub open spec fn sorted(self) -> ElfState {
        let o = self.sorting();
        ElfState {
            shdrs: by_offset(self.shdrs),
            header: match position_from(o, self.header.e_shstrndx as usize, 0) {
                Some(k) => Header { e_shstrndx: k as u16, ..self.header },
                None => self.header,
            },
            index_map: positions(o),
            ..self
        }
    }

    /// The greatest alignment of the first `n` sections to be placed, at least `least`.
    pub open spec fn placing_align(self, least: int, n: int) -> int
        decreases n,
    {
        if n <= 0 {
            least
        } else {
            let before = self.placing_align(least, n - 1);
            match self.section(self.replaced[n - 1].0) {
                Some(h) => if h.sh_addralign > 1 {
                    greater(before, h.sh_addralign as int)
                } else {
                    before
                },
                None => before,
            }
        }
    }

    /// The bytes that the `k`-th content takes when it is filled up to the alignment of its
    /// section.
    pub open spec fn room_for(self, k: int) -> int {
        rounded(
            self.replaced[k].1.len() as int,
            match self.section(self.replaced[k].0) {
                Some(h) => alignment(h),
                None => self.ctx.word(),
            },
        )
    }

    /// The bytes that the first `n` contents take when each is filled up.
    pub open spec fn space(self, n: int) -> int
        decreases n,
    {
        if n <= 0 {
            0
        } else {
            self.space(n - 1) + self.room_for(n - 1)
        }
    }

    /// The state with the sections to be placed, from the `k`-th on, given their new
    /// places: the next aligned place from `offset` and from `addr` on.
    pub open spec fn placed_from(self, offset: int, addr: int, k: int) -> Option<
        (ElfState, int, int),
    >
        decreases self.replaced.len() - k,
    {
        if k >= self.replaced.len() {
            Some((self, offset, addr))
        } else {
            let size = self.replaced[k].1.len() as int;
            match self.find(self.replaced[k].0) {
                None => self.placed_from(offset, addr, k + 1),
                Some(i) => {
                    let h = self.shdrs[i];
                    let at = rounded(offset, alignment(h));
                    let to = rounded(addr, alignment(h));
                    if !can_round(offset, alignment(h)) || !can_round(addr, alignment(h)) || at
                        + size > u64::MAX || to + size > u64::MAX {
                        None
                    } else {
                        let moved = SectionHeader {
                            sh_offset: at as u64,
                            sh_addr: to as u64,
                            sh_size: size as u64,
                            ..h
                        };
                        ElfState { shdrs: self.shdrs.update(i, moved), ..self }.placed_from(
                            at + size,
                            to + size,
                            k + 1,
                        )
                    }
                },
            }
        }
    }

    /// The state with new bytes loaded: by a segment that ends right before them, or
    /// else by a new one.
    pub open spec fn loading(
        self,
        offset: int,
        addr: int,
        file_size: int,
        mem_size: int,
    ) -> Option<ElfState> {
        let page = page_size(self.header.e_machine);
        match extendable_from(self.phdrs, offset, addr, page, 0) {
            None => None,
            Some(Some(i)) => {
                let p = self.phdrs[i];
                Some(
                    ElfState {
                        phdrs: self.phdrs.update(
                            i,
                            ProgramHeader {
                                p_filesz: (offset + file_size - p.p_offset) as u64,
                                p_memsz: (addr + mem_size - p.p_vaddr) as u64,
                                ..p
                            },
                        ),
                        ..self
                    },
                )
            },
            Some(None) => Some(
                self.with_phdrs(
                    self.phdrs.push(
                        ProgramHeader {
                            p_type: PT_LOAD,
                            p_flags: PF_RW,
                            p_offset: offset as u64,
                            p_vaddr: addr as u64,
                            p_paddr: addr as u64,
                            p_filesz: file_size as u64,
                            p_memsz: mem_size as u64,
                            p_align: page as u64,
                        },
                    ),
                ),
            ),
        }
    }

    /// The state with the contents from the `k`-th on written at their places.
    pub open spec fn filled_from(self, k: int) -> Option<ElfState>
        decreases self.replaced.len() - k,
    {
        if k >= self.replaced.len() {
            Some(self)
        } else {
            let content = self.replaced[k].1;
            match self.section(self.replaced[k].0) {
                None => self.filled_from(k + 1),
                Some(h) => if h.sh_offset + content.len() > self.contents.len() {
                    None
                } else {
                    self.with_contents(
                        codec::splice(self.contents, h.sh_offset as int, content),
                    ).filled_from(k + 1)
                },
            }
        }
    }

    /// The `i`-th segment, brought in line with the sections.
    pub open spec fn synced_segment(self, i: int) -> ProgramHeader {
        let p = self.phdrs[i];
        let listed = notes(self.shdrs, self.shdrs.len() as int);
        let rank = note_segments(self.phdrs, i);
        let table = (self.phdrs.len() * self.ctx.phdr_len()) as u64;
        if p.p_type == PT_INTERP && self.section(".interp"@) is Some {
            covering(p, self.section(".interp"@)->0)
        } else if p.p_type == PT_DYNAMIC && self.section(".dynamic"@) is Some {
            covering(p, self.section(".dynamic"@)->0)
        } else if p.p_type == PT_PHDR {
            ProgramHeader { p_offset: self.header.e_phoff, p_filesz: table, p_memsz: table, ..p }
        } else if p.p_type == PT_NOTE && rank < listed.len() {
            ProgramHeader { p_align: listed[rank].sh_addralign, ..covering(p, listed[rank]) }
        } else {
            p
        }
    }

    /// The state with the segments brought in line with the sections.
    pub open spec fn synced(self) -> ElfState {
        ElfState { phdrs: Seq::new(self.phdrs.len(), |i: int| self.synced_segment(i)), ..self }
    }

    /// The address of a section.
    pub open spec fn address_of(self, name: Seq<char>) -> Option<u64> {
        match self.section(name) {
            Some(h) => Some(h.sh_addr),
            None => None,
        }
    }

    /// The size of a section.
    pub open spec fn size_of(self, name: Seq<char>) -> Option<u64> {
        match self.section(name) {
            Some(h) => Some(h.sh_size),
            None => None,
        }
    }

    /// The value that the sections give to a dynamic entry with a tag, if any.
    pub open spec fn value_for(self, tag: u64) -> Option<u64> {
        if tag == DT_STRTAB {
            self.address_of(".dynstr"@)
        } else if tag == DT_STRSZ {
            self.size_of(".dynstr"@)
        } else if tag == DT_SYMTAB {
            self.address_of(".dynsym"@)
        } else if tag == DT_HASH {
            self.address_of(".hash"@)
        } else if tag == DT_GNU_HASH {
            self.address_of(".gnu.hash"@)
        } else if tag == DT_JMPREL {
            if self.section(".rela.plt"@) is Some {
                self.address_of(".rela.plt"@)
            } else {
                self.address_of(".rel.plt"@)
            }
        } else if tag == DT_RELA {
            self.address_of(".rela.dyn"@)
        } else if tag == DT_RELASZ {
            self.size_of(".rela.dyn"@)
        } else if tag == DT_REL {
            self.address_of(".rel.dyn"@)
        } else if tag == DT_RELSZ {
            self.size_of(".rel.dyn"@)
        } else if tag == DT_VERNEED {
            self.address_of(".gnu.version_r"@)
        } else if tag == DT_VERSYM {
            self.address_of(".gnu.version"@)
        } else if tag == DT_VERDEF {
            self.address_of(".gnu.version_d"@)
        } else {
            None
        }
    }

    /// A dynamic entry with the value that the sections give it.
    pub open spec fn updated_entry(self, d: Dyn) -> Dyn {
        match self.value_for(d.d_tag) {
            Some(v) => Dyn { d_tag: d.d_tag, d_val: v },
            None => d,
        }
    }

    /// Whether the sections give a value to one of the entries.
    pub open spec fn updates(self, entries: Seq<Dyn>) -> bool {
        exists|i: int|
            0 <= i < entries.len() && self.value_for((#[trigger] entries[i]).d_tag) is Some
    }

    /// The state with the dynamic entries brought in line with the sections. They then
    /// wait to be written at the place of their section.
    pub open spec fn dyns_updated(self) -> Option<ElfState> {
        match self.section(".dynamic"@) {
            None => Some(self),
            Some(h) => {
                let entries = self.dyns(h);
                if self.dyn_data(h) is None {
                    None
                } else if self.updates(entries) {
                    Some(
                        self.with_first_dyns(
                            h,
                            Seq::new(entries.len(), |i: int| self.updated_entry(entries[i])),
                        ),
                    )
                } else {
                    Some(self)
                }
            },
        }
    }

    /// The state with dynamic entries that were brought in line waiting without what stands
    /// behind the null entry.
    pub open spec fn dyns_trimmed(self) -> ElfState {
        match self.section(".dynamic"@) {
            Some(h) if sections::lookup(self.replaced, ".dynamic"@) is Some && self.updates(
                self.dyns(h),
            ) => self.with_dyns(self.dyns(h)),
            _ => self,
        }
    }

    /// The state with the headers brought in line with the sections. The order of two
    /// segments for the program header table is not defined.
    pub open spec fn headers_updated(self) -> Option<ElfState> {
        if table_segments(self.phdrs, self.phdrs.len() as int) > 1 {
            None
        } else {
            ElfState { phdrs: by_key(self.phdrs), ..self }.synced().dyns_updated()
        }
    }

    /// The state with the sections out of the way of the headers, the note segments
    /// split and the sections sorted.
    pub open spec fn prepared(self) -> Option<ElfState> {
        let list = self.obstacles(self.table_end(), self.shdrs.len() as int);
        match self.lifted_from(list, 0) {
            None => None,
            Some(lifted) => match lifted.normalized() {
                None => None,
                Some(normalized) => Some(normalized.sorted()),
            },
        }
    }

    /// The length of a file whose contents are placed from `offset` on and end at `end`: it
    /// has room for all of them, filled up to their alignment, and for one byte more.
    pub open spec fn placed_len(self, offset: int, end: int) -> int {
        greater(end, offset + self.space(self.replaced.len() as int)) + 1
    }

    /// The state with the contents placed from `offset` and from `addr` on. The headers and
    /// the dynamic entries follow the sections to their new places before the contents are
    /// written there.
    pub open spec fn placed(self, offset: int, addr: int) -> Option<ElfState> {
        match self.placed_from(offset, addr, 0) {
            None => None,
            Some((moved, end, end_addr)) => {
                let len = self.placed_len(offset, end);
                let grown = moved.with_contents(edits::resized(moved.contents, len));
                if len > isize::MAX {
                    None
                } else {
                    match grown.loading(offset, addr, end - offset + 1, end_addr - addr) {
                        None => None,
                        Some(loaded) => match loaded.headers_updated() {
                            None => None,
                            Some(updated) => match updated.filled_from(0) {
                                None => None,
                                Some(filled) => Some(filled.dyns_trimmed()),
                            },
                        },
                    }
                }
            },
        }
    }

    /// The state with all contents that wait placed behind the end of the file.
    pub open spec fn relocated(self) -> Option<ElfState> {
        let top = top_address(self.phdrs, self.phdrs.len() as int);
        let least = top_align(
            self.phdrs,
            page_size(self.header.e_machine),
            self.phdrs.len() as int,
        );
        match self.prepared() {
            None => None,
            Some(s) => {
                let align = s.placing_align(least, s.replaced.len() as int);
                if !can_round(top, align) || !can_round(s.contents.len() as int, align) {
                    None
                } else {
                    s.placed(rounded(s.contents.len() as int, align), rounded(top, align))
                }
            },
        }
    }

    /// Placing the contents that wait: this can be done in a library or an executable.
    pub open spec fn placing(self) -> Option<Step> {
        if self.header.e_type != ET_DYN && self.header.e_type != ET_EXEC {
            edits::failed(
                self,
                ErrorView::Malformed(
                    "Unsupported ELF type for rewriting: "@ + text::decimal(
                        self.header.e_type as int,
                    ),
                ),
            )
        } else {
            match self.relocated() {
                None => None,
                Some(s) => edits::done(s),
            }
        }
    }

    /// Writing the headers into the bytes of the file.
    pub open spec fn headers_written(self) -> Step {
        let fault = codec::header_write_fault(self.contents, self.header);
        let start = codec::with_header(self.contents, self.header);
        if fault is Some {
            Step { state: self.with_contents(start), error: fault }
        } else {
            let tables = shdrs_written(
                phdrs_written(
                    start,
                    self.phdrs,
                    self.header.e_phoff as int,
                    self.ctx,
                    self.phdrs.len() as int,
                ),
                self.shdrs,
                self.header.e_shoff as int,
                self.ctx,
                self.shdrs.len() as int,
            );
            Step { state: self.with_contents(tables), error: None }
        }
    }

    /// Writing the file.
    pub open spec fn writing(self) -> Option<Step> {
        if self.replaced.len() == 0 {
            edits::done(self)
        } else {
            match self.placing() {
                None => None,
                Some(step) => if step.error is Some {
                    Some(step)
                } else {
                    Some(step.state.headers_written())
                },
            }
        }
    }
}

} // verus!
