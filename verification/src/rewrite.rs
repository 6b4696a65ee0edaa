//! Modification of ELF files: the interpreter, the search paths for libraries and the
//! needed libraries.

use crate::codec;
use crate::edits;
use crate::order;
use crate::placement;
use crate::relocation;
use crate::sections;
use crate::sections::SectionMap;
use crate::state;
use crate::state::ElfState;
use crate::text;
use crate::types;
use crate::types::{
    Container, Ctx, Dyn, Endian, Error, ErrorView, Header, ProgramHeader, SectionHeader,
    DT_GNU_HASH, DT_HASH, DT_JMPREL, DT_NEEDED, DT_NULL, DT_REL, DT_RELA, DT_RELASZ, DT_RELSZ,
    DT_RPATH, DT_RUNPATH, DT_STRSZ, DT_STRTAB, DT_SYMTAB, DT_VERDEF, DT_VERNEED, DT_VERSYM,
    EI_CLASS, EI_DATA, ELFCLASS32, ELFDATA2LSB, EM_AARCH64, EM_FAKE_ALPHA, EM_IA_64,
    EM_LOONGARCH, EM_MIPS, EM_PPC, EM_PPC64, EM_SPARC, EM_SPARCV9, ET_DYN, ET_EXEC, PF_RW,
    PT_DYNAMIC, PT_INTERP, PT_LOAD, PT_NOTE, PT_PHDR, SHT_NOBITS, SHT_NOTE, SHT_PROGBITS,
};
use vstd::prelude::*;

verus! {

/// The page sizes of machines.
pub struct PageSize;

impl PageSize {
    /// The page size of a machine.
    pub fn for_machine(machine: u16) -> (r: u64)
        ensures
            r == relocation::page_size(machine),
    {
        match machine {
            EM_FAKE_ALPHA | EM_IA_64 | EM_MIPS | EM_PPC | EM_PPC64 | EM_AARCH64 | EM_LOONGARCH => {
                0x10000
            },
            EM_SPARC | EM_SPARCV9 => 0x2000,
            _ => 0x1000,
        }
    }
}

/// Rounds `n` up to a multiple of `m`; where `m` is zero, `n` stays.
pub fn round_up(n: u64, m: u64) -> (r: u64)
    requires
        m == 0 || n + m - 1 <= u64::MAX,
    ensures
        r == relocation::rounded(n as int, m as int),
        m == 0 ==> r == n,
        m > 0 ==> r % m == 0 && n <= r < n + m,
{
    if m == 0 {
        n
    } else {
        proof {
            relocation::lemma_rounded(n as int, m as int);
        }
        ((n + (m - 1)) / m) * m
    }
}

/// Rounds `n` up to a multiple of `m`, where that stays in range.
fn checked_round_up(n: u64, m: u64) -> (r: Option<u64>)
    ensures
        match r {
            Some(k) => {
                &&& relocation::can_round(n as int, m as int)
                &&& k == relocation::rounded(n as int, m as int)
                &&& k >= n
            },
            None => !relocation::can_round(n as int, m as int),
        },
{
    if m == 0 || n <= u64::MAX - (m - 1) {
        Some(round_up(n, m))
    } else {
        None
    }
}

/// The alignment of sections: 4 in a 32-bit file, 8 in a 64-bit file.
fn section_alignment(ctx: Ctx) -> (r: u64)
    ensures
        r == ctx.word(),
{
    match ctx.container {
        Container::Little => 4,
        Container::Big => 8,
    }
}

/// A mutable ELF file.
///
/// It owns the bytes of the file and keeps the modifications of sections until they
/// are written.
pub struct ElfMut {
    /// The bytes of the file.
    pub contents: Vec<u8>,
    /// The file header.
    pub header: Header,
    /// The program headers.
    pub program_headers: Vec<ProgramHeader>,
    /// The section headers.
    pub section_headers: Vec<SectionHeader>,
    /// What is kept beside them until the file is written.
    pub book: Bookkeeping,
}

/// What is kept of a file beside its public parts.
pub struct Bookkeeping {
    /// The section names.
    shstrtab: Vec<u8>,
    /// The contents that wait to be placed, by section name.
    replaced_sections: SectionMap,
    /// The layout of the structures of the file.
    ctx: Ctx,
    /// Whether anything was changed.
    changed: bool,
    /// The position that each section header was given by the last sorting.
    section_index_map: Vec<usize>,
}

impl Bookkeeping {
    /// The section names.
    pub closed spec fn names(self) -> Seq<u8> {
        self.shstrtab@
    }

    /// The contents that wait to be placed, by section name.
    pub closed spec fn replaced(self) -> Seq<(Seq<char>, Seq<u8>)> {
        self.replaced_sections@
    }

    /// The layout of the structures of the file.
    pub closed spec fn layout(self) -> Ctx {
        self.ctx
    }

    /// Whether anything was changed.
    pub closed spec fn touched(self) -> bool {
        self.changed
    }

    /// The position that each section header was given by the last sorting.
    pub closed spec fn index_map(self) -> Seq<usize> {
        self.section_index_map@
    }
}

impl View for ElfMut {
    type V = ElfState;

    open spec fn view(&self) -> ElfState {
        ElfState {
            contents: self.contents@,
            header: self.header,
            phdrs: self.program_headers@,
            shdrs: self.section_headers@,
            shstrtab: self.book.names(),
            replaced: self.book.replaced(),
            ctx: self.book.layout(),
            changed: self.book.touched(),
            index_map: self.book.index_map(),
        }
    }
}

/// A copy of the bytes from `from` up to `to`.
fn copied(data: &[u8], from: usize, to: usize) -> (r: Vec<u8>)
    requires
        from <= to <= data@.len(),
    ensures
        r@ == data@.subrange(from as int, to as int),
{
    let mut r: Vec<u8> = Vec::new();
    r.extend_from_slice(vstd::slice::slice_subrange(data, from, to));
    assert(r@ =~= data@.subrange(from as int, to as int));
    r
}

/// Cuts bytes, or fills them up with zeros, to `n` bytes.
fn resize(contents: &mut Vec<u8>, n: usize)
    ensures
        final(contents)@ == edits::resized(old(contents)@, n as int),
{
    let ghost before = contents@;
    contents.resize(n, 0);
    proof {
        if n > before.len() {
            assert forall|i: int| 0 <= i < before.len() implies contents@[i] == before[i] by {
                assert(contents@.subrange(0, before.len() as int)[i] == contents@[i]);
            }
        }
        assert(contents@ =~= edits::resized(before, n as int));
    }
}

/// The bytes, cut or filled up with zeros to `n` bytes.
fn resized_bytes(data: &[u8], n: usize) -> (r: Vec<u8>)
    ensures
        r@ == edits::resized(data@, n as int),
{
    let keep: usize = if data.len() < n {
        data.len()
    } else {
        n
    };
    let mut r = copied(data, 0, keep);
    resize(&mut r, n);
    assert(r@ =~= edits::resized(data@, n as int));
    r
}

/// Writes `bytes`, cut or filled up with zeros to `len` bytes, over others from `at` on,
/// as far as these reach.
fn overlay(b: &mut Vec<u8>, at: u128, bytes: &[u8], len: u128)
    requires
        at <= u64::MAX * 2,
        len <= u64::MAX * 2,
    ensures
        final(b)@ == edits::overlaid(old(b)@, at as int, edits::resized(bytes@, len as int)),
{
    let ghost before = b@;
    let ghost part = edits::resized(bytes@, len as int);
    let mut i: u128 = 0;
    while i < len && at + i < b.len() as u128
        invariant
            i <= len,
            at <= u64::MAX * 2,
            len <= u64::MAX * 2,
            part == edits::resized(bytes@, len as int),
            b@.len() == before.len(),
            forall|j: int|
                0 <= j < before.len() ==> b@[j] == (if at <= j < at + i {
                    part[j - at]
                } else {
                    before[j]
                }),
        decreases len - i,
    {
        assert(b@.len() == b.len());
        b[(at + i) as usize] = if i < bytes.len() as u128 {
            bytes[i as usize]
        } else {
            0
        };
        i = i + 1;
    }
    assert(b@ =~= edits::overlaid(before, at as int, part));
}

/// Whether two byte strings are the same.
fn same_bytes(a: &[u8], b: &[u8]) -> (r: bool)
    ensures
        r == (a@ == b@),
{
    if a.len() != b.len() {
        return false;
    }
    let mut i: usize = 0;
    while i < a.len()
        invariant
            i <= a@.len(),
            a@.len() == b@.len(),
            forall|j: int| 0 <= j < i ==> a@[j] == b@[j],
        decreases a.len() - i,
    {
        if a[i] != b[i] {
            return false;
        }
        i = i + 1;
    }
    assert(a@ =~= b@);
    true
}

/// The bytes of a text and the zero byte that ends it.
fn c_string_bytes(s: &str) -> (r: Vec<u8>)
    ensures
        r@ == edits::c_string(s@),
{
    let mut r: Vec<u8> = Vec::new();
    r.extend_from_slice(s.as_bytes());
    r.push(0);
    assert(r@ =~= edits::c_string(s@));
    r
}

/// Whether that many dynamic entries can be held.
fn dyns_fit(count: u128, ctx: Ctx) -> (r: bool)
    requires
        count <= u128::MAX / 16,
    ensures
        r == (count * ctx.dyn_len() <= isize::MAX),
{
    match ctx.container {
        Container::Little => count * 8 <= isize::MAX as u128,
        Container::Big => count * 16 <= isize::MAX as u128,
    }
}

/// The bytes of dynamic entries, one behind the other.
fn dyn_table(entries: &Vec<Dyn>, ctx: Ctx) -> (r: Vec<u8>)
    requires
        entries@.len() * ctx.dyn_len() <= usize::MAX,
    ensures
        r@ == state::dyns_bytes(entries@, ctx),
{
    let size: usize = ctx.dyn_size();
    let mut r: Vec<u8> = Vec::new();
    let mut i: usize = 0;
    assert(entries@.take(0) =~= Seq::<Dyn>::empty());
    while i < entries.len()
        invariant
            i <= entries@.len(),
            size == ctx.dyn_len(),
            entries@.len() * size <= usize::MAX,
            r@ == state::dyns_bytes(entries@.take(i as int), ctx),
            r@.len() == i * size,
        decreases entries.len() - i,
    {
        let ghost before = r@;
        let at: usize = r.len();
        proof {
            assert(i * size + size == (i + 1) * size) by (nonlinear_arith);
            assert((i + 1) * size <= entries@.len() * size) by (nonlinear_arith)
                requires
                    i + 1 <= entries@.len(),
            ;
            codec::lemma_dyn_bytes_len(entries@[i as int], ctx);
            assert(entries@.take(i + 1).drop_last() =~= entries@.take(i as int));
        }
        resize(&mut r, at + size);
        let _ = codec::write_dyn(&mut r, entries[i], at, ctx);
        assert(r@ =~= before + codec::dyn_bytes(entries@[i as int], ctx));
        i = i + 1;
    }
    assert(entries@.take(i as int) =~= entries@);
    r
}

/// The positions of sections in the order of their places.
fn offset_order(shdrs: &Vec<SectionHeader>) -> (r: Vec<usize>)
    ensures
        r@ == order::order(relocation::offsets(shdrs@)),
        order::is_order(relocation::offsets(shdrs@), r@, shdrs@.len() as int),
{
    let mut keys: Vec<u128> = Vec::new();
    let mut i: usize = 0;
    while i < shdrs.len()
        invariant
            i <= shdrs@.len(),
            keys@ == relocation::offsets(shdrs@).take(i as int),
        decreases shdrs.len() - i,
    {
        keys.push(shdrs[i].sh_offset as u128);
        assert(keys@ =~= relocation::offsets(shdrs@).take(i + 1));
        i = i + 1;
    }
    assert(keys@ =~= relocation::offsets(shdrs@));
    order::stable_order(&keys)
}

/// The first position that holds `x`.
fn position_of(o: &Vec<usize>, x: usize) -> (r: Option<usize>)
    ensures
        match r {
            Some(k) => relocation::position_from(o@, x, 0) == Some(k as int) && k < o@.len(),
            None => relocation::position_from(o@, x, 0) is None && !o@.contains(x),
        },
{
    let mut k: usize = 0;
    while k < o.len()
        invariant
            k <= o@.len(),
            forall|j: int| 0 <= j < k ==> o@[j] != x,
            relocation::position_from(o@, x, 0) == relocation::position_from(o@, x, k as int),
        decreases o.len() - k,
    {
        if o[k] == x {
            return Some(k);
        }
        k = k + 1;
    }
    None
}

/// Sections in the order of their places.
fn sorted_by_offset(shdrs: &Vec<SectionHeader>, o: &Vec<usize>) -> (r: Vec<SectionHeader>)
    requires
        o@ == order::order(relocation::offsets(shdrs@)),
        order::is_order(relocation::offsets(shdrs@), o@, shdrs@.len() as int),
    ensures
        r@ == relocation::by_offset(shdrs@),
{
    let mut r: Vec<SectionHeader> = Vec::new();
    let mut i: usize = 0;
    while i < o.len()
        invariant
            i <= o@.len(),
            o@.len() == shdrs@.len(),
            o@ == order::order(relocation::offsets(shdrs@)),
            order::is_order(relocation::offsets(shdrs@), o@, shdrs@.len() as int),
            r@ == relocation::by_offset(shdrs@).take(i as int),
        decreases o.len() - i,
    {
        r.push(shdrs[o[i]]);
        assert(r@ =~= relocation::by_offset(shdrs@).take(i + 1));
        i = i + 1;
    }
    assert(r@ =~= relocation::by_offset(shdrs@));
    r
}

/// A segment that covers a section.
fn covering(p: ProgramHeader, shdr: &SectionHeader) -> (r: ProgramHeader)
    ensures
        r == relocation::covering(p, *shdr),
{
    ProgramHeader {
        p_offset: shdr.sh_offset,
        p_vaddr: shdr.sh_addr,
        p_paddr: shdr.sh_addr,
        p_filesz: shdr.sh_size,
        p_memsz: shdr.sh_size,
        ..p
    }
}

impl ElfMut {
    /// Parses an ELF file.
    pub fn parse(data: &[u8]) -> (r: Result<ElfMut, Error>)
        ensures
            match r {
                Ok(elf) => state::is_parsed(data@, elf@),
                Err(e) => state::parse_fault(data@) == Some(e@),
            },
    {
        let header = match codec::read_header(data) {
            Ok(header) => header,
            Err(e) => {
                return Err(e);
            },
        };
        assert(header.e_ident@[4] == data@[4] && header.e_ident@[5] == data@[5]);
        let ctx = Ctx {
            container: if header.e_ident[EI_CLASS] == ELFCLASS32 {
                Container::Little
            } else {
                Container::Big
            },
            le: if header.e_ident[EI_DATA] == ELFDATA2LSB {
                Endian::Little
            } else {
                Endian::Big
            },
        };
        let program_headers = match codec::read_program_headers(
            data,
            header.e_phoff as usize,
            header.e_phnum as usize,
            ctx,
        ) {
            Ok(v) => v,
            Err(e) => {
                return Err(e);
            },
        };
        let section_headers = match codec::read_section_headers(
            data,
            header.e_shoff as usize,
            header.e_shnum as usize,
            ctx,
        ) {
            Ok(v) => v,
            Err(e) => {
                return Err(e);
            },
        };
        let mut shstrtab: Vec<u8> = Vec::new();
        if header.e_shstrndx > 0 && (header.e_shstrndx as usize) < section_headers.len() {
            let shdr = section_headers[header.e_shstrndx as usize];
            let end: u128 = shdr.sh_offset as u128 + shdr.sh_size as u128;
            if end <= data.len() as u128 {
                shstrtab = copied(data, shdr.sh_offset as usize, end as usize);
            }
        }
        let mut section_index_map: Vec<usize> = Vec::new();
        let mut i: usize = 0;
        while i < section_headers.len()
            invariant
                i <= section_headers.len(),
                section_index_map@ == Seq::new(i as nat, |j: int| j as usize),
            decreases section_headers.len() - i,
        {
            section_index_map.push(i);
            assert(section_index_map@ =~= Seq::new((i + 1) as nat, |j: int| j as usize));
            i = i + 1;
        }
        let contents = copied(data, 0, data.len());
        let elf = ElfMut {
            contents,
            header,
            program_headers,
            section_headers,
            book: Bookkeeping {
                shstrtab,
                replaced_sections: SectionMap::new(),
                ctx,
                changed: false,
                section_index_map,
            },
        };
        assert(elf@.contents =~= data@);
        assert(elf@.shstrtab =~= state::name_table(data@, elf@.header, elf@.shdrs));
        Ok(elf)
    }

    /// The name of a section.
    fn get_section_name(&self, idx: usize) -> (r: Option<String>)
        ensures
            match r {
                Some(name) => self@.name_of(idx as int) == Some(name@),
                None => self@.name_of(idx as int) is None,
            },
    {
        if idx < self.section_headers.len() && self.section_headers[idx].sh_name
            < self.book.shstrtab.len() {
            let offset: usize = self.section_headers[idx].sh_name;
            Some(text::get_string_at(self.book.shstrtab.as_slice(), offset))
        } else {
            None
        }
    }

    /// The position of the first section with a name.
    fn find_section_idx(&self, name: &str) -> (r: Option<usize>)
        ensures
            match r {
                Some(i) => self@.find(name@) == Some(i as int) && i < self@.shdrs.len(),
                None => self@.find(name@) is None,
            },
    {
        let mut i: usize = 0;
        while i < self.section_headers.len()
            invariant
                i <= self@.shdrs.len(),
                self@.shdrs == self.section_headers@,
                self@.find(name@) == state::named_from(
                    self@.shdrs,
                    self@.shstrtab,
                    name@,
                    i as int,
                ),
            decreases self.section_headers.len() - i,
        {
            if let Some(section_name) = self.get_section_name(i) {
                if text::same_text(section_name.as_str(), name) {
                    return Some(i);
                }
            }
            i = i + 1;
        }
        None
    }

    /// The header of the first section with a name.
    fn find_section(&self, name: &str) -> (r: Result<SectionHeader, Error>)
        ensures
            match r {
                Ok(shdr) => self@.section(name@) == Some(shdr),
                Err(e) => self@.section(name@) is None && e@ == state::not_found(name@),
            },
    {
        match self.find_section_idx(name) {
            Some(i) => Ok(self.section_headers[i]),
            None => {
                let mut message = "Section '".to_owned();
                message.append(name);
                message.append("' not found");
                Err(Error::Malformed(message))
            },
        }
    }

    /// Whether a section lies inside the file.
    fn is_in_file(&self, shdr: &SectionHeader) -> (r: bool)
        ensures
            r == self@.in_file(*shdr),
    {
        shdr.sh_offset as u128 + shdr.sh_size as u128 <= self.contents.len() as u128
    }

    /// A copy of the bytes of a section that lies inside the file.
    fn section_bytes(&self, shdr: &SectionHeader) -> (r: Vec<u8>)
        requires
            self@.in_file(*shdr),
        ensures
            r@ == self@.body(*shdr),
    {
        assert(self.contents@.len() == self.contents.len());
        let end: u64 = shdr.sh_offset + shdr.sh_size;
        copied(self.contents.as_slice(), shdr.sh_offset as usize, end as usize)
    }

    /// The interpreter, where the file has a section for one.
    pub fn get_interpreter(&self) -> (r: Option<String>)
        ensures
            match r {
                Some(path) => self@.interpreter() == Some(path@),
                None => self@.interpreter() is None,
            },
    {
        match self.find_section(".interp") {
            Ok(shdr) => {
                if self.is_in_file(&shdr) && shdr.sh_size > 0 {
                    let mut bytes = self.section_bytes(&shdr);
                    let ghost body = bytes@;
                    bytes.truncate((shdr.sh_size - 1) as usize);
                    assert(bytes@ =~= body.drop_last());
                    Some(text::lossy(bytes.as_slice()))
                } else {
                    let empty = String::new();
                    assert(empty@ =~= Seq::<char>::empty());
                    Some(empty)
                }
            },
            Err(_) => None,
        }
    }

    /// The name of the first section that takes the same place as `target`.
    fn find_section_name_by_header(&self, target: &SectionHeader) -> (r: Option<String>)
        ensures
            match r {
                Some(name) => self@.owner(*target) == Some(name@),
                None => self@.owner(*target) is None,
            },
    {
        let mut i: usize = 0;
        while i < self.section_headers.len()
            invariant
                i <= self@.shdrs.len(),
                self@.shdrs == self.section_headers@,
                self@.owner(*target) == state::owner_from(
                    self@.shdrs,
                    self@.shstrtab,
                    *target,
                    i as int,
                ),
            decreases self.section_headers.len() - i,
        {
            if self.section_headers[i].sh_offset == target.sh_offset
                && self.section_headers[i].sh_size == target.sh_size {
                return self.get_section_name(i);
            }
            i = i + 1;
        }
        None
    }

    /// The bytes that a dynamic section holds.
    fn dynamic_data(&self, shdr: &SectionHeader) -> (r: Option<Vec<u8>>)
        ensures
            match r {
                Some(data) => self@.dyn_data(*shdr) == Some(data@),
                None => self@.dyn_data(*shdr) is None,
            },
    {
        if let Some(content) = self.book.replaced_sections.get(".dynamic") {
            let data = copied(content.as_slice(), 0, content.len());
            assert(data@ =~= content@);
            return Some(data);
        }
        if let Some(name) = self.find_section_name_by_header(shdr) {
            if let Some(content) = self.book.replaced_sections.get(name.as_str()) {
                let data = copied(content.as_slice(), 0, content.len());
                assert(data@ =~= content@);
                return Some(data);
            }
        }
        if self.is_in_file(shdr) {
            Some(self.section_bytes(shdr))
        } else {
            None
        }
    }

    /// The entries of a dynamic section, up to the first null entry.
    fn read_dynamic_entries(&self, shdr: &SectionHeader) -> (r: Option<Vec<Dyn>>)
        ensures
            match r {
                Some(entries) => {
                    &&& self@.dyn_data(*shdr) is Some
                    &&& entries@ == self@.dyns(*shdr)
                    &&& entries@.len() * self@.ctx.dyn_len() <= usize::MAX
                },
                None => self@.dyn_data(*shdr) is None,
            },
    {
        let data = match self.dynamic_data(shdr) {
            Some(data) => data,
            None => {
                return None;
            },
        };
        let size: usize = self.book.ctx.dyn_size();
        let mut entries: Vec<Dyn> = Vec::new();
        let mut pos: usize = 0;
        let ghost mut i: int = 0;
        let ghost all = state::dyns_from(data@, self.book.ctx, 0);
        assert(entries@ + all =~= all);
        while data.len() - pos >= size
            invariant
                pos <= data.len(),
                i >= 0,
                pos == i * size,
                i == entries@.len(),
                size == self.book.ctx.dyn_len(),
                all == state::dyns_from(data@, self.book.ctx, 0),
                entries@ + state::dyns_from(data@, self.book.ctx, i) == all,
                self@.dyn_data(*shdr) == Some(data@),
                self@.ctx == self.book.ctx,
            decreases data.len() - pos,
        {
            assert((i + 1) * size == i * size + size) by (nonlinear_arith);
            let entry = codec::read_dyn(data.as_slice(), pos, self.book.ctx);
            let ghost before = entries@;
            entries.push(entry);
            if entry.d_tag == DT_NULL {
                assert(entries@ =~= before + seq![entry]);
                return Some(entries);
            }
            assert(entries@ + state::dyns_from(data@, self.book.ctx, i + 1) =~= before + (seq![entry]
                + state::dyns_from(data@, self.book.ctx, i + 1)));
            proof {
                i = i + 1;
            }
            pos = pos + size;
        }
        assert((i + 1) * size == i * size + size) by (nonlinear_arith);
        assert(entries@ + Seq::<Dyn>::empty() =~= entries@);
        Some(entries)
    }

    /// Whether the search paths and the needed libraries can be read: the dynamic
    /// section does not reach behind the end of the file.
    pub fn is_readable(&self) -> (r: bool)
        ensures
            r == self@.readable(),
    {
        match (self.find_section(".dynstr"), self.find_section(".dynamic")) {
            (Ok(strings), Ok(dynamic)) => !self.is_in_file(&strings) || self.dynamic_data(
                &dynamic,
            ).is_some(),
            _ => true,
        }
    }

    /// The paths of the RPATH.
    pub fn get_rpath(&self) -> (r: Result<Vec<String>, Error>)
        requires
            self@.readable(),
        ensures
            match r {
                Ok(paths) => self@.search_paths(DT_RPATH) == Ok::<_, ErrorView>(
                    text::texts(paths@),
                ),
                Err(e) => self@.search_paths(DT_RPATH) == Err::<Seq<Seq<char>>, _>(e@),
            },
    {
        self.get_rpath_or_runpath(DT_RPATH)
    }

    /// The paths of the RUNPATH.
    pub fn get_runpath(&self) -> (r: Result<Vec<String>, Error>)
        requires
            self@.readable(),
        ensures
            match r {
                Ok(paths) => self@.search_paths(DT_RUNPATH) == Ok::<_, ErrorView>(
                    text::texts(paths@),
                ),
                Err(e) => self@.search_paths(DT_RUNPATH) == Err::<Seq<Seq<char>>, _>(e@),
            },
    {
        self.get_rpath_or_runpath(DT_RUNPATH)
    }

    /// The paths under a tag.
    fn get_rpath_or_runpath(&self, tag: u64) -> (r: Result<Vec<String>, Error>)
        requires
            self@.readable(),
        ensures
            match r {
                Ok(paths) => self@.search_paths(tag) == Ok::<_, ErrorView>(text::texts(paths@)),
                Err(e) => self@.search_paths(tag) == Err::<Seq<Seq<char>>, _>(e@),
            },
    {
        let dynstr_shdr = match self.find_section(".dynstr") {
            Ok(shdr) => shdr,
            Err(e) => {
                return Err(e);
            },
        };
        if !self.is_in_file(&dynstr_shdr) {
            let none: Vec<String> = Vec::new();
            assert(text::texts(none@) =~= Seq::<Seq<char>>::empty());
            return Ok(none);
        }
        let dynstr = self.section_bytes(&dynstr_shdr);
        let dynamic_shdr = match self.find_section(".dynamic") {
            Ok(shdr) => shdr,
            Err(e) => {
                return Err(e);
            },
        };
        let mut i: usize = 0;
        if let Some(entries) = self.read_dynamic_entries(&dynamic_shdr) {
            while i < entries.len()
                invariant
                    i <= entries.len(),
                    dynstr.len() <= usize::MAX,
                    entries@ == self@.dyns(dynamic_shdr),
                    state::paths_from(entries@, dynstr@, tag, 0) == state::paths_from(
                        entries@,
                        dynstr@,
                        tag,
                        i as int,
                    ),
                    self@.search_paths(tag) == Ok::<_, ErrorView>(
                        state::paths_from(entries@, dynstr@, tag, 0),
                    ),
                decreases entries.len() - i,
            {
                if entries[i].d_tag == tag && entries[i].d_val < dynstr.len() as u64 {
                    let s = text::get_string_at(dynstr.as_slice(), entries[i].d_val as usize);
                    return Ok(text::split_colons(s.as_str()));
                }
                i = i + 1;
            }
        }
        let none: Vec<String> = Vec::new();
        assert(text::texts(none@) =~= Seq::<Seq<char>>::empty());
        Ok(none)
    }

    /// The needed libraries.
    pub fn get_needed(&self) -> (r: Result<Vec<String>, Error>)
        requires
            self@.readable(),
        ensures
            match r {
                Ok(libs) => self@.needed() == Ok::<_, ErrorView>(text::texts(libs@)),
                Err(e) => self@.needed() == Err::<Seq<Seq<char>>, _>(e@),
            },
    {
        let dynstr_shdr = match self.find_section(".dynstr") {
            Ok(shdr) => shdr,
            Err(e) => {
                return Err(e);
            },
        };
        let mut needed: Vec<String> = Vec::new();
        assert(text::texts(needed@) =~= Seq::<Seq<char>>::empty());
        if !self.is_in_file(&dynstr_shdr) {
            return Ok(needed);
        }
        let dynstr = self.section_bytes(&dynstr_shdr);
        let dynamic_shdr = match self.find_section(".dynamic") {
            Ok(shdr) => shdr,
            Err(e) => {
                return Err(e);
            },
        };
        if let Some(entries) = self.read_dynamic_entries(&dynamic_shdr) {
            let mut i: usize = 0;
            while i < entries.len()
                invariant
                    i <= entries.len(),
                    text::texts(needed@) == state::libraries(entries@, dynstr@, i as int),
                decreases entries.len() - i,
            {
                if entries[i].d_tag == DT_NEEDED && entries[i].d_val < dynstr.len() as u64 {
                    let ghost before = needed@;
                    let name = text::get_string_at(dynstr.as_slice(), entries[i].d_val as usize);
                    needed.push(name);
                    assert(text::texts(needed@) =~= text::texts(before).push(name@));
                }
                i = i + 1;
            }
        }
        Ok(needed)
    }

    /// Keeps a content for a section until it is placed.
    fn replace_section(&mut self, name: &str, content: Vec<u8>) -> (r: Result<(), Error>)
        ensures
            match r {
                Ok(_) => old(self)@.section(name@) is Some && final(self)@ == old(
                    self,
                )@.with_section(name@, content@),
                Err(e) => {
                    &&& old(self)@.section(name@) is None
                    &&& e@ == state::not_found(name@)
                    &&& final(self)@ == old(self)@
                },
            },
    {
        match self.find_section(name) {
            Ok(_) => {
                self.book.replaced_sections.put(name, content);
                Ok(())
            },
            Err(e) => Err(e),
        }
    }

    /// The content of a section, cut or filled up with zeros to `new_size` bytes.
    fn resized_section(&self, name: &str, shdr: &SectionHeader, new_size: usize) -> (r: Vec<u8>)
        ensures
            r@ == edits::resized(self@.current(name@, *shdr), new_size as int),
    {
        if let Some(content) = self.book.replaced_sections.get(name) {
            resized_bytes(content.as_slice(), new_size)
        } else if self.is_in_file(shdr) {
            resized_bytes(self.section_bytes(shdr).as_slice(), new_size)
        } else {
            let nothing: Vec<u8> = Vec::new();
            let r = resized_bytes(nothing.as_slice(), new_size);
            assert(r@ =~= edits::resized(self@.current(name@, *shdr), new_size as int));
            r
        }
    }

    /// The strings, those that wait or else those in the file; none where they reach
    /// behind the end of the file.
    fn string_bytes(&self, dynstr_shdr: &SectionHeader) -> (r: Option<Vec<u8>>)
        ensures
            match r {
                Some(names) => self@.strings(*dynstr_shdr) == Some(names@),
                None => self@.strings(*dynstr_shdr) is None,
            },
    {
        if let Some(content) = self.book.replaced_sections.get(".dynstr") {
            let names = copied(content.as_slice(), 0, content.len());
            assert(names@ =~= content@);
            return Some(names);
        }
        if self.is_in_file(dynstr_shdr) {
            Some(self.section_bytes(dynstr_shdr))
        } else {
            None
        }
    }

    /// The number of bytes that the strings take.
    fn strings_len(&self, dynstr_shdr: &SectionHeader) -> (r: u64)
        ensures
            r == self@.current(".dynstr"@, *dynstr_shdr).len(),
    {
        match self.book.replaced_sections.get(".dynstr") {
            Some(content) => content.len() as u64,
            None => {
                assert(self@.in_file(*dynstr_shdr) ==> self@.body(*dynstr_shdr).len()
                    == dynstr_shdr.sh_size);
                dynstr_shdr.sh_size
            },
        }
    }

    /// Writes `bytes`, cut or filled up with zeros to `len` bytes, over the strings.
    fn write_string(
        &mut self,
        dynstr_shdr: &SectionHeader,
        at: u64,
        bytes: &[u8],
        len: u128,
    ) -> (r: bool)
        requires
            len <= u64::MAX + 1,
        ensures
            match old(self)@.with_string(
                *dynstr_shdr,
                at as int,
                edits::resized(bytes@, len as int),
            ) {
                Some(s) => r && final(self)@ == s,
                None => !r,
            },
    {
        let ghost part = edits::resized(bytes@, len as int);
        let place: u128 = dynstr_shdr.sh_offset as u128 + at as u128;
        let in_file = self.is_in_file(dynstr_shdr);
        let waiting: Option<Vec<u8>> = match self.book.replaced_sections.get(".dynstr") {
            Some(content) => {
                let names = copied(content.as_slice(), 0, content.len());
                assert(names@ =~= content@);
                Some(names)
            },
            None => None,
        };
        match waiting {
            Some(content) => {
                let mut patched = content;
                overlay(&mut patched, at as u128, bytes, len);
                if in_file && at as u128 + len <= dynstr_shdr.sh_size as u128 {
                    let ghost before = self.contents@;
                    overlay(&mut self.contents, place, bytes, len);
                    assert(self.contents@ =~= codec::splice(before, place as int, part));
                }
                self.book.replaced_sections.put(".dynstr", patched);
                true
            },
            None => {
                if place + len > self.contents.len() as u128 {
                    return false;
                }
                let ghost before = self.contents@;
                overlay(&mut self.contents, place, bytes, len);
                assert(self.contents@ =~= codec::splice(before, place as int, part));
                true
            },
        }
    }

    /// Keeps dynamic entries written over the first ones in `data`, until they are
    /// placed.
    fn write_first_dynamic_entries(&mut self, data: Vec<u8>, entries: &Vec<Dyn>)
        requires
            entries@.len() * old(self)@.ctx.dyn_len() <= usize::MAX,
        ensures
            final(self)@ == old(self)@.with_section(
                ".dynamic"@,
                edits::overlaid(data@, 0, state::dyns_bytes(entries@, old(self)@.ctx)),
            ),
    {
        let table = dyn_table(entries, self.book.ctx);
        let mut patched = data;
        overlay(&mut patched, 0, table.as_slice(), table.len() as u128);
        assert(edits::resized(table@, table@.len() as int) =~= table@);
        self.book.replaced_sections.put(".dynamic", patched);
    }

    /// Sets the interpreter.
    pub fn set_interpreter(&mut self, new_interp: &str) -> (r: Result<(), Error>)
        ensures
            final(self)@ == old(self)@.setting_interpreter(new_interp@).state,
            types::outcome(r) == old(self)@.setting_interpreter(new_interp@).error,
            r is Ok ==> (sections::lookup(final(self)@.replaced, ".interp"@) matches Some(content)
                ==> content == edits::c_string(new_interp@)),
    {
        proof {
            sections::lemma_lookup_put(
                self@.replaced,
                ".interp"@,
                edits::c_string(new_interp@),
                ".interp"@,
            );
        }
        let content = c_string_bytes(new_interp);
        if let Some(current) = self.get_interpreter() {
            if text::same_text(current.as_str(), new_interp) {
                match self.book.replaced_sections.get(".interp") {
                    Some(waiting) => {
                        if same_bytes(waiting.as_slice(), content.as_slice()) {
                            return Ok(());
                        }
                    },
                    None => {
                        return Ok(());
                    },
                }
            }
        }
        match self.replace_section(".interp", content) {
            Ok(_) => {
                self.book.changed = true;
                Ok(())
            },
            Err(e) => Err(e),
        }
    }

    /// Writes dynamic entries over those of a section in the file.
    fn write_dynamic_entries(&mut self, shdr: &SectionHeader, entries: &Vec<Dyn>) -> (r: Result<
        (),
        Error,
    >)
        ensures
            ({
                let (b, fault) = edits::dyns_written(
                    old(self)@.contents,
                    entries@,
                    shdr.sh_offset as usize as int,
                    old(self)@.ctx,
                    0,
                );
                final(self)@ == old(self)@.with_contents(b) && types::outcome(r) == fault
            }),
    {
        let size: usize = self.book.ctx.dyn_size();
        let mut pos: usize = shdr.sh_offset as usize;
        let mut i: usize = 0;
        let ghost at = pos as int;
        let ghost ctx = self@.ctx;
        while i < entries.len()
            invariant
                i <= entries@.len(),
                pos == at + i * size,
                size == ctx.dyn_len(),
                ctx == self.book.ctx,
                at == shdr.sh_offset as usize as int,
                *self == (ElfMut { contents: self.contents, ..*old(self) }),
                ctx == old(self)@.ctx,
                edits::dyns_written(old(self)@.contents, entries@, at, ctx, 0)
                    == edits::dyns_written(self.contents@, entries@, at, ctx, i as int),
            decreases entries.len() - i,
        {
            assert((i + 1) * size == i * size + size) by (nonlinear_arith);
            match codec::write_dyn(&mut self.contents, entries[i], pos, self.book.ctx) {
                Ok(_) => {},
                Err(e) => {
                    return Err(e);
                },
            }
            assert(self.contents@.len() == self.contents.len());
            pos = pos + size;
            i = i + 1;
        }
        Ok(())
    }

    /// Keeps strings behind the others, until they are placed.
    fn extend_strings(&mut self, dynstr_shdr: &SectionHeader, tail: &Vec<u8>)
        requires
            old(self)@.section(".dynstr"@) == Some(*dynstr_shdr),
            old(self)@.current(".dynstr"@, *dynstr_shdr).len() + tail@.len() <= isize::MAX,
        ensures
            final(self)@ == old(self)@.with_strings(*dynstr_shdr, tail@),
    {
        let size: usize = self.strings_len(dynstr_shdr) as usize;
        let ghost names = self@.current(".dynstr"@, *dynstr_shdr);
        let mut content = self.resized_section(".dynstr", dynstr_shdr, size);
        assert(content@ =~= names);
        content.extend_from_slice(tail.as_slice());
        assert(content@ =~= names + tail@);
        let _ = self.replace_section(".dynstr", content);
    }

    /// Keeps dynamic entries until they are placed.
    fn write_dynamic_entries_to_replaced(&mut self, entries: &Vec<Dyn>)
        requires
            old(self)@.section(".dynamic"@) is Some,
            entries@.len() * old(self)@.ctx.dyn_len() <= usize::MAX,
        ensures
            final(self)@ == old(self)@.with_dyns(entries@),
    {
        let table = dyn_table(entries, self.book.ctx);
        let _ = self.replace_section(".dynamic", table);
    }

    /// The length of the string that an entry points to.
    fn string_len(&self, dynstr: &Vec<u8>, entry: &Dyn) -> (r: usize)
        ensures
            r == edits::name_bytes(*entry, dynstr@).len(),
    {
        if entry.d_val < dynstr.len() as u64 {
            let s = text::get_string_at(dynstr.as_slice(), entry.d_val as usize);
            s.as_str().as_bytes().len()
        } else {
            0
        }
    }

    /// Writes search paths over the string that the entry `idx` points to.
    fn set_path_in_place(
        &mut self,
        dynstr_shdr: &SectionHeader,
        dynamic_shdr: &SectionHeader,
        entries: &mut Vec<Dyn>,
        idx: usize,
        new_path: &str,
        tag: u64,
        old_len: usize,
    ) -> (r: Option<Result<(), Error>>)
        requires
            idx < old(entries)@.len(),
            old(entries)@ == old(self)@.dyns(*dynamic_shdr),
            old(entries)@.len() * old(self)@.ctx.dyn_len() <= usize::MAX,
            old(self)@.dyn_data(*dynamic_shdr) is Some,
        ensures
            edits::reports(
                r,
                final(self)@,
                old(self)@.setting_path_in_place(
                    *dynstr_shdr,
                    *dynamic_shdr,
                    idx as int,
                    new_path@,
                    tag,
                    old_len as int,
                ),
            ),
    {
        let data = self.dynamic_data(dynamic_shdr);
        let waits = self.book.replaced_sections.get(".dynamic").is_some();
        let val: u64 = entries[idx].d_val;
        if !self.write_string(dynstr_shdr, val, new_path.as_bytes(), old_len as u128 + 1) {
            return None;
        }
        if entries[idx].d_tag != tag {
            entries[idx] = Dyn { d_tag: tag, d_val: val };
            if waits {
                if let Some(data) = data {
                    self.write_first_dynamic_entries(data, entries);
                }
            } else {
                match self.write_dynamic_entries(dynamic_shdr, entries) {
                    Ok(_) => {},
                    Err(e) => {
                        return Some(Err(e));
                    },
                }
            }
        }
        self.book.changed = true;
        Some(Ok(()))
    }

    /// The first entry that names search paths.
    fn path_entry(entries: &Vec<Dyn>) -> (r: Option<usize>)
        ensures
            match r {
                Some(k) => edits::path_slot(entries@, 0) == Some(k as int) && k < entries@.len(),
                None => edits::path_slot(entries@, 0) is None,
            },
    {
        let mut i: usize = 0;
        while i < entries.len()
            invariant
                i <= entries@.len(),
                edits::path_slot(entries@, 0) == edits::path_slot(entries@, i as int),
            decreases entries.len() - i,
        {
            if entries[i].d_tag == DT_RPATH || entries[i].d_tag == DT_RUNPATH {
                return Some(i);
            }
            i = i + 1;
        }
        None
    }

    /// The first entry with a tag.
    fn tagged_entry(entries: &Vec<Dyn>, tag: u64) -> (r: Option<usize>)
        ensures
            match r {
                Some(k) => state::tag_from(entries@, tag, 0) == Some(k as int) && k
                    < entries@.len(),
                None => state::tag_from(entries@, tag, 0) is None,
            },
    {
        let mut i: usize = 0;
        while i < entries.len()
            invariant
                i <= entries@.len(),
                state::tag_from(entries@, tag, 0) == state::tag_from(entries@, tag, i as int),
            decreases entries.len() - i,
        {
            if entries[i].d_tag == tag {
                return Some(i);
            }
            i = i + 1;
        }
        None
    }

    /// Sets the search paths, as RPATH or as RUNPATH.
    fn set_rpath_impl(&mut self, new_path: &str, force_rpath: bool) -> (r: Option<
        Result<(), Error>,
    >)
        ensures
            edits::reports(
                r,
                final(self)@,
                old(self)@.setting_path(
                    new_path@,
                    if force_rpath {
                        DT_RPATH
                    } else {
                        DT_RUNPATH
                    },
                ),
            ),
    {
        let tag: u64 = if force_rpath {
            DT_RPATH
        } else {
            DT_RUNPATH
        };
        let dynstr_shdr = match self.find_section(".dynstr") {
            Ok(shdr) => shdr,
            Err(e) => {
                return Some(Err(e));
            },
        };
        let dynamic_shdr = match self.find_section(".dynamic") {
            Ok(shdr) => shdr,
            Err(e) => {
                return Some(Err(e));
            },
        };
        let mut entries = match self.read_dynamic_entries(&dynamic_shdr) {
            Some(entries) => entries,
            None => {
                return None;
            },
        };
        let existing_idx = ElfMut::path_entry(&entries);
        if let Some(idx) = existing_idx {
            let dynstr = match self.string_bytes(&dynstr_shdr) {
                Some(dynstr) => dynstr,
                None => {
                    return None;
                },
            };
            let old_len: usize = self.string_len(&dynstr, &entries[idx]);
            if new_path.as_bytes().len() <= old_len {
                return self.set_path_in_place(
                    &dynstr_shdr,
                    &dynamic_shdr,
                    &mut entries,
                    idx,
                    new_path,
                    tag,
                    old_len,
                );
            }
        }
        let tail = c_string_bytes(new_path);
        let size: u64 = self.strings_len(&dynstr_shdr);
        if size as u128 + tail.len() as u128 > isize::MAX as u128 {
            return None;
        }
        let entry = Dyn { d_tag: tag, d_val: size };
        match existing_idx {
            Some(idx) => {
                entries[idx] = entry;
            },
            None => {
                if let Some(null_idx) = ElfMut::tagged_entry(&entries, DT_NULL) {
                    entries.insert(null_idx, entry);
                }
            },
        }
        if !dyns_fit(entries.len() as u128, self.book.ctx) {
            return None;
        }
        self.extend_strings(&dynstr_shdr, &tail);
        self.write_dynamic_entries_to_replaced(&entries);
        self.book.changed = true;
        Some(Ok(()))
    }

    /// Adds needed libraries.
    fn add_needed_impl(&mut self, libs: &[&str]) -> (r: Option<Result<(), Error>>)
        ensures
            edits::reports(
                r,
                final(self)@,
                old(self)@.adding_needed(text::str_texts(libs@)),
            ),
    {
        if libs.len() == 0 {
            return Some(Ok(()));
        }
        let ghost texts = text::str_texts(libs@);
        let dynstr_shdr = match self.find_section(".dynstr") {
            Ok(shdr) => shdr,
            Err(e) => {
                return Some(Err(e));
            },
        };
        let dynamic_shdr = match self.find_section(".dynamic") {
            Ok(shdr) => shdr,
            Err(e) => {
                return Some(Err(e));
            },
        };
        let old_size: u64 = self.strings_len(&dynstr_shdr);
        let mut tail: Vec<u8> = Vec::new();
        let mut added: Vec<Dyn> = Vec::new();
        let mut i: usize = 0;
        while i < libs.len()
            invariant
                i <= libs@.len(),
                texts == text::str_texts(libs@),
                tail@ == edits::c_strings(texts, i as int),
                added@ == edits::needed_entries(texts, old_size as int).take(i as int),
            decreases libs.len() - i,
        {
            let ghost before = tail@;
            let ghost listed = added@;
            let position: u128 = old_size as u128 + tail.len() as u128;
            added.push(Dyn { d_tag: DT_NEEDED, d_val: position as u64 });
            let mut name = c_string_bytes(libs[i]);
            let ghost bytes = name@;
            tail.append(&mut name);
            assert(texts[i as int] == libs@[i as int]@);
            assert(tail@ =~= before + bytes);
            assert(added@ =~= edits::needed_entries(texts, old_size as int).take(i + 1));
            i = i + 1;
        }
        assert(added@ =~= edits::needed_entries(texts, old_size as int));
        if old_size as u128 + tail.len() as u128 > isize::MAX as u128 {
            return None;
        }
        self.extend_strings(&dynstr_shdr, &tail);
        let mut entries = match self.read_dynamic_entries(&dynamic_shdr) {
            Some(entries) => entries,
            None => {
                return None;
            },
        };
        let null_idx = match ElfMut::tagged_entry(&entries, DT_NULL) {
            Some(null_idx) => null_idx,
            None => {
                return Some(
                    Err(Error::Malformed("No DT_NULL in dynamic section".to_owned())),
                );
            },
        };
        if !dyns_fit(entries.len() as u128 + libs.len() as u128, self.book.ctx) {
            return None;
        }
        let ghost all = entries@;
        let mut rest = entries.split_off(null_idx);
        entries.append(&mut added);
        entries.append(&mut rest);
        assert(entries@ =~= all.take(null_idx as int) + edits::needed_entries(
            texts,
            old_size as int,
        ) + all.skip(null_idx as int));
        self.write_dynamic_entries_to_replaced(&entries);
        self.book.changed = true;
        Some(Ok(()))
    }

    /// Whether a text is one of the given ones.
    fn is_among(libs: &[&str], name: &str) -> (r: bool)
        ensures
            r == text::str_texts(libs@).contains(name@),
    {
        let mut i: usize = 0;
        while i < libs.len()
            invariant
                i <= libs@.len(),
                forall|j: int| 0 <= j < i ==> text::str_texts(libs@)[j] != name@,
            decreases libs.len() - i,
        {
            assert(text::str_texts(libs@)[i as int] == libs@[i as int]@);
            if text::same_text(libs[i], name) {
                return true;
            }
            i = i + 1;
        }
        false
    }

    /// Removes needed libraries.
    fn remove_needed_impl(&mut self, libs: &[&str]) -> (r: Option<Result<(), Error>>)
        ensures
            edits::reports(
                r,
                final(self)@,
                old(self)@.removing_needed(text::str_texts(libs@)),
            ),
    {
        if libs.len() == 0 {
            return Some(Ok(()));
        }
        let dynstr_shdr = match self.find_section(".dynstr") {
            Ok(shdr) => shdr,
            Err(e) => {
                return Some(Err(e));
            },
        };
        let dynstr = match self.string_bytes(&dynstr_shdr) {
            Some(dynstr) => dynstr,
            None => {
                return Some(Err(Error::Malformed("Invalid dynstr section".to_owned())));
            },
        };
        let dynamic_shdr = match self.find_section(".dynamic") {
            Ok(shdr) => shdr,
            Err(e) => {
                return Some(Err(e));
            },
        };
        let size: usize = match self.dynamic_data(&dynamic_shdr) {
            Some(data) => data.len(),
            None => {
                return None;
            },
        };
        let entries = match self.read_dynamic_entries(&dynamic_shdr) {
            Some(entries) => entries,
            None => {
                return None;
            },
        };
        let mut kept: Vec<Dyn> = Vec::new();
        let mut i: usize = 0;
        while i < entries.len()
            invariant
                i <= entries@.len(),
                kept@.len() <= i,
                kept@ == edits::without_libraries(
                    entries@,
                    dynstr@,
                    text::str_texts(libs@),
                    i as int,
                ),
            decreases entries.len() - i,
        {
            let entry = entries[i];
            let named = entry.d_tag == DT_NEEDED && entry.d_val < dynstr.len() as u64;
            if !named || !ElfMut::is_among(
                libs,
                text::get_string_at(dynstr.as_slice(), entry.d_val as usize).as_str(),
            ) {
                kept.push(entry);
            }
            i = i + 1;
        }
        assert(kept@.len() * self@.ctx.dyn_len() <= entries@.len() * self@.ctx.dyn_len())
            by (nonlinear_arith)
            requires
                kept@.len() <= entries@.len(),
                self@.ctx.dyn_len() >= 0,
        ;
        let table = dyn_table(&kept, self.book.ctx);
        let _ = self.replace_section(".dynamic", resized_bytes(table.as_slice(), size));
        self.book.changed = true;
        Some(Ok(()))
    }

    /// What the replacements make of a name.
    fn new_name_of<'a>(replacements: &[(&'a str, &'a str)], name: &str) -> (r: Option<&'a str>)
        ensures
            match r {
                Some(new) => edits::new_name(
                    text::str_pairs(replacements@),
                    name@,
                    replacements@.len() as int,
                ) == Some(new@),
                None => edits::new_name(
                    text::str_pairs(replacements@),
                    name@,
                    replacements@.len() as int,
                ) is None,
            },
    {
        let ghost pairs = text::str_pairs(replacements@);
        let mut n: usize = replacements.len();
        while n > 0
            invariant
                n <= replacements@.len(),
                pairs == text::str_pairs(replacements@),
                edits::new_name(pairs, name@, replacements@.len() as int) == edits::new_name(
                    pairs,
                    name@,
                    n as int,
                ),
            decreases n,
        {
            n = n - 1;
            let (old_name, new_name) = replacements[n];
            assert(pairs[n as int] == (old_name@, new_name@));
            if text::same_text(old_name, name) {
                return Some(new_name);
            }
        }
        None
    }

    /// The name that an entry is to be given.
    fn renaming_of<'a>(
        entry: &Dyn,
        dynstr: &Vec<u8>,
        replacements: &[(&'a str, &'a str)],
    ) -> (r: Option<&'a str>)
        ensures
            match r {
                Some(new) => edits::renaming(*entry, dynstr@, text::str_pairs(replacements@))
                    == Some(new@),
                None => edits::renaming(
                    *entry,
                    dynstr@,
                    text::str_pairs(replacements@),
                ) is None,
            },
    {
        if entry.d_tag == DT_NEEDED && entry.d_val < dynstr.len() as u64 {
            let name = text::get_string_at(dynstr.as_slice(), entry.d_val as usize);
            ElfMut::new_name_of(replacements, name.as_str())
        } else {
            None
        }
    }

    /// Where the last of the texts that is equal to `name` starts.
    fn place_of(added: &Vec<&str>, starts: &Vec<usize>, name: &str) -> (r: Option<usize>)
        requires
            starts@.len() == added@.len(),
            forall|j: int|
                0 <= j < added@.len() ==> starts@[j] == edits::c_strings(
                    text::str_texts(added@),
                    j,
                ).len(),
        ensures
            match r {
                Some(place) => edits::place_of(
                    text::str_texts(added@),
                    0,
                    name@,
                    added@.len() as int,
                ) == Some(place as int),
                None => edits::place_of(
                    text::str_texts(added@),
                    0,
                    name@,
                    added@.len() as int,
                ) is None,
            },
    {
        let ghost texts = text::str_texts(added@);
        let mut n: usize = added.len();
        while n > 0
            invariant
                n <= added@.len(),
                texts == text::str_texts(added@),
                starts@.len() == added@.len(),
                forall|j: int|
                    0 <= j < added@.len() ==> starts@[j] == edits::c_strings(texts, j).len(),
                edits::place_of(texts, 0, name@, added@.len() as int) == edits::place_of(
                    texts,
                    0,
                    name@,
                    n as int,
                ),
            decreases n,
        {
            n = n - 1;
            assert(texts[n as int] == added@[n as int]@);
            if text::same_text(added[n], name) {
                return Some(starts[n]);
            }
        }
        None
    }

    /// Replaces needed libraries.
    #[verifier::rlimit(40)]
    fn replace_needed_impl(&mut self, replacements: &[(&str, &str)]) -> (r: Option<
        Result<(), Error>,
    >)
        ensures
            edits::reports(
                r,
                final(self)@,
                old(self)@.replacing_needed(text::str_pairs(replacements@)),
            ),
    {
        if replacements.len() == 0 {
            return Some(Ok(()));
        }
        let ghost pairs = text::str_pairs(replacements@);
        let dynstr_shdr = match self.find_section(".dynstr") {
            Ok(shdr) => shdr,
            Err(e) => {
                return Some(Err(e));
            },
        };
        let dynstr = match self.string_bytes(&dynstr_shdr) {
            Some(dynstr) => dynstr,
            None => {
                return Some(Err(Error::Malformed("Invalid dynstr section".to_owned())));
            },
        };
        let dynamic_shdr = match self.find_section(".dynamic") {
            Ok(shdr) => shdr,
            Err(e) => {
                return Some(Err(e));
            },
        };
        let entries = match self.read_dynamic_entries(&dynamic_shdr) {
            Some(entries) => entries,
            None => {
                return None;
            },
        };
        let mut added: Vec<&str> = Vec::new();
        let mut i: usize = 0;
        assert(text::str_texts(added@) =~= Seq::<Seq<char>>::empty());
        while i < entries.len()
            invariant
                i <= entries@.len(),
                pairs == text::str_pairs(replacements@),
                text::str_texts(added@) == edits::longer_names(
                    entries@,
                    dynstr@,
                    pairs,
                    i as int,
                ),
            decreases entries.len() - i,
        {
            if let Some(new_name) = ElfMut::renaming_of(&entries[i], &dynstr, replacements) {
                if new_name.as_bytes().len() > self.string_len(&dynstr, &entries[i]) {
                    let ghost before = added@;
                    added.push(new_name);
                    assert(text::str_texts(added@) =~= text::str_texts(before).push(new_name@));
                }
            }
            i = i + 1;
        }
        let ghost texts = text::str_texts(added@);
        let mut tail: Vec<u8> = Vec::new();
        let mut starts: Vec<usize> = Vec::new();
        i = 0;
        while i < added.len()
            invariant
                i <= added@.len(),
                texts == text::str_texts(added@),
                tail@ == edits::c_strings(texts, i as int),
                starts@.len() == i,
                forall|j: int| 0 <= j < i ==> starts@[j] == edits::c_strings(texts, j).len(),
            decreases added.len() - i,
        {
            let ghost before = tail@;
            starts.push(tail.len());
            let mut name = c_string_bytes(added[i]);
            let ghost bytes = name@;
            tail.append(&mut name);
            assert(texts[i as int] == added@[i as int]@);
            assert(tail@ =~= before + bytes);
            i = i + 1;
        }
        let size: u64 = dynstr.len() as u64;
        if size as u128 + tail.len() as u128 > isize::MAX as u128 {
            return None;
        }
        if added.len() > 0 {
            self.extend_strings(&dynstr_shdr, &tail);
        }
        let ghost extended = self@;
        let ghost renamed_all = Seq::new(
            entries@.len(),
            |j: int| edits::renamed_entry(entries@[j], dynstr@, pairs, texts, size as int),
        );
        let mut renamed: Vec<Dyn> = Vec::new();
        i = 0;
        while i < entries.len()
            invariant
                i <= entries@.len(),
                pairs == text::str_pairs(replacements@),
                texts == text::str_texts(added@),
                starts@.len() == added@.len(),
                forall|j: int|
                    0 <= j < added@.len() ==> starts@[j] == edits::c_strings(texts, j).len(),
                renamed_all == Seq::new(
                    entries@.len(),
                    |j: int| edits::renamed_entry(entries@[j], dynstr@, pairs, texts, size as int),
                ),
                renamed@ == renamed_all.take(i as int),
                self@.shdrs == extended.shdrs,
                self@.shstrtab == extended.shstrtab,
                self@.ctx == extended.ctx,
                extended.renamed_from(
                    dynstr_shdr,
                    entries@,
                    dynstr@,
                    pairs,
                    texts,
                    0,
                ) is None ==> old(self)@.replacing_needed(pairs) is None,
                extended.renamed_from(dynstr_shdr, entries@, dynstr@, pairs, texts, 0)
                    == self@.renamed_from(dynstr_shdr, entries@, dynstr@, pairs, texts, i as int),
            decreases entries.len() - i,
        {
            let mut entry = entries[i];
            if let Some(new_name) = ElfMut::renaming_of(&entry, &dynstr, replacements) {
                if let Some(place) = ElfMut::place_of(&added, &starts, new_name) {
                    let position: u128 = size as u128 + place as u128;
                    entry = Dyn { d_tag: entry.d_tag, d_val: position as u64 };
                } else {
                    let old_len: usize = self.string_len(&dynstr, &entry);
                    if new_name.as_bytes().len() <= old_len && !self.write_string(
                        &dynstr_shdr,
                        entry.d_val,
                        new_name.as_bytes(),
                        old_len as u128,
                    ) {
                        return None;
                    }
                }
            }
            renamed.push(entry);
            assert(renamed@ =~= renamed_all.take(i + 1));
            i = i + 1;
        }
        assert(renamed@ =~= renamed_all);
        self.write_dynamic_entries_to_replaced(&renamed);
        self.book.changed = true;
        Some(Ok(()))
    }

    /// The number of note sections.
    fn note_count(&self) -> (r: usize)
        ensures
            r == relocation::notes(self@.shdrs, self@.shdrs.len() as int).len(),
    {
        let mut count: usize = 0;
        let mut i: usize = 0;
        while i < self.section_headers.len()
            invariant
                i <= self.section_headers@.len(),
                count <= i,
                count == relocation::notes(self.section_headers@, i as int).len(),
            decreases self.section_headers.len() - i,
        {
            if self.section_headers[i].sh_type == SHT_NOTE {
                count = count + 1;
            }
            i = i + 1;
        }
        count
    }

    /// The bytes that the file header and the program header table may come to take.
    fn table_end(&self) -> (r: u128)
        ensures
            r == self@.table_end(),
    {
        let ctx = self.book.ctx;
        let count: u128 = self.program_headers.len() as u128 + self.note_count() as u128 + 1;
        let entry: u128 = ctx.program_header_size() as u128;
        let align: u128 = section_alignment(ctx) as u128;
        assert(0 <= count * entry <= count * 56) by (nonlinear_arith)
            requires
                0 <= entry <= 56,
                0 <= count,
        ;
        let end: u128 = ctx.header_size() as u128 + count * entry + (align - 1);
        proof {
            vstd::arithmetic::div_mod::lemma_fundamental_div_mod(end as int, align as int);
            assert((end / align) * align == align * (end / align)) by (nonlinear_arith);
        }
        end / align * align
    }

    /// Whether a section can be moved.
    fn can_replace_section(&self, idx: usize) -> (r: bool)
        requires
            idx < self@.shdrs.len(),
        ensures
            r == self@.is_movable(idx as int),
    {
        if let Some(name) = self.get_section_name(idx) {
            if text::same_text(name.as_str(), ".interp") {
                return true;
            }
        }
        let sh_type: u32 = self.section_headers[idx].sh_type;
        sh_type != SHT_PROGBITS && sh_type != SHT_NOBITS
    }

    /// Makes the sections that lie in the way of the headers wait to be placed.
    fn replace_sections_in_the_way(&mut self, limit: u128) -> (r: bool)
        ensures
            ({
                let list = old(self)@.obstacles(limit as int, old(self)@.shdrs.len() as int);
                match old(self)@.lifted_from(list, 0) {
                    Some(s) => r && final(self)@ == s,
                    None => !r,
                }
            }),
    {
        let mut list: Vec<usize> = Vec::new();
        let mut i: usize = 1;
        while i < self.section_headers.len()
            invariant
                1 <= i,
                i <= self@.shdrs.len() || i == 1,
                list@ == self@.obstacles(limit as int, i as int),
                forall|k: int|
                    0 <= k < list@.len() ==> (#[trigger] list@[k]) < self@.shdrs.len()
                        && self@.name_of(list@[k] as int) is Some,
            decreases self.section_headers.len() - i,
        {
            if self.section_headers[i].sh_offset as u128 <= limit {
                if let Some(name) = self.get_section_name(i) {
                    if self.book.replaced_sections.get(name.as_str()).is_none()
                        && self.can_replace_section(i) {
                        list.push(i);
                    }
                }
            }
            i = i + 1;
        }
        let mut k: usize = 0;
        while k < list.len()
            invariant
                k <= list@.len(),
                list@ == old(self)@.obstacles(limit as int, old(self)@.shdrs.len() as int),
                forall|j: int|
                    0 <= j < list@.len() ==> (#[trigger] list@[j]) < self@.shdrs.len()
                        && self@.name_of(list@[j] as int) is Some,
                self@.lifted_from(list@, k as int) == old(self)@.lifted_from(list@, 0),
            decreases list.len() - k,
        {
            let idx: usize = list[k];
            let size: u64 = self.section_headers[idx].sh_size;
            if size as u128 > isize::MAX as u128 {
                return false;
            }
            if let Some(name) = self.get_section_name(idx) {
                proof {
                    state::lemma_named(self@.shdrs, self@.shstrtab, name@, 0, idx as int);
                }
                if let Ok(shdr) = self.find_section(name.as_str()) {
                    let content = self.resized_section(name.as_str(), &shdr, size as usize);
                    let _ = self.replace_section(name.as_str(), content);
                }
            }
            k = k + 1;
        }
        true
    }

    /// Whether the content of a note section waits to be placed.
    fn moves_note(&self) -> (r: bool)
        ensures
            r == self@.moves_note(),
    {
        let mut k: usize = 0;
        while k < self.book.replaced_sections.len()
            invariant
                k <= self@.replaced.len(),
                self@.replaced == self.book.replaced_sections@,
                forall|j: int|
                    0 <= j < k ==> !(#[trigger] self@.section(self@.replaced[j].0) matches Some(h)
                        && h.sh_type == SHT_NOTE),
            decreases self@.replaced.len() - k,
        {
            if let Ok(shdr) = self.find_section(self.book.replaced_sections.name(k)) {
                if shdr.sh_type == SHT_NOTE {
                    assert(self@.section(self@.replaced[k as int].0) == Some(shdr));
                    return true;
                }
            }
            k = k + 1;
        }
        false
    }

    /// The note sections that start inside a segment.
    fn notes_inside(&self, p: &ProgramHeader) -> (r: Vec<SectionHeader>)
        ensures
            r@ == relocation::notes_inside(self@.shdrs, *p, self@.shdrs.len() as int),
    {
        let mut r: Vec<SectionHeader> = Vec::new();
        let mut i: usize = 0;
        let end: u128 = p.p_offset as u128 + p.p_filesz as u128;
        while i < self.section_headers.len()
            invariant
                i <= self.section_headers@.len(),
                end == p.p_offset + p.p_filesz,
                r@ == relocation::notes_inside(self.section_headers@, *p, i as int),
            decreases self.section_headers.len() - i,
        {
            let shdr = self.section_headers[i];
            if shdr.sh_type == SHT_NOTE && p.p_offset <= shdr.sh_offset && (shdr.sh_offset as u128)
                < end {
                r.push(shdr);
            }
            i = i + 1;
        }
        r
    }

    /// What becomes of a segment when note segments are split.
    fn split_segment(&self, p: &ProgramHeader) -> (r: Option<Vec<ProgramHeader>>)
        ensures
            match r {
                Some(pieces) => relocation::split_segment(self@.shdrs, *p) == Some(pieces@)
                    && pieces@.len() > 0,
                None => relocation::split_segment(self@.shdrs, *p) is None,
            },
    {
        let mut pieces: Vec<ProgramHeader> = Vec::new();
        if p.p_type != PT_NOTE {
            pieces.push(*p);
            assert(pieces@ =~= seq![*p]);
            return Some(pieces);
        }
        if p.p_filesz > u64::MAX - p.p_offset {
            return None;
        }
        let found = self.notes_inside(p);
        let inside = sorted_by_offset(&found, &offset_order(&found));
        if inside.len() <= 1 {
            pieces.push(*p);
            assert(pieces@ =~= seq![*p]);
            return Some(pieces);
        }
        let ghost all = Seq::new(inside@.len(), |k: int| relocation::note_piece(*p, inside@[k]));
        let mut k: usize = 0;
        while k < inside.len()
            invariant
                k <= inside@.len(),
                inside@ == relocation::by_offset(
                    relocation::notes_inside(self@.shdrs, *p, self@.shdrs.len() as int),
                ),
                inside@.len() > 1,
                p.p_type == PT_NOTE,
                p.p_offset + p.p_filesz <= u64::MAX,
                forall|j: int|
                    0 <= j < k ==> relocation::piece_fits(*p, #[trigger] inside@[j]),
                all == Seq::new(inside@.len(), |j: int| relocation::note_piece(*p, inside@[j])),
                pieces@ == all.take(k as int),
            decreases inside.len() - k,
        {
            let shdr = inside[k];
            let vaddr: i128 = p.p_vaddr as i128 + (shdr.sh_offset as i128 - p.p_offset as i128);
            let paddr: i128 = p.p_paddr as i128 + (shdr.sh_offset as i128 - p.p_offset as i128);
            if vaddr > u64::MAX as i128 || paddr > u64::MAX as i128 {
                assert(!relocation::piece_fits(*p, inside@[k as int]));
                return None;
            }
            pieces.push(
                ProgramHeader {
                    p_type: PT_NOTE,
                    p_flags: p.p_flags,
                    p_offset: shdr.sh_offset,
                    p_vaddr: vaddr as u64,
                    p_paddr: paddr as u64,
                    p_filesz: shdr.sh_size,
                    p_memsz: shdr.sh_size,
                    p_align: shdr.sh_addralign,
                },
            );
            assert(pieces@ =~= all.take(k + 1));
            k = k + 1;
        }
        assert(pieces@ =~= all);
        Some(pieces)
    }

    /// Splits note segments with several note sections, where a note section is to be
    /// placed.
    fn normalize_note_segments(&mut self) -> (r: bool)
        ensures
            match old(self)@.normalized() {
                Some(s) => r && final(self)@ == s,
                None => !r,
            },
    {
        if !self.moves_note() {
            return true;
        }
        let mut first: Vec<ProgramHeader> = Vec::new();
        let mut others: Vec<ProgramHeader> = Vec::new();
        let mut i: usize = 0;
        while i < self.program_headers.len()
            invariant
                i <= self.program_headers@.len(),
                *self == *old(self),
                self@.moves_note(),
                relocation::split_from(self@.shdrs, self@.phdrs, Seq::empty(), Seq::empty(), 0)
                    == relocation::split_from(
                    self@.shdrs,
                    self@.phdrs,
                    first@,
                    others@,
                    i as int,
                ),
            decreases self.program_headers.len() - i,
        {
            let mut pieces = match self.split_segment(&self.program_headers[i]) {
                Some(pieces) => pieces,
                None => {
                    return false;
                },
            };
            let ghost all = pieces@;
            let ghost before = others@;
            first.push(pieces[0]);
            let mut rest = pieces.split_off(1);
            others.append(&mut rest);
            assert(others@ =~= before + all.drop_first());
            i = i + 1;
        }
        first.append(&mut others);
        self.header.e_phnum = first.len() as u16;
        self.program_headers = first;
        true
    }

    /// Sorts the section headers by their places.
    fn sort_section_headers(&mut self)
        ensures
            final(self)@ == old(self)@.sorted(),
    {
        let indices = offset_order(&self.section_headers);
        let sorted = sorted_by_offset(&self.section_headers, &indices);
        if let Some(k) = position_of(&indices, self.header.e_shstrndx as usize) {
            self.header.e_shstrndx = k as u16;
        }
        let ghost all = relocation::positions(indices@);
        let mut index_map: Vec<usize> = Vec::new();
        let mut i: usize = 0;
        while i < indices.len()
            invariant
                i <= indices@.len(),
                all == relocation::positions(indices@),
                index_map@ == all.take(i as int),
                forall|j: usize| j < indices@.len() ==> #[trigger] indices@.contains(j),
            decreases indices.len() - i,
        {
            assert(indices@.contains(i));
            match position_of(&indices, i) {
                Some(k) => {
                    index_map.push(k);
                },
                None => {
                    assert(false);
                },
            }
            assert(index_map@ =~= all.take(i + 1));
            i = i + 1;
        }
        assert(index_map@ =~= all);
        self.section_headers = sorted;
        self.book.section_index_map = index_map;
    }

    /// The highest address behind a segment, and the greatest alignment of the segments
    /// and of pages.
    fn segment_bounds(&self) -> (r: (u64, u64))
        ensures
            r.0 == relocation::top_address(self@.phdrs, self@.phdrs.len() as int),
            r.1 == relocation::top_align(
                self@.phdrs,
                relocation::page_size(self@.header.e_machine),
                self@.phdrs.len() as int,
            ),
    {
        let mut max_vaddr: u64 = 0;
        let mut max_align: u64 = PageSize::for_machine(self.header.e_machine);
        let mut i: usize = 0;
        while i < self.program_headers.len()
            invariant
                i <= self.program_headers@.len(),
                max_vaddr == relocation::top_address(self@.phdrs, i as int),
                max_align == relocation::top_align(
                    self@.phdrs,
                    relocation::page_size(self@.header.e_machine),
                    i as int,
                ),
            decreases self.program_headers.len() - i,
        {
            let p = self.program_headers[i];
            let end: u64 = if p.p_memsz > u64::MAX - p.p_vaddr {
                u64::MAX
            } else {
                p.p_vaddr + p.p_memsz
            };
            if end > max_vaddr {
                max_vaddr = end;
            }
            if p.p_align > max_align {
                max_align = p.p_align;
            }
            i = i + 1;
        }
        (max_vaddr, max_align)
    }

    /// The greatest alignment of the sections to be placed, at least `least`.
    fn placing_align(&self, least: u64) -> (r: u64)
        ensures
            r == self@.placing_align(least as int, self@.replaced.len() as int),
    {
        let mut align: u64 = least;
        let mut k: usize = 0;
        while k < self.book.replaced_sections.len()
            invariant
                k <= self@.replaced.len(),
                self@.replaced == self.book.replaced_sections@,
                align == self@.placing_align(least as int, k as int),
            decreases self@.replaced.len() - k,
        {
            if let Ok(shdr) = self.find_section(self.book.replaced_sections.name(k)) {
                if shdr.sh_addralign > 1 && shdr.sh_addralign > align {
                    align = shdr.sh_addralign;
                }
            }
            k = k + 1;
        }
        align
    }

    /// The bytes that the contents take when each is filled up to its alignment, where a
    /// file can hold so many.
    fn sections_space(&self) -> (r: Option<u64>)
        ensures
            match r {
                Some(space) => space == self@.space(self@.replaced.len() as int),
                None => self@.space(self@.replaced.len() as int) > isize::MAX,
            },
    {
        let most: u64 = isize::MAX as u64;
        let mut total: u64 = 0;
        let mut k: usize = 0;
        while k < self.book.replaced_sections.len()
            invariant
                k <= self@.replaced.len(),
                self@.replaced == self.book.replaced_sections@,
                self@.ctx == self.book.ctx,
                most == isize::MAX,
                total <= most,
                total == self@.space(k as int),
            decreases self@.replaced.len() - k,
        {
            let align: u64 = match self.find_section(self.book.replaced_sections.name(k)) {
                Ok(shdr) => if shdr.sh_addralign > 1 {
                    shdr.sh_addralign
                } else {
                    1
                },
                Err(_) => section_alignment(self.book.ctx),
            };
            let size: u64 = self.book.replaced_sections.content(k).len() as u64;
            proof {
                relocation::lemma_rounded(size as int, align as int);
                placement::lemma_space_grows(self@, k + 1, self@.replaced.len() as int);
                assert(self@.space(k + 1) == total + self@.room_for(k as int));
                if size > 0 {
                    relocation::law_rounded_is_least(1, align as int, self@.room_for(k as int));
                    vstd::arithmetic::div_mod::lemma_div_by_self(align as int);
                }
            }
            match checked_round_up(size, align) {
                Some(room) => {
                    if room > most - total {
                        return None;
                    }
                    total = total + room;
                },
                None => {
                    assert(self@.room_for(k as int) >= align);
                    return None;
                },
            }
            k = k + 1;
        }
        Some(total)
    }

    /// Gives the sections to be placed their new places; the end of them, in the file
    /// and in memory.
    fn place_sections(&mut self, start_offset: u64, start_addr: u64) -> (r: Option<(u64, u64)>)
        ensures
            match r {
                Some((end, end_addr)) => {
                    &&& old(self)@.placed_from(start_offset as int, start_addr as int, 0) == Some(
                        (final(self)@, end as int, end_addr as int),
                    )
                    &&& start_offset <= end
                    &&& start_addr <= end_addr
                },
                None => old(self)@.placed_from(start_offset as int, start_addr as int, 0) is None,
            },
    {
        let mut cur_offset: u64 = start_offset;
        let mut cur_addr: u64 = start_addr;
        let mut k: usize = 0;
        while k < self.book.replaced_sections.len()
            invariant
                k <= self@.replaced.len(),
                self@.replaced == self.book.replaced_sections@,
                start_offset <= cur_offset,
                start_addr <= cur_addr,
                old(self)@.placed_from(start_offset as int, start_addr as int, 0)
                    == self@.placed_from(cur_offset as int, cur_addr as int, k as int),
            decreases self@.replaced.len() - k,
        {
            if let Some(idx) = self.find_section_idx(self.book.replaced_sections.name(k)) {
                let shdr = self.section_headers[idx];
                let align: u64 = if shdr.sh_addralign > 1 {
                    shdr.sh_addralign
                } else {
                    1
                };
                let size: u64 = self.book.replaced_sections.content(k).len() as u64;
                match (checked_round_up(cur_offset, align), checked_round_up(cur_addr, align)) {
                    (Some(offset), Some(addr)) => {
                        if size > u64::MAX - offset || size > u64::MAX - addr {
                            return None;
                        }
                        self.section_headers[idx] = SectionHeader {
                            sh_offset: offset,
                            sh_addr: addr,
                            sh_size: size,
                            ..shdr
                        };
                        cur_offset = offset + size;
                        cur_addr = addr + size;
                    },
                    _ => {
                        return None;
                    },
                }
            }
            k = k + 1;
        }
        Some((cur_offset, cur_addr))
    }

    /// Loads new bytes: by a segment that ends right before them, or else by a new one.
    fn add_or_extend_pt_load(
        &mut self,
        file_offset: u64,
        vaddr: u64,
        file_size: u64,
        mem_size: u64,
    ) -> (r: bool)
        requires
            file_offset + file_size <= u64::MAX,
            vaddr + mem_size <= u64::MAX,
        ensures
            match old(self)@.loading(
                file_offset as int,
                vaddr as int,
                file_size as int,
                mem_size as int,
            ) {
                Some(s) => r && final(self)@ == s,
                None => !r,
            },
    {
        let page_size: u64 = PageSize::for_machine(self.header.e_machine);
        let mut i: usize = 0;
        while i < self.program_headers.len()
            invariant
                i <= self.program_headers@.len(),
                *self == *old(self),
                page_size == relocation::page_size(self@.header.e_machine),
                file_offset + file_size <= u64::MAX,
                vaddr + mem_size <= u64::MAX,
                relocation::extendable_from(
                    self@.phdrs,
                    file_offset as int,
                    vaddr as int,
                    page_size as int,
                    0,
                ) == relocation::extendable_from(
                    self@.phdrs,
                    file_offset as int,
                    vaddr as int,
                    page_size as int,
                    i as int,
                ),
            decreases self.program_headers.len() - i,
        {
            let p = self.program_headers[i];
            if p.p_type == PT_LOAD {
                if p.p_filesz > u64::MAX - p.p_offset || p.p_memsz > u64::MAX - p.p_vaddr {
                    return false;
                }
                let end_offset: u64 = p.p_offset + p.p_filesz;
                let end_vaddr: u64 = p.p_vaddr + p.p_memsz;
                if end_offset <= file_offset && end_vaddr <= vaddr && file_offset - end_offset
                    < page_size && vaddr - end_vaddr < page_size && vaddr - p.p_vaddr == file_offset
                    - p.p_offset {
                    self.program_headers[i] = ProgramHeader {
                        p_filesz: file_offset + file_size - p.p_offset,
                        p_memsz: vaddr + mem_size - p.p_vaddr,
                        ..p
                    };
                    return true;
                }
            }
            i = i + 1;
        }
        self.program_headers.push(
            ProgramHeader {
                p_type: PT_LOAD,
                p_flags: PF_RW,
                p_offset: file_offset,
                p_vaddr: vaddr,
                p_paddr: vaddr,
                p_filesz: file_size,
                p_memsz: mem_size,
                p_align: page_size,
            },
        );
        self.header.e_phnum = self.program_headers.len() as u16;
        true
    }

    /// Writes the contents that wait at the places of their sections.
    fn fill_sections(&mut self) -> (r: bool)
        ensures
            match old(self)@.filled_from(0) {
                Some(s) => r && final(self)@ == s,
                None => !r,
            },
    {
        let mut k: usize = 0;
        while k < self.book.replaced_sections.len()
            invariant
                k <= self@.replaced.len(),
                self@.replaced == self.book.replaced_sections@,
                old(self)@.filled_from(0) == self@.filled_from(k as int),
            decreases self@.replaced.len() - k,
        {
            if let Ok(shdr) = self.find_section(self.book.replaced_sections.name(k)) {
                let len: usize = self.book.replaced_sections.content(k).len();
                if shdr.sh_offset as u128 + len as u128 > self.contents.len() as u128 {
                    return false;
                }
                codec::overwrite(
                    &mut self.contents,
                    shdr.sh_offset as usize,
                    self.book.replaced_sections.content(k).as_slice(),
                );
            }
            k = k + 1;
        }
        true
    }

    /// The number of segments for the program header table.
    fn table_segment_count(&self) -> (r: usize)
        ensures
            r == relocation::table_segments(self@.phdrs, self@.phdrs.len() as int),
    {
        let mut count: usize = 0;
        let mut i: usize = 0;
        while i < self.program_headers.len()
            invariant
                i <= self.program_headers@.len(),
                count <= i,
                count == relocation::table_segments(self@.phdrs, i as int),
            decreases self.program_headers.len() - i,
        {
            if self.program_headers[i].p_type == PT_PHDR {
                count = count + 1;
            }
            i = i + 1;
        }
        count
    }

    /// Sorts the segments: the program header table first, then by physical address.
    fn sort_program_headers(&mut self)
        ensures
            final(self)@ == (ElfState {
                phdrs: relocation::by_key(old(self)@.phdrs),
                ..old(self)@
            }),
    {
        let ghost all = Seq::new(
            self@.phdrs.len(),
            |j: int| relocation::segment_key(self@.phdrs[j]),
        );
        let mut keys: Vec<u128> = Vec::new();
        let mut i: usize = 0;
        while i < self.program_headers.len()
            invariant
                i <= self.program_headers@.len(),
                all == Seq::new(
                    self@.phdrs.len(),
                    |j: int| relocation::segment_key(self@.phdrs[j]),
                ),
                keys@ == all.take(i as int),
            decreases self.program_headers.len() - i,
        {
            let p = self.program_headers[i];
            keys.push(
                if p.p_type == PT_PHDR {
                    0
                } else {
                    p.p_paddr as u128 + 1
                },
            );
            assert(keys@ =~= all.take(i + 1));
            i = i + 1;
        }
        assert(keys@ =~= all);
        let o = order::stable_order(&keys);
        let mut sorted: Vec<ProgramHeader> = Vec::new();
        i = 0;
        while i < o.len()
            invariant
                i <= o@.len(),
                o@.len() == self@.phdrs.len(),
                all == Seq::new(
                    self@.phdrs.len(),
                    |j: int| relocation::segment_key(self@.phdrs[j]),
                ),
                o@ == order::order(all),
                order::is_order(all, o@, all.len() as int),
                sorted@ == relocation::by_key(self@.phdrs).take(i as int),
            decreases o.len() - i,
        {
            sorted.push(self.program_headers[o[i]]);
            assert(sorted@ =~= relocation::by_key(self@.phdrs).take(i + 1));
            i = i + 1;
        }
        assert(sorted@ =~= relocation::by_key(self@.phdrs));
        self.program_headers = sorted;
    }

    /// The note sections.
    fn note_sections(&self) -> (r: Vec<SectionHeader>)
        ensures
            r@ == relocation::notes(self@.shdrs, self@.shdrs.len() as int),
    {
        let mut r: Vec<SectionHeader> = Vec::new();
        let mut i: usize = 0;
        while i < self.section_headers.len()
            invariant
                i <= self.section_headers@.len(),
                r@ == relocation::notes(self.section_headers@, i as int),
            decreases self.section_headers.len() - i,
        {
            if self.section_headers[i].sh_type == SHT_NOTE {
                r.push(self.section_headers[i]);
            }
            i = i + 1;
        }
        r
    }

    /// Brings the segments in line with the sections.
    fn sync_program_headers(&mut self)
        ensures
            final(self)@ == old(self)@.synced(),
    {
        let interp = self.find_section(".interp");
        let dynamic = self.find_section(".dynamic");
        let listed = self.note_sections();
        let count: u128 = self.program_headers.len() as u128;
        let entry: u128 = self.book.ctx.program_header_size() as u128;
        assert(0 <= count * entry <= count * 56) by (nonlinear_arith)
            requires
                0 <= entry <= 56,
                0 <= count,
        ;
        let table: u64 = (count * entry) as u64;
        let mut synced: Vec<ProgramHeader> = Vec::new();
        let mut rank: usize = 0;
        let mut i: usize = 0;
        while i < self.program_headers.len()
            invariant
                i <= self.program_headers@.len(),
                listed@ == relocation::notes(self@.shdrs, self@.shdrs.len() as int),
                rank <= i,
                rank == relocation::note_segments(self@.phdrs, i as int),
                table == (self@.phdrs.len() * self@.ctx.phdr_len()) as u64,
                match interp {
                    Ok(shdr) => self@.section(".interp"@) == Some(shdr),
                    Err(_) => self@.section(".interp"@) is None,
                },
                match dynamic {
                    Ok(shdr) => self@.section(".dynamic"@) == Some(shdr),
                    Err(_) => self@.section(".dynamic"@) is None,
                },
                synced@ == self@.synced().phdrs.take(i as int),
            decreases self.program_headers.len() - i,
        {
            let mut p = self.program_headers[i];
            match p.p_type {
                PT_INTERP => {
                    if let Ok(shdr) = &interp {
                        p = covering(p, shdr);
                    }
                },
                PT_DYNAMIC => {
                    if let Ok(shdr) = &dynamic {
                        p = covering(p, shdr);
                    }
                },
                PT_PHDR => {
                    p = ProgramHeader {
                        p_offset: self.header.e_phoff,
                        p_filesz: table,
                        p_memsz: table,
                        ..p
                    };
                },
                PT_NOTE => {
                    if rank < listed.len() {
                        let shdr = listed[rank];
                        p = ProgramHeader { p_align: shdr.sh_addralign, ..covering(p, &shdr) };
                    }
                    rank = rank + 1;
                },
                _ => {},
            }
            synced.push(p);
            assert(synced@ =~= self@.synced().phdrs.take(i + 1));
            i = i + 1;
        }
        assert(synced@ =~= self@.synced().phdrs);
        self.program_headers = synced;
    }

    /// The address of a section.
    fn address_of(&self, name: &str) -> (r: Option<u64>)
        ensures
            r == self@.address_of(name@),
    {
        match self.find_section(name) {
            Ok(shdr) => Some(shdr.sh_addr),
            Err(_) => None,
        }
    }

    /// The size of a section.
    fn size_of(&self, name: &str) -> (r: Option<u64>)
        ensures
            r == self@.size_of(name@),
    {
        match self.find_section(name) {
            Ok(shdr) => Some(shdr.sh_size),
            Err(_) => None,
        }
    }

    /// The value that the sections give to a dynamic entry with a tag, if any.
    fn value_for(&self, tag: u64) -> (r: Option<u64>)
        ensures
            r == self@.value_for(tag),
    {
        match tag {
            DT_STRTAB => self.address_of(".dynstr"),
            DT_STRSZ => self.size_of(".dynstr"),
            DT_SYMTAB => self.address_of(".dynsym"),
            DT_HASH => self.address_of(".hash"),
            DT_GNU_HASH => self.address_of(".gnu.hash"),
            DT_JMPREL => match self.address_of(".rela.plt") {
                Some(addr) => Some(addr),
                None => self.address_of(".rel.plt"),
            },
            DT_RELA => self.address_of(".rela.dyn"),
            DT_RELASZ => self.size_of(".rela.dyn"),
            DT_REL => self.address_of(".rel.dyn"),
            DT_RELSZ => self.size_of(".rel.dyn"),
            DT_VERNEED => self.address_of(".gnu.version_r"),
            DT_VERSYM => self.address_of(".gnu.version"),
            DT_VERDEF => self.address_of(".gnu.version_d"),
            _ => None,
        }
    }

    /// Brings the dynamic entries in line with the sections.
    fn update_dynamic_section(&mut self) -> (r: bool)
        ensures
            match old(self)@.dyns_updated() {
                Some(s) => r && final(self)@ == s,
                None => !r,
            },
    {
        let dynamic_shdr = match self.find_section(".dynamic") {
            Ok(shdr) => shdr,
            Err(_) => {
                return true;
            },
        };
        let entries = match self.read_dynamic_entries(&dynamic_shdr) {
            Some(entries) => entries,
            None => {
                return false;
            },
        };
        let data = match self.dynamic_data(&dynamic_shdr) {
            Some(data) => data,
            None => {
                return false;
            },
        };
        let ghost all = Seq::new(entries@.len(), |j: int| self@.updated_entry(entries@[j]));
        let mut updated: Vec<Dyn> = Vec::new();
        let mut modified = false;
        let mut i: usize = 0;
        while i < entries.len()
            invariant
                i <= entries@.len(),
                all == Seq::new(entries@.len(), |j: int| self@.updated_entry(entries@[j])),
                updated@ == all.take(i as int),
                modified == (exists|j: int|
                    0 <= j < i && self@.value_for((#[trigger] entries@[j]).d_tag) is Some),
            decreases entries.len() - i,
        {
            let mut entry = entries[i];
            if let Some(value) = self.value_for(entry.d_tag) {
                assert(self@.value_for(entries@[i as int].d_tag) is Some);
                entry = Dyn { d_tag: entry.d_tag, d_val: value };
                modified = true;
            }
            updated.push(entry);
            assert(updated@ =~= all.take(i + 1));
            i = i + 1;
        }
        assert(updated@ =~= all);
        if modified {
            self.write_first_dynamic_entries(data, &updated);
        }
        true
    }

    /// Whether the sections give a value to one of the entries.
    fn updates(&self, entries: &Vec<Dyn>) -> (r: bool)
        ensures
            r == self@.updates(entries@),
    {
        let mut i: usize = 0;
        while i < entries.len()
            invariant
                i <= entries@.len(),
                forall|j: int|
                    0 <= j < i ==> self@.value_for((#[trigger] entries@[j]).d_tag) is None,
            decreases entries.len() - i,
        {
            if self.value_for(entries[i].d_tag).is_some() {
                assert(self@.value_for(entries@[i as int].d_tag) is Some);
                return true;
            }
            i = i + 1;
        }
        false
    }

    /// Lets dynamic entries that were brought in line wait without what stands behind the
    /// null entry.
    fn trim_dynamic_section(&mut self)
        ensures
            final(self)@ == old(self)@.dyns_trimmed(),
    {
        let waits = self.book.replaced_sections.get(".dynamic").is_some();
        if let Ok(shdr) = self.find_section(".dynamic") {
            if let Some(entries) = self.read_dynamic_entries(&shdr) {
                if waits && self.updates(&entries) {
                    self.write_dynamic_entries_to_replaced(&entries);
                }
            }
        }
    }

    /// Brings the headers in line with the sections.
    fn rewrite_headers(&mut self) -> (r: bool)
        ensures
            match old(self)@.headers_updated() {
                Some(s) => r && final(self)@ == s,
                None => !r,
            },
    {
        if self.table_segment_count() > 1 {
            return false;
        }
        self.sort_program_headers();
        self.sync_program_headers();
        self.update_dynamic_section()
    }

    /// Places the contents from the given places on.
    fn place_all(&mut self, start_offset: u64, start_addr: u64) -> (r: bool)
        ensures
            match old(self)@.placed(start_offset as int, start_addr as int) {
                Some(s) => r && final(self)@ == s,
                None => !r,
            },
    {
        let space = self.sections_space();
        let (end, end_addr) = match self.place_sections(start_offset, start_addr) {
            Some(ends) => ends,
            None => {
                return false;
            },
        };
        let filled_end: u128 = match space {
            Some(space) => start_offset as u128 + space as u128,
            None => {
                return false;
            },
        };
        let len: u128 = if filled_end > end as u128 {
            filled_end + 1
        } else {
            end as u128 + 1
        };
        if len > isize::MAX as u128 {
            return false;
        }
        resize(&mut self.contents, len as usize);
        if self.add_or_extend_pt_load(
            start_offset,
            start_addr,
            end - start_offset + 1,
            end_addr - start_addr,
        ) && self.rewrite_headers() && self.fill_sections() {
            self.trim_dynamic_section();
            true
        } else {
            false
        }
    }

    /// Places all contents that wait behind the end of the file.
    fn rewrite_sections_library(&mut self) -> (r: bool)
        ensures
            match old(self)@.relocated() {
                Some(s) => r && final(self)@ == s,
                None => !r,
            },
    {
        let (max_vaddr, max_phdr_align) = self.segment_bounds();
        let limit: u128 = self.table_end();
        if !self.replace_sections_in_the_way(limit) || !self.normalize_note_segments() {
            return false;
        }
        self.sort_section_headers();
        let max_align: u64 = self.placing_align(max_phdr_align);
        let len: u64 = self.contents.len() as u64;
        match (checked_round_up(max_vaddr, max_align), checked_round_up(len, max_align)) {
            (Some(start_addr), Some(start_offset)) => {
                self.place_all(start_offset, start_addr)
            },
            _ => false,
        }
    }

    /// Places the contents of an executable, as those of a library.
    fn rewrite_sections_executable(&mut self) -> (r: bool)
        ensures
            match old(self)@.relocated() {
                Some(s) => r && final(self)@ == s,
                None => !r,
            },
    {
        self.rewrite_sections_library()
    }

    /// Writes the headers into the bytes of the file.
    fn write_headers(&mut self) -> (r: Result<(), Error>)
        ensures
            final(self)@ == old(self)@.headers_written().state,
            types::outcome(r) == old(self)@.headers_written().error,
    {
        match codec::write_header(&mut self.contents, &self.header) {
            Ok(_) => {},
            Err(e) => {
                return Err(e);
            },
        }
        let ghost start = self.contents@;
        let ctx = self.book.ctx;
        let size: u128 = ctx.program_header_size() as u128;
        let mut at: u128 = self.header.e_phoff as u128;
        let mut i: usize = 0;
        while i < self.program_headers.len()
            invariant
                i <= self.program_headers@.len(),
                size == ctx.phdr_len(),
                at == self.header.e_phoff + i * size,
                at <= u64::MAX + i * 64,
                *self == (ElfMut { contents: self.contents, ..*old(self) }),
                ctx == self.book.ctx,
                self.contents@ == relocation::phdrs_written(
                    start,
                    self.program_headers@,
                    self.header.e_phoff as int,
                    ctx,
                    i as int,
                ),
            decreases self.program_headers.len() - i,
        {
            assert((i + 1) * size == i * size + size) by (nonlinear_arith);
            if at + size <= self.contents.len() as u128 {
                codec::write_program_header(
                    &mut self.contents,
                    &self.program_headers[i],
                    at as usize,
                    ctx,
                );
            }
            at = at + size;
            i = i + 1;
        }
        let ghost tables = self.contents@;
        let size: u128 = ctx.section_header_size() as u128;
        at = self.header.e_shoff as u128;
        i = 0;
        while i < self.section_headers.len()
            invariant
                i <= self.section_headers@.len(),
                size == ctx.shdr_len(),
                at == self.header.e_shoff + i * size,
                at <= u64::MAX + i * 64,
                *self == (ElfMut { contents: self.contents, ..*old(self) }),
                ctx == self.book.ctx,
                self.contents@ == relocation::shdrs_written(
                    tables,
                    self.section_headers@,
                    self.header.e_shoff as int,
                    ctx,
                    i as int,
                ),
            decreases self.section_headers.len() - i,
        {
            assert((i + 1) * size == i * size + size) by (nonlinear_arith);
            if at + size <= self.contents.len() as u128 {
                codec::write_section_header(
                    &mut self.contents,
                    &self.section_headers[i],
                    at as usize,
                    ctx,
                );
            }
            at = at + size;
            i = i + 1;
        }
        Ok(())
    }

    /// Places the contents that wait.
    fn rewrite_sections(&mut self) -> (r: Option<Result<(), Error>>)
        ensures
            edits::reports(r, final(self)@, old(self)@.placing()),
    {
        let placed = match self.header.e_type {
            ET_DYN => self.rewrite_sections_library(),
            ET_EXEC => self.rewrite_sections_executable(),
            _ => {
                let mut message = "Unsupported ELF type for rewriting: ".to_owned();
                message.append(text::decimal_text(self.header.e_type as u64).as_str());
                return Some(Err(Error::Malformed(message)));
            },
        };
        if placed {
            Some(Ok(()))
        } else {
            None
        }
    }

    /// Applies all modifications to the bytes of the file.
    fn write_impl(&mut self) -> (r: Option<Result<(), Error>>)
        ensures
            edits::reports(r, final(self)@, old(self)@.writing()),
    {
        if self.book.replaced_sections.len() == 0 {
            return Some(Ok(()));
        }
        match self.rewrite_sections() {
            Some(Ok(_)) => Some(self.write_headers()),
            Some(Err(e)) => Some(Err(e)),
            None => None,
        }
    }

    /// The same file again.
    fn duplicate(&self) -> (r: ElfMut)
        ensures
            r@ == self@,
    {
        let copy = ElfMut {
            contents: self.contents.clone(),
            header: self.header,
            program_headers: self.program_headers.clone(),
            section_headers: self.section_headers.clone(),
            book: Bookkeeping {
                shstrtab: self.book.shstrtab.clone(),
                replaced_sections: self.book.replaced_sections.duplicate(),
                ctx: self.book.ctx,
                changed: self.book.changed,
                section_index_map: self.book.section_index_map.clone(),
            },
        };
        assert(copy@ =~= self@);
        copy
    }

    /// Whether the RUNPATH can be set without reaching outside of the file.
    pub fn can_set_runpath(&self, new_path: &str) -> (r: bool)
        ensures
            r == (self@.setting_path(new_path@, DT_RUNPATH) is Some),
    {
        let mut copy = self.duplicate();
        copy.set_rpath_impl(new_path, false).is_some()
    }

    /// Sets the RUNPATH.
    pub fn set_runpath(&mut self, new_path: &str) -> (r: Result<(), Error>)
        requires
            old(self)@.setting_path(new_path@, DT_RUNPATH) is Some,
        ensures
            Some(edits::Step { state: final(self)@, error: types::outcome(r) })
                == old(self)@.setting_path(new_path@, DT_RUNPATH),
    {
        match self.set_rpath_impl(new_path, false) {
            Some(r) => r,
            None => vstd::pervasive::unreached(),
        }
    }

    /// Whether the RPATH can be set without reaching outside of the file.
    pub fn can_set_rpath(&self, new_path: &str) -> (r: bool)
        ensures
            r == (self@.setting_path(new_path@, DT_RPATH) is Some),
    {
        let mut copy = self.duplicate();
        copy.set_rpath_impl(new_path, true).is_some()
    }

    /// Sets the RPATH.
    pub fn set_rpath(&mut self, new_path: &str) -> (r: Result<(), Error>)
        requires
            old(self)@.setting_path(new_path@, DT_RPATH) is Some,
        ensures
            Some(edits::Step { state: final(self)@, error: types::outcome(r) })
                == old(self)@.setting_path(new_path@, DT_RPATH),
    {
        match self.set_rpath_impl(new_path, true) {
            Some(r) => r,
            None => vstd::pervasive::unreached(),
        }
    }

    /// Whether needed libraries can be added without reaching outside of the file.
    pub fn can_add_needed(&self, libs: &[&str]) -> (r: bool)
        ensures
            r == (self@.adding_needed(text::str_texts(libs@)) is Some),
    {
        let mut copy = self.duplicate();
        copy.add_needed_impl(libs).is_some()
    }

    /// Adds needed libraries.
    pub fn add_needed(&mut self, libs: &[&str]) -> (r: Result<(), Error>)
        requires
            old(self)@.adding_needed(text::str_texts(libs@)) is Some,
        ensures
            Some(edits::Step { state: final(self)@, error: types::outcome(r) })
                == old(self)@.adding_needed(text::str_texts(libs@)),
    {
        match self.add_needed_impl(libs) {
            Some(r) => r,
            None => vstd::pervasive::unreached(),
        }
    }

    /// Whether needed libraries can be removed without reaching outside of the file.
    pub fn can_remove_needed(&self, libs: &[&str]) -> (r: bool)
        ensures
            r == (self@.removing_needed(text::str_texts(libs@)) is Some),
    {
        let mut copy = self.duplicate();
        copy.remove_needed_impl(libs).is_some()
    }

    /// Removes needed libraries.
    pub fn remove_needed(&mut self, libs: &[&str]) -> (r: Result<(), Error>)
        requires
            old(self)@.removing_needed(text::str_texts(libs@)) is Some,
        ensures
            Some(edits::Step { state: final(self)@, error: types::outcome(r) })
                == old(self)@.removing_needed(text::str_texts(libs@)),
    {
        match self.remove_needed_impl(libs) {
            Some(r) => r,
            None => vstd::pervasive::unreached(),
        }
    }

    /// Whether needed libraries can be replaced without reaching outside of the file.
    pub fn can_replace_needed(&self, replacements: &[(&str, &str)]) -> (r: bool)
        ensures
            r == (self@.replacing_needed(text::str_pairs(replacements@)) is Some),
    {
        let mut copy = self.duplicate();
        copy.replace_needed_impl(replacements).is_some()
    }

    /// Replaces needed libraries, each given with the one to stand in its place.
    pub fn replace_needed(&mut self, replacements: &[(&str, &str)]) -> (r: Result<(), Error>)
        requires
            old(self)@.replacing_needed(text::str_pairs(replacements@)) is Some,
        ensures
            Some(edits::Step { state: final(self)@, error: types::outcome(r) })
                == old(self)@.replacing_needed(text::str_pairs(replacements@)),
    {
        match self.replace_needed_impl(replacements) {
            Some(r) => r,
            None => vstd::pervasive::unreached(),
        }
    }

    /// Whether the file can be written: the contents that wait find room, and all places
    /// and addresses are in range. The names of these contents stand in order.
    pub fn can_write(&self) -> (r: bool)
        ensures
            r == (self@.writing() is Some),
            sections::ordered(self@.replaced),
    {
        let _ = self.book.replaced_sections.len();
        let mut copy = self.duplicate();
        copy.write_impl().is_some()
    }

    /// Applies all modifications and gives the bytes of the file.
    pub fn write(&mut self) -> (r: Result<Vec<u8>, Error>)
        requires
            old(self)@.writing() is Some,
        ensures
            match r {
                Ok(bytes) => {
                    &&& old(self)@.writing() == edits::done(final(self)@)
                    &&& bytes@ == final(self)@.contents
                },
                Err(e) => old(self)@.writing() == edits::failed(final(self)@, e@),
            },
    {
        match self.write_impl() {
            Some(Ok(_)) => {
                let bytes = self.contents.clone();
                assert(bytes@ =~= self.contents@);
                Ok(bytes)
            },
            Some(Err(e)) => Err(e),
            None => vstd::pervasive::unreached(),
        }
    }
}

} // verus!
