//! The state of a file under modification, and what is read from it.

use crate::codec;
use crate::sections;
use crate::text;
use crate::types::{Ctx, Dyn, ErrorView, Header, ProgramHeader, SectionHeader, DT_NEEDED, DT_NULL};
use vstd::prelude::*;

verus! {

/// A file under modification.
#[verifier::ext_equal]
pub struct ElfState {
    /// The bytes of the file.
    pub contents: Seq<u8>,
    /// The file header.
    pub header: Header,
    /// The program headers.
    pub phdrs: Seq<ProgramHeader>,
    /// The section headers.
    pub shdrs: Seq<SectionHeader>,
    /// The section names.
    pub shstrtab: Seq<u8>,
    /// The contents that wait to be placed, by section name.
    pub replaced: Seq<(Seq<char>, Seq<u8>)>,
    /// The layout of the structures of the file.
    pub ctx: Ctx,
    /// Whether anything was changed.
    pub changed: bool,
    /// The position that each section header was given by the last sorting.
    pub index_map: Seq<usize>,
}

/// The complaint about a section that is not there.
pub open spec fn not_found(name: Seq<char>) -> ErrorView {
    ErrorView::Malformed("Section '"@ + name + "' not found"@)
}

/// The dynamic entries in `data` from the `i`-th on, up to the first null entry.
pub open spec fn dyns_from(data: Seq<u8>, ctx: Ctx, i: int) -> Seq<Dyn>
    decreases data.len() - i * ctx.dyn_len(),
{
    if i < 0 || (i + 1) * ctx.dyn_len() > data.len() {
        Seq::empty()
    } else {
        let d = codec::dyn_at(data, i * ctx.dyn_len(), ctx);
        if d.d_tag == DT_NULL {
            seq![d]
        } else {
            proof {
                assert(i * ctx.dyn_len() + ctx.dyn_len() == (i + 1) * ctx.dyn_len())
                    by (nonlinear_arith);
            }
            seq![d] + dyns_from(data, ctx, i + 1)
        }
    }
}

/// The bytes of dynamic entries, one behind the other.
pub open spec fn dyns_bytes(entries: Seq<Dyn>, ctx: Ctx) -> Seq<u8>
    decreases entries.len(),
{
    if entries.len() == 0 {
        Seq::empty()
    } else {
        dyns_bytes(entries.drop_last(), ctx) + codec::dyn_bytes(entries.last(), ctx)
    }
}

/// The first entry from the `i`-th on with a tag.
pub open spec fn tag_from(entries: Seq<Dyn>, tag: u64, i: int) -> Option<int>
    decreases entries.len() - i,
{
    if i >= entries.len() {
        None
    } else if entries[i].d_tag == tag {
        Some(i)
    } else {
        tag_from(entries, tag, i + 1)
    }
}

/// The paths named by the first entry from the `i`-th on that has the tag and points
/// into the strings.
pub open spec fn paths_from(entries: Seq<Dyn>, strings: Seq<u8>, tag: u64, i: int) -> Seq<Seq<char>>
    decreases entries.len() - i,
{
    if i >= entries.len() {
        Seq::empty()
    } else if entries[i].d_tag == tag && entries[i].d_val < strings.len() {
        text::split(text::string_at(strings, entries[i].d_val as int), ':')
    } else {
        paths_from(entries, strings, tag, i + 1)
    }
}

/// Whether an entry names a needed library.
pub open spec fn names_library(d: Dyn, strings: Seq<u8>) -> bool {
    d.d_tag == DT_NEEDED && d.d_val < strings.len()
}

/// The libraries named by the first `n` entries.
pub open spec fn libraries(entries: Seq<Dyn>, strings: Seq<u8>, n: int) -> Seq<Seq<char>>
    decreases n,
{
    if n <= 0 {
        Seq::empty()
    } else if names_library(entries[n - 1], strings) {
        libraries(entries, strings, n - 1).push(
            text::string_at(strings, entries[n - 1].d_val as int),
        )
    } else {
        libraries(entries, strings, n - 1)
    }
}

/// What keeps `data` from being taken for an ELF file, if anything.
pub open spec fn parse_fault(data: Seq<u8>) -> Option<ErrorView> {
    let ctx = codec::announced_ctx(data);
    let phdrs = codec::phdrs_fault(
        data,
        codec::phoff(data) as usize as int,
        codec::phnum(data) as int,
        ctx,
    );
    if codec::header_fault(data) is Some {
        codec::header_fault(data)
    } else if phdrs is Some {
        phdrs
    } else {
        codec::shdrs_fault(data, codec::shoff(data) as usize as int, codec::shnum(data) as int, ctx)
    }
}

/// The section names of a file: the section that the header names, where it lies
/// inside the file.
pub open spec fn name_table(data: Seq<u8>, h: Header, shdrs: Seq<SectionHeader>) -> Seq<u8> {
    let table = shdrs[h.e_shstrndx as int];
    if 0 < h.e_shstrndx < shdrs.len() && table.sh_offset + table.sh_size <= data.len() {
        data.subrange(table.sh_offset as int, table.sh_offset + table.sh_size)
    } else {
        Seq::empty()
    }
}

/// `s` is the state of the file `data` that nothing was done to.
pub open spec fn is_parsed(data: Seq<u8>, s: ElfState) -> bool {
    let ctx = codec::announced_ctx(data);
    let phdrs_at = s.header.e_phoff as usize as int;
    let shdrs_at = s.header.e_shoff as usize as int;
    &&& parse_fault(data) is None
    &&& s.contents == data
    &&& codec::starts_with_header(data, s.header)
    &&& s.ctx == ctx
    &&& s.phdrs == Seq::new(
        s.header.e_phnum as nat,
        |i: int| codec::phdr_at(data, phdrs_at + i * ctx.phdr_len(), ctx),
    )
    &&& s.shdrs == Seq::new(
        codec::shdrs_len(data, shdrs_at, s.header.e_shnum as int, ctx) as nat,
        |i: int| codec::shdr_at(data, shdrs_at + i * ctx.shdr_len(), ctx),
    )
    &&& s.shstrtab == name_table(data, s.header, s.shdrs)
    &&& s.replaced == Seq::<(Seq<char>, Seq<u8>)>::empty()
    &&& !s.changed
    &&& s.index_map == Seq::new(s.shdrs.len(), |i: int| i as usize)
}

/// The name of the `i`-th section, where it has one.
pub open spec fn section_name(shdrs: Seq<SectionHeader>, names: Seq<u8>, i: int) -> Option<
    Seq<char>,
> {
    if 0 <= i < shdrs.len() && shdrs[i].sh_name < names.len() {
        Some(text::string_at(names, shdrs[i].sh_name as int))
    } else {
        None
    }
}

/// The first section from the `i`-th on with a name.
pub open spec fn named_from(
    shdrs: Seq<SectionHeader>,
    names: Seq<u8>,
    name: Seq<char>,
    i: int,
) -> Option<int>
    decreases shdrs.len() - i,
{
    if i >= shdrs.len() {
        None
    } else if section_name(shdrs, names, i) == Some(name) {
        Some(i)
    } else {
        named_from(shdrs, names, name, i + 1)
    }
}

/// A section with a name is found, or one before it.
pub proof fn lemma_named(
    shdrs: Seq<SectionHeader>,
    names: Seq<u8>,
    name: Seq<char>,
    i: int,
    k: int,
)
    requires
        0 <= i <= k < shdrs.len(),
        section_name(shdrs, names, k) == Some(name),
    ensures
        named_from(shdrs, names, name, i) matches Some(j) && i <= j <= k && section_name(
            shdrs,
            names,
            j,
        ) == Some(name),
    decreases k - i,
{
    if section_name(shdrs, names, i) != Some(name) {
        lemma_named(shdrs, names, name, i + 1, k);
    }
}

/// The name of the first section from the `i`-th on that takes the same place as `h`.
pub open spec fn owner_from(
    shdrs: Seq<SectionHeader>,
    names: Seq<u8>,
    h: SectionHeader,
    i: int,
) -> Option<Seq<char>>
    decreases shdrs.len() - i,
{
    if i >= shdrs.len() {
        None
    } else if shdrs[i].sh_offset == h.sh_offset && shdrs[i].sh_size == h.sh_size {
        section_name(shdrs, names, i)
    } else {
        owner_from(shdrs, names, h, i + 1)
    }
}

impl ElfState {
    /// The name of the `i`-th section, where it has one.
    pub open spec fn name_of(self, i: int) -> Option<Seq<char>> {
        section_name(self.shdrs, self.shstrtab, i)
    }

    /// The first section with a name.
    pub open spec fn find(self, name: Seq<char>) -> Option<int> {
        named_from(self.shdrs, self.shstrtab, name, 0)
    }

    /// The header of the first section with a name.
    pub open spec fn section(self, name: Seq<char>) -> Option<SectionHeader> {
        match self.find(name) {
            Some(i) => Some(self.shdrs[i]),
            None => None,
        }
    }

    /// Whether a section lies inside the file.
    pub open spec fn in_file(self, h: SectionHeader) -> bool {
        h.sh_offset + h.sh_size <= self.contents.len()
    }

    /// The bytes of a section that lies inside the file.
    pub open spec fn body(self, h: SectionHeader) -> Seq<u8> {
        self.contents.subrange(h.sh_offset as int, h.sh_offset + h.sh_size)
    }

    /// The path in the `.interp` section, without the byte that ends it.
    pub open spec fn interpreter(self) -> Option<Seq<char>> {
        match self.section(".interp"@) {
            Some(h) => Some(
                if self.in_file(h) && h.sh_size > 0 {
                    text::text(self.body(h).drop_last())
                } else {
                    Seq::empty()
                },
            ),
            None => None,
        }
    }

    /// The name of the first section that takes the same place as `h`.
    pub open spec fn owner(self, h: SectionHeader) -> Option<Seq<char>> {
        owner_from(self.shdrs, self.shstrtab, h, 0)
    }

    /// The content that waits to be placed for the section at the place of `h`.
    pub open spec fn pending(self, h: SectionHeader) -> Option<Seq<u8>> {
        match self.owner(h) {
            Some(name) => sections::lookup(self.replaced, name),
            None => None,
        }
    }

    /// The bytes that the dynamic section `h` holds: those that wait to be placed for it
    /// or for a section at its place, or else those in the file; none where it reaches
    /// behind the end of the file.
    pub open spec fn dyn_data(self, h: SectionHeader) -> Option<Seq<u8>> {
        if sections::lookup(self.replaced, ".dynamic"@) is Some {
            sections::lookup(self.replaced, ".dynamic"@)
        } else if self.pending(h) is Some {
            self.pending(h)
        } else if self.in_file(h) {
            Some(self.body(h))
        } else {
            None
        }
    }

    /// The entries of the dynamic section `h`.
    pub open spec fn dyns(self, h: SectionHeader) -> Seq<Dyn> {
        dyns_from(self.dyn_data(h)->0, self.ctx, 0)
    }

    /// Whether the dynamic section can be read wherever there are strings for it: then
    /// it must not reach behind the end of the file.
    pub open spec fn readable(self) -> bool {
        match (self.section(".dynstr"@), self.section(".dynamic"@)) {
            (Some(strings), Some(dynamic)) => self.in_file(strings) ==> self.dyn_data(
                dynamic,
            ) is Some,
            _ => true,
        }
    }

    /// The paths under a tag.
    pub open spec fn search_paths(self, tag: u64) -> Result<Seq<Seq<char>>, ErrorView> {
        match (self.section(".dynstr"@), self.section(".dynamic"@)) {
            (None, _) => Err(not_found(".dynstr"@)),
            (Some(strings), _) if !self.in_file(strings) => Ok(Seq::empty()),
            (Some(_), None) => Err(not_found(".dynamic"@)),
            (Some(strings), Some(dynamic)) => Ok(
                paths_from(self.dyns(dynamic), self.body(strings), tag, 0),
            ),
        }
    }

    /// The needed libraries.
    pub open spec fn needed(self) -> Result<Seq<Seq<char>>, ErrorView> {
        match (self.section(".dynstr"@), self.section(".dynamic"@)) {
            (None, _) => Err(not_found(".dynstr"@)),
            (Some(strings), _) if !self.in_file(strings) => Ok(Seq::empty()),
            (Some(_), None) => Err(not_found(".dynamic"@)),
            (Some(strings), Some(dynamic)) => Ok(
                libraries(
                    self.dyns(dynamic),
                    self.body(strings),
                    self.dyns(dynamic).len() as int,
                ),
            ),
        }
    }
}

} // verus!
