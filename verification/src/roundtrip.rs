//! What is written as bytes is read again from them.

use crate::codec;
use crate::edits;
use crate::state;
use crate::types::{Container, Ctx, Dyn, Endian, Header, ProgramHeader, SectionHeader, DT_NULL};
use vstd::prelude::*;

verus! {

/// The first number that does not fit in `w` bytes.
pub open spec fn capacity(w: nat) -> nat
    decreases w,
{
    if w == 0 {
        1
    } else {
        256 * capacity((w - 1) as nat)
    }
}

/// Whether a number fits in an address of the class.
pub open spec fn fits_word(v: u64, ctx: Ctx) -> bool {
    ctx.container is Little ==> v <= u32::MAX
}

/// Whether the fields of a program header fit in those of the class.
pub open spec fn phdr_fits(p: ProgramHeader, ctx: Ctx) -> bool {
    &&& fits_word(p.p_offset, ctx)
    &&& fits_word(p.p_vaddr, ctx)
    &&& fits_word(p.p_paddr, ctx)
    &&& fits_word(p.p_filesz, ctx)
    &&& fits_word(p.p_memsz, ctx)
    &&& fits_word(p.p_align, ctx)
}

/// Whether the fields of a section header fit in those of the class.
pub open spec fn shdr_fits(h: SectionHeader, ctx: Ctx) -> bool {
    &&& h.sh_name <= u32::MAX
    &&& fits_word(h.sh_flags, ctx)
    &&& fits_word(h.sh_addr, ctx)
    &&& fits_word(h.sh_offset, ctx)
    &&& fits_word(h.sh_size, ctx)
    &&& fits_word(h.sh_addralign, ctx)
    &&& fits_word(h.sh_entsize, ctx)
}

/// Whether the fields of a dynamic entry fit in those of the class.
pub open spec fn dyn_fits(d: Dyn, ctx: Ctx) -> bool {
    fits_word(d.d_tag, ctx) && fits_word(d.d_val, ctx)
}

/// Whether the fields of a file header fit in those of the class that it announces.
pub open spec fn header_fits(h: Header) -> bool {
    let ctx = codec::announced_ctx(h.e_ident@);
    fits_word(h.e_entry, ctx) && fits_word(h.e_phoff, ctx) && fits_word(h.e_shoff, ctx)
}

proof fn lemma_le_roundtrip(v: nat, w: nat)
    requires
        v < capacity(w),
    ensures
        codec::le_uint(codec::le_bytes(v, w)) == v,
        codec::le_bytes(v, w).len() == w,
    decreases w,
{
    if w > 0 {
        let rest = (w - 1) as nat;
        assert(v / 256 < capacity(rest));
        lemma_le_roundtrip(v / 256, rest);
        let bytes = codec::le_bytes(v, w);
        assert(bytes.drop_first() =~= codec::le_bytes(v / 256, rest));
        assert(bytes[0] == (v % 256) as u8);
    }
}

/// A number that fits is read again from its bytes.
pub proof fn lemma_uint_roundtrip(v: nat, w: nat, e: Endian)
    requires
        v < capacity(w),
    ensures
        codec::uint(codec::uint_bytes(v, w, e), e) == v,
{
    reveal(codec::uint_bytes);
    lemma_le_roundtrip(v, w);
    let bytes = codec::le_bytes(v, w);
    assert(bytes.reverse().reverse() =~= bytes);
}

/// A number that stands at a place is read from there.
pub proof fn lemma_field(b: Seq<u8>, at: int, v: nat, w: nat, e: Endian)
    requires
        b.subrange(at, at + w) == codec::uint_bytes(v, w, e),
        v < capacity(w),
    ensures
        codec::field(b, at, w as int, e) == v,
{
    reveal(codec::field);
    lemma_uint_roundtrip(v, w, e);
}

/// The capacities of the widths in use.
pub proof fn lemma_capacities()
    ensures
        capacity(2) == u16::MAX + 1,
        capacity(4) == u32::MAX + 1,
        capacity(8) == u64::MAX + 1,
{
    reveal_with_fuel(capacity, 9);
}

/// A dynamic entry whose bytes stand at a place is read from there.
pub proof fn lemma_dyn_roundtrip(b: Seq<u8>, at: int, d: Dyn, ctx: Ctx)
    requires
        0 <= at,
        at + ctx.dyn_len() <= b.len(),
        b.subrange(at, at + ctx.dyn_len()) == codec::dyn_bytes(d, ctx),
        dyn_fits(d, ctx),
    ensures
        codec::dyn_at(b, at, ctx) == d,
{
    let w = ctx.word();
    let part = codec::dyn_bytes(d, ctx);
    lemma_capacities();
    codec::lemma_uint_bytes_len(d.d_tag as nat, w as nat, ctx.le);
    codec::lemma_uint_bytes_len(d.d_val as nat, w as nat, ctx.le);
    assert(b.subrange(at, at + w) =~= part.subrange(0, w));
    assert(part.subrange(0, w) =~= codec::uint_bytes(d.d_tag as nat, w as nat, ctx.le));
    assert(b.subrange(at + w, at + w + w) =~= part.subrange(w, 2 * w));
    assert(part.subrange(w, 2 * w) =~= codec::uint_bytes(d.d_val as nat, w as nat, ctx.le));
    lemma_field(b, at, d.d_tag as nat, w as nat, ctx.le);
    lemma_field(b, at + w, d.d_val as nat, w as nat, ctx.le);
}

/// A number that stands in a part is read from there where the part stands.
proof fn lemma_part_field(
    b: Seq<u8>,
    at: int,
    part: Seq<u8>,
    off: int,
    v: nat,
    w: int,
    e: Endian,
)
    requires
        0 <= at,
        0 <= off,
        0 <= w,
        off + w <= part.len(),
        at + part.len() <= b.len(),
        b.subrange(at, at + part.len()) == part,
        part.subrange(off, off + w) == codec::uint_bytes(v, w as nat, e),
        v < capacity(w as nat),
    ensures
        codec::field(b, at + off, w, e) == v,
{
    assert(b.subrange(at + off, at + off + w) =~= part.subrange(off, off + w));
    lemma_field(b, at + off, v, w as nat, e);
}

/// A section header whose bytes stand at a place is read from there.
pub proof fn lemma_shdr_roundtrip(b: Seq<u8>, at: int, x: SectionHeader, ctx: Ctx)
    requires
        0 <= at,
        at + ctx.shdr_len() <= b.len(),
        b.subrange(at, at + ctx.shdr_len()) == codec::shdr_bytes(x, ctx),
        shdr_fits(x, ctx),
    ensures
        codec::shdr_at(b, at, ctx) == x,
{
    let w = ctx.word();
    let e = ctx.le;
    let four: int = 4;
    let part = codec::shdr_bytes(x, ctx);
    lemma_capacities();
    codec::lemma_uint_bytes_len(x.sh_name as nat, four as nat, e);
    codec::lemma_uint_bytes_len(x.sh_type as nat, four as nat, e);
    codec::lemma_uint_bytes_len(x.sh_flags as nat, w as nat, e);
    codec::lemma_uint_bytes_len(x.sh_addr as nat, w as nat, e);
    codec::lemma_uint_bytes_len(x.sh_offset as nat, w as nat, e);
    codec::lemma_uint_bytes_len(x.sh_size as nat, w as nat, e);
    codec::lemma_uint_bytes_len(x.sh_link as nat, four as nat, e);
    codec::lemma_uint_bytes_len(x.sh_info as nat, four as nat, e);
    codec::lemma_uint_bytes_len(x.sh_addralign as nat, w as nat, e);
    codec::lemma_uint_bytes_len(x.sh_entsize as nat, w as nat, e);
    assert(part.subrange(0, 0 + four) =~= codec::uint_bytes(x.sh_name as nat, four as nat, e));
    lemma_part_field(b, at, part, 0, x.sh_name as nat, four, e);
    assert(part.subrange(four, four + four) =~= codec::uint_bytes(
        x.sh_type as nat,
        four as nat,
        e,
    ));
    lemma_part_field(b, at, part, four, x.sh_type as nat, four, e);
    assert(part.subrange(8, 8 + w) =~= codec::uint_bytes(x.sh_flags as nat, w as nat, e));
    lemma_part_field(b, at, part, 8, x.sh_flags as nat, w, e);
    assert(part.subrange(8 + w, 8 + w + w) =~= codec::uint_bytes(x.sh_addr as nat, w as nat, e));
    lemma_part_field(b, at, part, 8 + w, x.sh_addr as nat, w, e);
    assert(part.subrange(8 + 2 * w, 8 + 2 * w + w) =~= codec::uint_bytes(
        x.sh_offset as nat,
        w as nat,
        e,
    ));
    lemma_part_field(b, at, part, 8 + 2 * w, x.sh_offset as nat, w, e);
    assert(part.subrange(8 + 3 * w, 8 + 3 * w + w) =~= codec::uint_bytes(
        x.sh_size as nat,
        w as nat,
        e,
    ));
    lemma_part_field(b, at, part, 8 + 3 * w, x.sh_size as nat, w, e);
    assert(part.subrange(8 + 4 * w, 8 + 4 * w + four) =~= codec::uint_bytes(
        x.sh_link as nat,
        four as nat,
        e,
    ));
    lemma_part_field(b, at, part, 8 + 4 * w, x.sh_link as nat, four, e);
    assert(part.subrange(12 + 4 * w, 12 + 4 * w + four) =~= codec::uint_bytes(
        x.sh_info as nat,
        four as nat,
        e,
    ));
    lemma_part_field(b, at, part, 12 + 4 * w, x.sh_info as nat, four, e);
    assert(part.subrange(16 + 4 * w, 16 + 4 * w + w) =~= codec::uint_bytes(
        x.sh_addralign as nat,
        w as nat,
        e,
    ));
    lemma_part_field(b, at, part, 16 + 4 * w, x.sh_addralign as nat, w, e);
    assert(part.subrange(16 + 5 * w, 16 + 5 * w + w) =~= codec::uint_bytes(
        x.sh_entsize as nat,
        w as nat,
        e,
    ));
    lemma_part_field(b, at, part, 16 + 5 * w, x.sh_entsize as nat, w, e);
}

/// A program header whose bytes stand at a place is read from there.
pub proof fn lemma_phdr_roundtrip(b: Seq<u8>, at: int, x: ProgramHeader, ctx: Ctx)
    requires
        0 <= at,
        at + ctx.phdr_len() <= b.len(),
        b.subrange(at, at + ctx.phdr_len()) == codec::phdr_bytes(x, ctx),
        phdr_fits(x, ctx),
    ensures
        codec::phdr_at(b, at, ctx) == x,
{
    let w = ctx.word();
    let e = ctx.le;
    let four: int = 4;
    let o: int = if ctx.container is Big {
        8
    } else {
        4
    };
    let f: int = if ctx.container is Big {
        4
    } else {
        24
    };
    let part = codec::phdr_bytes(x, ctx);
    lemma_capacities();
    codec::lemma_uint_bytes_len(x.p_type as nat, four as nat, e);
    codec::lemma_uint_bytes_len(x.p_flags as nat, four as nat, e);
    codec::lemma_uint_bytes_len(x.p_offset as nat, w as nat, e);
    codec::lemma_uint_bytes_len(x.p_vaddr as nat, w as nat, e);
    codec::lemma_uint_bytes_len(x.p_paddr as nat, w as nat, e);
    codec::lemma_uint_bytes_len(x.p_filesz as nat, w as nat, e);
    codec::lemma_uint_bytes_len(x.p_memsz as nat, w as nat, e);
    codec::lemma_uint_bytes_len(x.p_align as nat, w as nat, e);
    assert(part.subrange(0, 0 + four) =~= codec::uint_bytes(x.p_type as nat, four as nat, e));
    lemma_part_field(b, at, part, 0, x.p_type as nat, four, e);
    assert(part.subrange(f, f + four) =~= codec::uint_bytes(x.p_flags as nat, four as nat, e));
    lemma_part_field(b, at, part, f, x.p_flags as nat, four, e);
    assert(part.subrange(o, o + w) =~= codec::uint_bytes(x.p_offset as nat, w as nat, e));
    lemma_part_field(b, at, part, o, x.p_offset as nat, w, e);
    assert(part.subrange(o + w, o + w + w) =~= codec::uint_bytes(x.p_vaddr as nat, w as nat, e));
    lemma_part_field(b, at, part, o + w, x.p_vaddr as nat, w, e);
    assert(part.subrange(o + 2 * w, o + 2 * w + w) =~= codec::uint_bytes(
        x.p_paddr as nat,
        w as nat,
        e,
    ));
    lemma_part_field(b, at, part, o + 2 * w, x.p_paddr as nat, w, e);
    assert(part.subrange(o + 3 * w, o + 3 * w + w) =~= codec::uint_bytes(
        x.p_filesz as nat,
        w as nat,
        e,
    ));
    lemma_part_field(b, at, part, o + 3 * w, x.p_filesz as nat, w, e);
    assert(part.subrange(o + 4 * w, o + 4 * w + w) =~= codec::uint_bytes(
        x.p_memsz as nat,
        w as nat,
        e,
    ));
    lemma_part_field(b, at, part, o + 4 * w, x.p_memsz as nat, w, e);
    assert(part.subrange(ctx.phdr_len() - w, ctx.phdr_len() - w + w) =~= codec::uint_bytes(
        x.p_align as nat,
        w as nat,
        e,
    ));
    lemma_part_field(b, at, part, ctx.phdr_len() - w, x.p_align as nat, w, e);
}

/// The bytes of a file header are as many as its class says.
pub proof fn lemma_header_bytes_len(x: Header)
    ensures
        codec::header_bytes(x).len() == codec::announced_ctx(x.e_ident@).ehdr_len(),
{
    let w = codec::announced_ctx(x.e_ident@).word();
    let e = codec::announced_ctx(x.e_ident@).le;
    let two: int = 2;
    let four: int = 4;
    codec::lemma_uint_bytes_len(x.e_type as nat, two as nat, e);
    codec::lemma_uint_bytes_len(x.e_machine as nat, two as nat, e);
    codec::lemma_uint_bytes_len(x.e_version as nat, four as nat, e);
    codec::lemma_uint_bytes_len(x.e_entry as nat, w as nat, e);
    codec::lemma_uint_bytes_len(x.e_phoff as nat, w as nat, e);
    codec::lemma_uint_bytes_len(x.e_shoff as nat, w as nat, e);
    codec::lemma_uint_bytes_len(x.e_flags as nat, four as nat, e);
    codec::lemma_uint_bytes_len(x.e_ehsize as nat, two as nat, e);
    codec::lemma_uint_bytes_len(x.e_phentsize as nat, two as nat, e);
    codec::lemma_uint_bytes_len(x.e_phnum as nat, two as nat, e);
    codec::lemma_uint_bytes_len(x.e_shentsize as nat, two as nat, e);
    codec::lemma_uint_bytes_len(x.e_shnum as nat, two as nat, e);
    codec::lemma_uint_bytes_len(x.e_shstrndx as nat, two as nat, e);
}

/// A file header whose bytes stand at the start is read from there.
pub proof fn lemma_header_roundtrip(b: Seq<u8>, x: Header)
    requires
        codec::announced_ctx(x.e_ident@).ehdr_len() <= b.len(),
        b.subrange(0, codec::announced_ctx(x.e_ident@).ehdr_len()) == codec::header_bytes(x),
        header_fits(x),
    ensures
        codec::starts_with_header(b, x),
        codec::announced_ctx(b) == codec::announced_ctx(x.e_ident@),
        b.subrange(0, 16) == x.e_ident@,
{
    let ctx = codec::announced_ctx(x.e_ident@);
    let w = ctx.word();
    let e = ctx.le;
    let two: int = 2;
    let four: int = 4;
    let part = codec::header_bytes(x);
    lemma_capacities();
    lemma_header_bytes_len(x);
    codec::lemma_uint_bytes_len(x.e_type as nat, two as nat, e);
    codec::lemma_uint_bytes_len(x.e_machine as nat, two as nat, e);
    codec::lemma_uint_bytes_len(x.e_version as nat, four as nat, e);
    codec::lemma_uint_bytes_len(x.e_entry as nat, w as nat, e);
    codec::lemma_uint_bytes_len(x.e_phoff as nat, w as nat, e);
    codec::lemma_uint_bytes_len(x.e_shoff as nat, w as nat, e);
    codec::lemma_uint_bytes_len(x.e_flags as nat, four as nat, e);
    codec::lemma_uint_bytes_len(x.e_ehsize as nat, two as nat, e);
    codec::lemma_uint_bytes_len(x.e_phentsize as nat, two as nat, e);
    codec::lemma_uint_bytes_len(x.e_phnum as nat, two as nat, e);
    codec::lemma_uint_bytes_len(x.e_shentsize as nat, two as nat, e);
    codec::lemma_uint_bytes_len(x.e_shnum as nat, two as nat, e);
    codec::lemma_uint_bytes_len(x.e_shstrndx as nat, two as nat, e);
    assert(part.subrange(0, 16) =~= x.e_ident@);
    assert(b.subrange(0, 16) =~= part.subrange(0, 16));
    assert(b[4] == part[4] && b[5] == part[5]) by {
        assert(b.subrange(0, 16)[4] == b[4] && b.subrange(0, 16)[5] == b[5]);
    }
    assert(part.subrange(16, 16 + two) =~= codec::uint_bytes(x.e_type as nat, two as nat, e));
    lemma_part_field(b, 0, part, 16, x.e_type as nat, two, e);
    assert(part.subrange(18, 18 + two) =~= codec::uint_bytes(x.e_machine as nat, two as nat, e));
    lemma_part_field(b, 0, part, 18, x.e_machine as nat, two, e);
    assert(part.subrange(20, 20 + four) =~= codec::uint_bytes(x.e_version as nat, four as nat, e));
    lemma_part_field(b, 0, part, 20, x.e_version as nat, four, e);
    assert(part.subrange(24, 24 + w) =~= codec::uint_bytes(x.e_entry as nat, w as nat, e));
    lemma_part_field(b, 0, part, 24, x.e_entry as nat, w, e);
    assert(part.subrange(24 + w, 24 + w + w) =~= codec::uint_bytes(x.e_phoff as nat, w as nat, e));
    lemma_part_field(b, 0, part, 24 + w, x.e_phoff as nat, w, e);
    assert(part.subrange(24 + 2 * w, 24 + 2 * w + w) =~= codec::uint_bytes(
        x.e_shoff as nat,
        w as nat,
        e,
    ));
    lemma_part_field(b, 0, part, 24 + 2 * w, x.e_shoff as nat, w, e);
    assert(part.subrange(24 + 3 * w, 24 + 3 * w + four) =~= codec::uint_bytes(
        x.e_flags as nat,
        four as nat,
        e,
    ));
    lemma_part_field(b, 0, part, 24 + 3 * w, x.e_flags as nat, four, e);
    assert(part.subrange(28 + 3 * w, 28 + 3 * w + two) =~= codec::uint_bytes(
        x.e_ehsize as nat,
        two as nat,
        e,
    ));
    lemma_part_field(b, 0, part, 28 + 3 * w, x.e_ehsize as nat, two, e);
    assert(part.subrange(30 + 3 * w, 30 + 3 * w + two) =~= codec::uint_bytes(
        x.e_phentsize as nat,
        two as nat,
        e,
    ));
    lemma_part_field(b, 0, part, 30 + 3 * w, x.e_phentsize as nat, two, e);
    assert(part.subrange(32 + 3 * w, 32 + 3 * w + two) =~= codec::uint_bytes(
        x.e_phnum as nat,
        two as nat,
        e,
    ));
    lemma_part_field(b, 0, part, 32 + 3 * w, x.e_phnum as nat, two, e);
    assert(part.subrange(34 + 3 * w, 34 + 3 * w + two) =~= codec::uint_bytes(
        x.e_shentsize as nat,
        two as nat,
        e,
    ));
    lemma_part_field(b, 0, part, 34 + 3 * w, x.e_shentsize as nat, two, e);
    assert(part.subrange(36 + 3 * w, 36 + 3 * w + two) =~= codec::uint_bytes(
        x.e_shnum as nat,
        two as nat,
        e,
    ));
    lemma_part_field(b, 0, part, 36 + 3 * w, x.e_shnum as nat, two, e);
    assert(part.subrange(38 + 3 * w, 38 + 3 * w + two) =~= codec::uint_bytes(
        x.e_shstrndx as nat,
        two as nat,
        e,
    ));
    lemma_part_field(b, 0, part, 38 + 3 * w, x.e_shstrndx as nat, two, e);
}

/// The bytes of dynamic entries are as many as the entries ask for.
pub proof fn lemma_dyns_bytes_len(entries: Seq<Dyn>, ctx: Ctx)
    ensures
        state::dyns_bytes(entries, ctx).len() == entries.len() * ctx.dyn_len(),
    decreases entries.len(),
{
    if entries.len() > 0 {
        lemma_dyns_bytes_len(entries.drop_last(), ctx);
        codec::lemma_dyn_bytes_len(entries.last(), ctx);
        let n = entries.len() as int;
        assert(n * ctx.dyn_len() == (n - 1) * ctx.dyn_len() + ctx.dyn_len()) by (nonlinear_arith);
    }
}

/// Among the bytes of dynamic entries each has its own.
pub proof fn lemma_dyns_bytes_at(entries: Seq<Dyn>, ctx: Ctx, i: int)
    requires
        0 <= i < entries.len(),
    ensures
        (i + 1) * ctx.dyn_len() <= state::dyns_bytes(entries, ctx).len(),
        state::dyns_bytes(entries, ctx).subrange(i * ctx.dyn_len(), (i + 1) * ctx.dyn_len())
            == codec::dyn_bytes(entries[i], ctx),
    decreases entries.len(),
{
    let size = ctx.dyn_len();
    let n = entries.len() as int;
    let all = state::dyns_bytes(entries, ctx);
    let front = state::dyns_bytes(entries.drop_last(), ctx);
    lemma_dyns_bytes_len(entries, ctx);
    lemma_dyns_bytes_len(entries.drop_last(), ctx);
    codec::lemma_dyn_bytes_len(entries.last(), ctx);
    assert((i + 1) * size <= n * size && i * size >= 0) by (nonlinear_arith)
        requires
            0 <= i < n,
            size >= 0,
    ;
    assert((i + 1) * size == i * size + size) by (nonlinear_arith);
    if i == n - 1 {
        assert(all.subrange(i * size, (i + 1) * size) =~= codec::dyn_bytes(entries[i], ctx));
    } else {
        lemma_dyns_bytes_at(entries.drop_last(), ctx, i);
        assert(all.subrange(i * size, (i + 1) * size) =~= front.subrange(
            i * size,
            (i + 1) * size,
        ));
    }
}

proof fn lemma_dyns_roundtrip_from(entries: Seq<Dyn>, ctx: Ctx, i: int)
    requires
        0 <= i <= entries.len(),
        forall|j: int| 0 <= j < entries.len() ==> dyn_fits(#[trigger] entries[j], ctx),
        forall|j: int| 0 <= j < entries.len() - 1 ==> (#[trigger] entries[j]).d_tag != DT_NULL,
    ensures
        state::dyns_from(state::dyns_bytes(entries, ctx), ctx, i) == entries.skip(i),
    decreases entries.len() - i,
{
    let size = ctx.dyn_len();
    let all = state::dyns_bytes(entries, ctx);
    lemma_dyns_bytes_len(entries, ctx);
    assert((i + 1) * size == i * size + size) by (nonlinear_arith);
    if i == entries.len() {
        assert(entries.skip(i) =~= Seq::empty());
    } else {
        lemma_dyns_bytes_at(entries, ctx, i);
        assert(i * size >= 0) by (nonlinear_arith)
            requires
                i >= 0,
                size >= 0,
        ;
        lemma_dyn_roundtrip(all, i * size, entries[i], ctx);
        lemma_dyns_roundtrip_from(entries, ctx, i + 1);
        if entries[i].d_tag == DT_NULL {
            assert(i == entries.len() - 1);
            assert(entries.skip(i) =~= seq![entries[i]]);
        } else {
            assert(entries.skip(i) =~= seq![entries[i]] + entries.skip(i + 1));
        }
    }
}

/// Dynamic entries, of which only the last may be a null entry, are read again from
/// their bytes.
pub proof fn lemma_dyns_roundtrip(entries: Seq<Dyn>, ctx: Ctx)
    requires
        forall|j: int| 0 <= j < entries.len() ==> dyn_fits(#[trigger] entries[j], ctx),
        forall|j: int| 0 <= j < entries.len() - 1 ==> (#[trigger] entries[j]).d_tag != DT_NULL,
    ensures
        state::dyns_from(state::dyns_bytes(entries, ctx), ctx, 0) == entries,
{
    lemma_dyns_roundtrip_from(entries, ctx, 0);
    assert(entries.skip(0) =~= entries);
}

/// An entry with its fields cut to those of the class.
pub open spec fn cut_dyn(d: Dyn, ctx: Ctx) -> Dyn {
    match ctx.container {
        Container::Little => Dyn {
            d_tag: (d.d_tag as int % 0x1_0000_0000) as u64,
            d_val: (d.d_val as int % 0x1_0000_0000) as u64,
        },
        Container::Big => d,
    }
}

/// Only the low bytes of a number are written.
proof fn lemma_low_bytes(v: nat, e: Endian)
    ensures
        codec::uint_bytes(v % 0x1_0000_0000, 4, e) == codec::uint_bytes(v, 4, e),
{
    reveal(codec::uint_bytes);
    reveal_with_fuel(codec::le_bytes, 5);
    let u = v % 0x1_0000_0000;
    assert(u % 256 == v % 256);
    assert((u / 256) % 256 == (v / 256) % 256);
    assert((u / 256 / 256) % 256 == (v / 256 / 256) % 256);
    assert((u / 256 / 256 / 256) % 256 == (v / 256 / 256 / 256) % 256);
    assert(codec::le_bytes(u, 4) =~= codec::le_bytes(v, 4));
}

/// An entry and the one with its fields cut to those of the class have the same bytes.
pub proof fn lemma_cut_dyn(d: Dyn, ctx: Ctx)
    ensures
        codec::dyn_bytes(cut_dyn(d, ctx), ctx) == codec::dyn_bytes(d, ctx),
        dyn_fits(cut_dyn(d, ctx), ctx),
        dyn_fits(d, ctx) ==> cut_dyn(d, ctx) == d,
{
    lemma_low_bytes(d.d_tag as nat, ctx.le);
    lemma_low_bytes(d.d_val as nat, ctx.le);
}

/// Entries have the same bytes where each of them does.
pub proof fn lemma_same_dyns_bytes(a: Seq<Dyn>, b: Seq<Dyn>, ctx: Ctx)
    requires
        a.len() == b.len(),
        forall|i: int|
            0 <= i < a.len() ==> codec::dyn_bytes(#[trigger] a[i], ctx) == codec::dyn_bytes(
                b[i],
                ctx,
            ),
    ensures
        state::dyns_bytes(a, ctx) == state::dyns_bytes(b, ctx),
    decreases a.len(),
{
    if a.len() > 0 {
        assert forall|i: int| 0 <= i < a.drop_last().len() implies codec::dyn_bytes(
            #[trigger] a.drop_last()[i],
            ctx,
        ) == codec::dyn_bytes(b.drop_last()[i], ctx) by {
            assert(a.drop_last()[i] == a[i]);
        }
        lemma_same_dyns_bytes(a.drop_last(), b.drop_last(), ctx);
        assert(codec::dyn_bytes(a[a.len() - 1], ctx) == codec::dyn_bytes(b[b.len() - 1], ctx));
    }
}

/// Entries that end in a null entry are the same where other bytes follow.
pub proof fn lemma_dyns_extended(data: Seq<u8>, tail: Seq<u8>, ctx: Ctx, i: int)
    requires
        0 <= i,
        state::dyns_from(data, ctx, i).len() > 0,
        state::dyns_from(data, ctx, i).last().d_tag == DT_NULL,
    ensures
        state::dyns_from(data + tail, ctx, i) == state::dyns_from(data, ctx, i),
    decreases data.len() - i * ctx.dyn_len(),
{
    let size = ctx.dyn_len();
    let w = ctx.word();
    let at = i * size;
    assert((i + 1) * size == i * size + size) by (nonlinear_arith);
    assert(at >= 0) by (nonlinear_arith)
        requires
            i >= 0,
            size >= 0,
            at == i * size,
    ;
    assert(codec::dyn_at(data + tail, at, ctx) == codec::dyn_at(data, at, ctx)) by {
        reveal(codec::field);
        assert((data + tail).subrange(at, at + w) =~= data.subrange(at, at + w));
        assert((data + tail).subrange(at + w, at + w + w) =~= data.subrange(at + w, at + w + w));
    }
    if codec::dyn_at(data, at, ctx).d_tag != DT_NULL {
        let rest = state::dyns_from(data, ctx, i + 1);
        let entries = state::dyns_from(data, ctx, i);
        assert(entries == seq![codec::dyn_at(data, at, ctx)] + rest);
        if rest.len() == 0 {
            assert(entries.last() == entries[0]);
        } else {
            assert(entries.last() == rest.last());
        }
        lemma_dyns_extended(data, tail, ctx, i + 1);
    }
}

proof fn lemma_le_uint_bound(b: Seq<u8>)
    ensures
        codec::le_uint(b) < capacity(b.len()),
    decreases b.len(),
{
    if b.len() > 0 {
        lemma_le_uint_bound(b.drop_first());
    }
}

/// A number that is read fits in the bytes it is read from.
pub proof fn lemma_field_bound(b: Seq<u8>, at: int, w: int, e: Endian)
    requires
        0 <= at,
        0 <= w,
        at + w <= b.len(),
    ensures
        codec::field(b, at, w, e) < capacity(w as nat),
{
    reveal(codec::field);
    lemma_le_uint_bound(b.subrange(at, at + w));
    lemma_le_uint_bound(b.subrange(at, at + w).reverse());
}

/// A dynamic entry that is read fits in the class.
pub proof fn lemma_dyn_at_fits(b: Seq<u8>, at: int, ctx: Ctx)
    requires
        0 <= at,
        at + ctx.dyn_len() <= b.len(),
    ensures
        dyn_fits(codec::dyn_at(b, at, ctx), ctx),
{
    lemma_capacities();
    lemma_field_bound(b, at, ctx.word(), ctx.le);
    lemma_field_bound(b, at + ctx.word(), ctx.word(), ctx.le);
}

/// Whether dynamic entries are all that bytes hold: the last is a null entry, or there
/// is no room for another one.
pub open spec fn dyns_end(data: Seq<u8>, entries: Seq<Dyn>, ctx: Ctx) -> bool {
    ||| entries.len() > 0 && entries.last().d_tag == DT_NULL
    ||| (entries.len() + 1) * ctx.dyn_len() > data.len()
}

/// Of dynamic entries that are read only the last may be a null entry, and all fit in
/// the class.
pub proof fn lemma_dyns_from_shape(data: Seq<u8>, ctx: Ctx, i: int)
    requires
        0 <= i,
    ensures
        ({
            let entries = state::dyns_from(data, ctx, i);
            &&& forall|j: int| 0 <= j < entries.len() ==> dyn_fits(#[trigger] entries[j], ctx)
            &&& forall|j: int|
                0 <= j < entries.len() - 1 ==> (#[trigger] entries[j]).d_tag != DT_NULL
            &&& entries.len() > 0 && entries.last().d_tag == DT_NULL || (i + entries.len() + 1)
                * ctx.dyn_len() > data.len()
            &&& entries.len() > 0 ==> (i + entries.len()) * ctx.dyn_len() <= data.len()
        }),
    decreases data.len() - i * ctx.dyn_len(),
{
    let size = ctx.dyn_len();
    assert((i + 1) * size == i * size + size) by (nonlinear_arith);
    if (i + 1) * size <= data.len() {
        assert(i * size >= 0) by (nonlinear_arith)
            requires
                i >= 0,
                size >= 0,
        ;
        lemma_dyn_at_fits(data, i * size, ctx);
        let d = codec::dyn_at(data, i * size, ctx);
        if d.d_tag != DT_NULL {
            lemma_dyns_from_shape(data, ctx, i + 1);
            let rest = state::dyns_from(data, ctx, i + 1);
            let entries = state::dyns_from(data, ctx, i);
            assert forall|j: int| 0 <= j < entries.len() implies dyn_fits(
                #[trigger] entries[j],
                ctx,
            ) by {
                if j > 0 {
                    assert(entries[j] == rest[j - 1]);
                }
            }
            assert(entries.len() == rest.len() + 1);
            assert(rest.len() > 0 ==> entries.last() == rest.last());
            assert forall|j: int| 0 <= j < entries.len() - 1 implies (
            #[trigger] entries[j]).d_tag != DT_NULL by {
                if j > 0 {
                    assert(entries[j] == rest[j - 1]);
                }
            }
        }
    }
}

/// The bytes of a program header are as many as its class says.
pub proof fn lemma_phdr_bytes_len(x: ProgramHeader, ctx: Ctx)
    ensures
        codec::phdr_bytes(x, ctx).len() == ctx.phdr_len(),
{
    let w = ctx.word() as nat;
    codec::lemma_uint_bytes_len(x.p_type as nat, 4, ctx.le);
    codec::lemma_uint_bytes_len(x.p_flags as nat, 4, ctx.le);
    codec::lemma_uint_bytes_len(x.p_offset as nat, w, ctx.le);
    codec::lemma_uint_bytes_len(x.p_vaddr as nat, w, ctx.le);
    codec::lemma_uint_bytes_len(x.p_paddr as nat, w, ctx.le);
    codec::lemma_uint_bytes_len(x.p_filesz as nat, w, ctx.le);
    codec::lemma_uint_bytes_len(x.p_memsz as nat, w, ctx.le);
    codec::lemma_uint_bytes_len(x.p_align as nat, w, ctx.le);
}

/// The bytes of a section header are as many as its class says.
pub proof fn lemma_shdr_bytes_len(x: SectionHeader, ctx: Ctx)
    ensures
        codec::shdr_bytes(x, ctx).len() == ctx.shdr_len(),
{
    let w = ctx.word() as nat;
    codec::lemma_uint_bytes_len(x.sh_name as nat, 4, ctx.le);
    codec::lemma_uint_bytes_len(x.sh_type as nat, 4, ctx.le);
    codec::lemma_uint_bytes_len(x.sh_flags as nat, w, ctx.le);
    codec::lemma_uint_bytes_len(x.sh_addr as nat, w, ctx.le);
    codec::lemma_uint_bytes_len(x.sh_offset as nat, w, ctx.le);
    codec::lemma_uint_bytes_len(x.sh_size as nat, w, ctx.le);
    codec::lemma_uint_bytes_len(x.sh_link as nat, 4, ctx.le);
    codec::lemma_uint_bytes_len(x.sh_info as nat, 4, ctx.le);
    codec::lemma_uint_bytes_len(x.sh_addralign as nat, w, ctx.le);
    codec::lemma_uint_bytes_len(x.sh_entsize as nat, w, ctx.le);
}

/// Dynamic entries whose bytes stand at the start of others are read from there.
pub proof fn lemma_dyns_reread(data: Seq<u8>, entries: Seq<Dyn>, ctx: Ctx, i: int)
    requires
        0 <= i <= entries.len(),
        entries.len() * ctx.dyn_len() <= data.len(),
        dyns_end(data, entries, ctx),
        forall|j: int| 0 <= j < entries.len() ==> dyn_fits(#[trigger] entries[j], ctx),
        forall|j: int| 0 <= j < entries.len() - 1 ==> (#[trigger] entries[j]).d_tag != DT_NULL,
        forall|j: int|
            0 <= j < entries.len() ==> #[trigger] data.subrange(
                j * ctx.dyn_len(),
                (j + 1) * ctx.dyn_len(),
            ) == codec::dyn_bytes(entries[j], ctx),
        i == entries.len() ==> (entries.len() + 1) * ctx.dyn_len() > data.len(),
    ensures
        state::dyns_from(data, ctx, i) == entries.skip(i),
    decreases entries.len() - i,
{
    let size = ctx.dyn_len();
    let n = entries.len() as int;
    if i == n {
        assert(entries.skip(i) =~= Seq::empty());
    } else {
        assert((i + 1) * size <= n * size && i * size >= 0) by (nonlinear_arith)
            requires
                0 <= i < n,
                size >= 0,
        ;
        assert((i + 1) * size == i * size + size) by (nonlinear_arith);
        assert(data.subrange(i * size, (i + 1) * size) == codec::dyn_bytes(entries[i], ctx));
        lemma_dyn_roundtrip(data, i * size, entries[i], ctx);
        if entries[i].d_tag == DT_NULL {
            assert(i == n - 1);
            assert(entries.skip(i) =~= seq![entries[i]]);
        } else {
            lemma_dyns_reread(data, entries, ctx, i + 1);
            assert(entries.skip(i) =~= seq![entries[i]] + entries.skip(i + 1));
        }
    }
}

/// Dynamic entries are written at their places, and the rest stays.
pub proof fn lemma_dyns_written(b: Seq<u8>, entries: Seq<Dyn>, at: int, ctx: Ctx, i: int)
    requires
        0 <= at,
        0 <= i <= entries.len(),
        at + entries.len() * ctx.dyn_len() <= b.len(),
    ensures
        ({
            let (out, fault) = edits::dyns_written(b, entries, at, ctx, i);
            &&& fault is None
            &&& out.len() == b.len()
            &&& forall|q: int|
                0 <= q < b.len() && !(at + i * ctx.dyn_len() <= q < at + entries.len()
                    * ctx.dyn_len()) ==> #[trigger] out[q] == b[q]
            &&& forall|j: int|
                i <= j < entries.len() ==> #[trigger] out.subrange(
                    at + j * ctx.dyn_len(),
                    at + (j + 1) * ctx.dyn_len(),
                ) == codec::dyn_bytes(entries[j], ctx)
        }),
    decreases entries.len() - i,
{
    let size = ctx.dyn_len();
    let n = entries.len() as int;
    if i < n {
        let place = at + i * size;
        assert((i + 1) * size <= n * size && i * size >= 0) by (nonlinear_arith)
            requires
                0 <= i < n,
                size >= 0,
        ;
        assert((i + 1) * size == i * size + size) by (nonlinear_arith);
        codec::lemma_dyn_bytes_len(entries[i], ctx);
        let next = codec::with_dyn(b, entries[i], place, ctx);
        lemma_dyns_written(next, entries, at, ctx, i + 1);
        let (out, _) = edits::dyns_written(b, entries, at, ctx, i);
        assert forall|j: int| i <= j < n implies #[trigger] out.subrange(
            at + j * size,
            at + (j + 1) * size,
        ) == codec::dyn_bytes(entries[j], ctx) by {
            if j == i {
                assert(out.subrange(place, place + size) =~= next.subrange(place, place + size));
                assert(next.subrange(place, place + size) =~= codec::dyn_bytes(entries[i], ctx));
            }
        }
    }
}

/// Entries with other values, written over the first ones in bytes, are read from there.
pub proof fn lemma_dyns_overlaid(data: Seq<u8>, all: Seq<Dyn>, ctx: Ctx)
    requires
        all.len() == state::dyns_from(data, ctx, 0).len(),
        forall|j: int|
            0 <= j < all.len() ==> (#[trigger] all[j]).d_tag == state::dyns_from(
                data,
                ctx,
                0,
            )[j].d_tag || all[j].d_tag != DT_NULL && state::dyns_from(data, ctx, 0)[j].d_tag
                != DT_NULL,
        forall|j: int| 0 <= j < all.len() ==> dyn_fits(#[trigger] all[j], ctx),
    ensures
        state::dyns_from(edits::overlaid(data, 0, state::dyns_bytes(all, ctx)), ctx, 0) == all,
{
    let entries = state::dyns_from(data, ctx, 0);
    let part = state::dyns_bytes(all, ctx);
    let out = edits::overlaid(data, 0, part);
    let size = ctx.dyn_len();
    let n = all.len() as int;
    lemma_dyns_from_shape(data, ctx, 0);
    lemma_dyns_bytes_len(all, ctx);
    assert(n * size <= data.len());
    assert forall|j: int| 0 <= j < all.len() - 1 implies (#[trigger] all[j]).d_tag != DT_NULL by {
        assert(entries[j].d_tag != DT_NULL);
    }
    if n > 0 {
        assert(all.last() == all[n - 1] && entries.last() == entries[n - 1]);
    }
    assert forall|j: int| 0 <= j < all.len() implies #[trigger] out.subrange(
        j * size,
        (j + 1) * size,
    ) == codec::dyn_bytes(all[j], ctx) by {
        lemma_dyns_bytes_at(all, ctx, j);
        assert(j * size >= 0 && (j + 1) * size == j * size + size) by (nonlinear_arith)
            requires
                j >= 0,
                size >= 0,
        ;
        assert(out.subrange(j * size, (j + 1) * size) =~= part.subrange(j * size, (j + 1) * size));
    }
    lemma_dyns_reread(out, all, ctx, 0);
    assert(all.skip(0) =~= all);
}

/// Entries, of which only the last may be a null entry, are read from their bytes with
/// zeros behind them. A null entry may follow them there.
pub proof fn lemma_dyns_padded(all: Seq<Dyn>, ctx: Ctx, len: int)
    requires
        forall|j: int| 0 <= j < all.len() ==> dyn_fits(#[trigger] all[j], ctx),
        forall|j: int| 0 <= j < all.len() - 1 ==> (#[trigger] all[j]).d_tag != DT_NULL,
        all.len() * ctx.dyn_len() <= len,
    ensures
        ({
            let read = state::dyns_from(
                edits::resized(state::dyns_bytes(all, ctx), len),
                ctx,
                0,
            );
            read == all || read == all.push(Dyn { d_tag: DT_NULL, d_val: 0 })
        }),
{
    let part = state::dyns_bytes(all, ctx);
    let out = edits::resized(part, len);
    let size = ctx.dyn_len();
    let n = all.len() as int;
    let null = Dyn { d_tag: DT_NULL, d_val: 0 };
    lemma_dyns_bytes_len(all, ctx);
    assert((n + 1) * size == n * size + size) by (nonlinear_arith);
    assert forall|j: int| 0 <= j < all.len() implies #[trigger] out.subrange(
        j * size,
        (j + 1) * size,
    ) == codec::dyn_bytes(all[j], ctx) by {
        lemma_dyns_bytes_at(all, ctx, j);
        assert(j * size >= 0 && (j + 1) * size == j * size + size) by (nonlinear_arith)
            requires
                j >= 0,
                size >= 0,
        ;
        assert(out.subrange(j * size, (j + 1) * size) =~= part.subrange(j * size, (j + 1) * size));
    }
    if n > 0 && all.last().d_tag == DT_NULL || (n + 1) * size > len {
        lemma_dyns_reread(out, all, ctx, 0);
        assert(all.skip(0) =~= all);
    } else {
        let more = all.push(null);
        lemma_null_bytes(ctx);
        assert forall|j: int| 0 <= j < more.len() implies #[trigger] out.subrange(
            j * size,
            (j + 1) * size,
        ) == codec::dyn_bytes(more[j], ctx) by {
            if j == n {
                assert(out.subrange(n * size, (n + 1) * size) =~= codec::dyn_bytes(null, ctx));
            }
        }
        assert forall|j: int| 0 <= j < more.len() - 1 implies (#[trigger] more[j]).d_tag
            != DT_NULL by {
            if j == n - 1 {
                assert(all.last() == more[j]);
            }
        }
        lemma_dyns_reread(out, more, ctx, 0);
        assert(more.skip(0) =~= more);
    }
}

/// A null entry takes zeros.
proof fn lemma_null_bytes(ctx: Ctx)
    ensures
        codec::dyn_bytes(Dyn { d_tag: DT_NULL, d_val: 0 }, ctx).len() == ctx.dyn_len(),
        forall|i: int|
            0 <= i < ctx.dyn_len() ==> #[trigger] codec::dyn_bytes(
                Dyn { d_tag: DT_NULL, d_val: 0 },
                ctx,
            )[i] == 0,
{
    let w = ctx.word() as nat;
    reveal(codec::uint_bytes);
    lemma_zero_bytes(w);
    codec::lemma_dyn_bytes_len(Dyn { d_tag: DT_NULL, d_val: 0 }, ctx);
}

proof fn lemma_zero_bytes(w: nat)
    ensures
        codec::le_bytes(0, w).len() == w,
        forall|i: int| 0 <= i < w ==> #[trigger] codec::le_bytes(0, w)[i] == 0,
    decreases w,
{
    if w > 0 {
        lemma_zero_bytes((w - 1) as nat);
    }
}

} // verus!
