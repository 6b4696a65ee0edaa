//! Where the numbers of a file stand in its bytes, and which files can be read.

use crate::codec;
use crate::roundtrip;
use crate::state;
use crate::state::ElfState;
use crate::types::{Ctx, Endian, ErrorView};
use vstd::prelude::*;

verus! {

/// The sizes of the structures of a file, in bytes.
pub proof fn law_sizes_of_structures(ctx: Ctx)
    ensures
        ctx.container is Big ==> ctx.word() == 8 && ctx.ehdr_len() == 64 && ctx.phdr_len() == 56
            && ctx.shdr_len() == 64 && ctx.dyn_len() == 16,
        ctx.container is Little ==> ctx.word() == 4 && ctx.ehdr_len() == 52 && ctx.phdr_len() == 32
            && ctx.shdr_len() == 40 && ctx.dyn_len() == 8,
{
}

/// Two bytes stand for a number, in the one byte order and in the other.
pub proof fn law_numbers_of_two_bytes(low: u8, high: u8)
    ensures
        codec::uint(seq![low, high], Endian::Little) == low + 256 * high,
        codec::uint(seq![high, low], Endian::Big) == low + 256 * high,
{
    let b = seq![low, high];
    assert(seq![high, low].reverse() =~= b);
    assert(b.drop_first() =~= seq![high]);
    assert(b.drop_first().drop_first() =~= Seq::empty());
    reveal_with_fuel(codec::le_uint, 3);
}

/// More bytes count for more, by the number of bytes before them.
pub proof fn law_numbers_of_more_bytes(b: Seq<u8>, c: Seq<u8>)
    ensures
        codec::le_uint(b + c) == codec::le_uint(b) + vstd::arithmetic::power::pow(
            256,
            b.len(),
        ) * codec::le_uint(c),
    decreases b.len(),
{
    vstd::arithmetic::power::lemma_pow0(256);
    if b.len() == 0 {
        assert(b + c =~= c);
    } else {
        let rest = b.drop_first();
        law_numbers_of_more_bytes(rest, c);
        assert((b + c).drop_first() =~= rest + c);
        let p = vstd::arithmetic::power::pow(256, rest.len());
        let n = codec::le_uint(c) as int;
        let m = codec::le_uint(rest) as int;
        assert(vstd::arithmetic::power::pow(256, b.len()) == 256 * p) by {
            reveal(vstd::arithmetic::power::pow);
        }
        assert(256 * (m + p * n) == 256 * m + (256 * p) * n) by (nonlinear_arith);
    }
}

/// The numbers of a program header stand one behind the other.
pub proof fn law_layout_of_program_headers(b: Seq<u8>, at: int, ctx: Ctx)
    requires
        0 <= at,
        ctx.container is Big ==> at + 56 <= b.len(),
        ctx.container is Little ==> at + 32 <= b.len(),
    ensures
        ({
            let p = codec::phdr_at(b, at, ctx);
            &&& ctx.container is Big ==> {
                &&& p.p_type == codec::uint(b.subrange(at + 0, at + 4), ctx.le)
                &&& p.p_flags == codec::uint(b.subrange(at + 4, at + 8), ctx.le)
                &&& p.p_offset == codec::uint(b.subrange(at + 8, at + 16), ctx.le)
                &&& p.p_vaddr == codec::uint(b.subrange(at + 16, at + 24), ctx.le)
                &&& p.p_paddr == codec::uint(b.subrange(at + 24, at + 32), ctx.le)
                &&& p.p_filesz == codec::uint(b.subrange(at + 32, at + 40), ctx.le)
                &&& p.p_memsz == codec::uint(b.subrange(at + 40, at + 48), ctx.le)
                &&& p.p_align == codec::uint(b.subrange(at + 48, at + 56), ctx.le)
            }
            &&& ctx.container is Little ==> {
                &&& p.p_type == codec::uint(b.subrange(at + 0, at + 4), ctx.le)
                &&& p.p_offset == codec::uint(b.subrange(at + 4, at + 8), ctx.le)
                &&& p.p_vaddr == codec::uint(b.subrange(at + 8, at + 12), ctx.le)
                &&& p.p_paddr == codec::uint(b.subrange(at + 12, at + 16), ctx.le)
                &&& p.p_filesz == codec::uint(b.subrange(at + 16, at + 20), ctx.le)
                &&& p.p_memsz == codec::uint(b.subrange(at + 20, at + 24), ctx.le)
                &&& p.p_flags == codec::uint(b.subrange(at + 24, at + 28), ctx.le)
                &&& p.p_align == codec::uint(b.subrange(at + 28, at + 32), ctx.le)
            }
        }),
{
    reveal(codec::field);
    roundtrip::lemma_capacities();
    if ctx.container is Big {
        roundtrip::lemma_field_bound(b, at + 0, 4, ctx.le);
        roundtrip::lemma_field_bound(b, at + 4, 4, ctx.le);
        roundtrip::lemma_field_bound(b, at + 8, 8, ctx.le);
        roundtrip::lemma_field_bound(b, at + 16, 8, ctx.le);
        roundtrip::lemma_field_bound(b, at + 24, 8, ctx.le);
        roundtrip::lemma_field_bound(b, at + 32, 8, ctx.le);
        roundtrip::lemma_field_bound(b, at + 40, 8, ctx.le);
        roundtrip::lemma_field_bound(b, at + 48, 8, ctx.le);
    } else {
        roundtrip::lemma_field_bound(b, at + 0, 4, ctx.le);
        roundtrip::lemma_field_bound(b, at + 4, 4, ctx.le);
        roundtrip::lemma_field_bound(b, at + 8, 4, ctx.le);
        roundtrip::lemma_field_bound(b, at + 12, 4, ctx.le);
        roundtrip::lemma_field_bound(b, at + 16, 4, ctx.le);
        roundtrip::lemma_field_bound(b, at + 20, 4, ctx.le);
        roundtrip::lemma_field_bound(b, at + 24, 4, ctx.le);
        roundtrip::lemma_field_bound(b, at + 28, 4, ctx.le);
    }
}

/// The numbers of a section header stand one behind the other.
pub proof fn law_layout_of_section_headers(b: Seq<u8>, at: int, ctx: Ctx)
    requires
        0 <= at,
        ctx.container is Big ==> at + 64 <= b.len(),
        ctx.container is Little ==> at + 40 <= b.len(),
    ensures
        ({
            let h = codec::shdr_at(b, at, ctx);
            &&& ctx.container is Big ==> {
                &&& h.sh_name == codec::uint(b.subrange(at + 0, at + 4), ctx.le)
                &&& h.sh_type == codec::uint(b.subrange(at + 4, at + 8), ctx.le)
                &&& h.sh_flags == codec::uint(b.subrange(at + 8, at + 16), ctx.le)
                &&& h.sh_addr == codec::uint(b.subrange(at + 16, at + 24), ctx.le)
                &&& h.sh_offset == codec::uint(b.subrange(at + 24, at + 32), ctx.le)
                &&& h.sh_size == codec::uint(b.subrange(at + 32, at + 40), ctx.le)
                &&& h.sh_link == codec::uint(b.subrange(at + 40, at + 44), ctx.le)
                &&& h.sh_info == codec::uint(b.subrange(at + 44, at + 48), ctx.le)
                &&& h.sh_addralign == codec::uint(b.subrange(at + 48, at + 56), ctx.le)
                &&& h.sh_entsize == codec::uint(b.subrange(at + 56, at + 64), ctx.le)
            }
            &&& ctx.container is Little ==> {
                &&& h.sh_name == codec::uint(b.subrange(at + 0, at + 4), ctx.le)
                &&& h.sh_type == codec::uint(b.subrange(at + 4, at + 8), ctx.le)
                &&& h.sh_flags == codec::uint(b.subrange(at + 8, at + 12), ctx.le)
                &&& h.sh_addr == codec::uint(b.subrange(at + 12, at + 16), ctx.le)
                &&& h.sh_offset == codec::uint(b.subrange(at + 16, at + 20), ctx.le)
                &&& h.sh_size == codec::uint(b.subrange(at + 20, at + 24), ctx.le)
                &&& h.sh_link == codec::uint(b.subrange(at + 24, at + 28), ctx.le)
                &&& h.sh_info == codec::uint(b.subrange(at + 28, at + 32), ctx.le)
                &&& h.sh_addralign == codec::uint(b.subrange(at + 32, at + 36), ctx.le)
                &&& h.sh_entsize == codec::uint(b.subrange(at + 36, at + 40), ctx.le)
            }
        }),
{
    reveal(codec::field);
    roundtrip::lemma_capacities();
    if ctx.container is Big {
        roundtrip::lemma_field_bound(b, at + 0, 4, ctx.le);
        roundtrip::lemma_field_bound(b, at + 4, 4, ctx.le);
        roundtrip::lemma_field_bound(b, at + 8, 8, ctx.le);
        roundtrip::lemma_field_bound(b, at + 16, 8, ctx.le);
        roundtrip::lemma_field_bound(b, at + 24, 8, ctx.le);
        roundtrip::lemma_field_bound(b, at + 32, 8, ctx.le);
        roundtrip::lemma_field_bound(b, at + 40, 4, ctx.le);
        roundtrip::lemma_field_bound(b, at + 44, 4, ctx.le);
        roundtrip::lemma_field_bound(b, at + 48, 8, ctx.le);
        roundtrip::lemma_field_bound(b, at + 56, 8, ctx.le);
    } else {
        roundtrip::lemma_field_bound(b, at + 0, 4, ctx.le);
        roundtrip::lemma_field_bound(b, at + 4, 4, ctx.le);
        roundtrip::lemma_field_bound(b, at + 8, 4, ctx.le);
        roundtrip::lemma_field_bound(b, at + 12, 4, ctx.le);
        roundtrip::lemma_field_bound(b, at + 16, 4, ctx.le);
        roundtrip::lemma_field_bound(b, at + 20, 4, ctx.le);
        roundtrip::lemma_field_bound(b, at + 24, 4, ctx.le);
        roundtrip::lemma_field_bound(b, at + 28, 4, ctx.le);
        roundtrip::lemma_field_bound(b, at + 32, 4, ctx.le);
        roundtrip::lemma_field_bound(b, at + 36, 4, ctx.le);
    }
}

/// The tag and the value of a dynamic entry stand one behind the other.
pub proof fn law_layout_of_dynamic_entries(b: Seq<u8>, at: int, ctx: Ctx)
    requires
        0 <= at,
        ctx.container is Big ==> at + 16 <= b.len(),
        ctx.container is Little ==> at + 8 <= b.len(),
    ensures
        ({
            let d = codec::dyn_at(b, at, ctx);
            &&& ctx.container is Big ==> {
                &&& d.d_tag == codec::uint(b.subrange(at + 0, at + 8), ctx.le)
                &&& d.d_val == codec::uint(b.subrange(at + 8, at + 16), ctx.le)
            }
            &&& ctx.container is Little ==> {
                &&& d.d_tag == codec::uint(b.subrange(at + 0, at + 4), ctx.le)
                &&& d.d_val == codec::uint(b.subrange(at + 4, at + 8), ctx.le)
            }
        }),
{
    reveal(codec::field);
    roundtrip::lemma_capacities();
    if ctx.container is Big {
        roundtrip::lemma_field_bound(b, at + 0, 8, ctx.le);
        roundtrip::lemma_field_bound(b, at + 8, 8, ctx.le);
    } else {
        roundtrip::lemma_field_bound(b, at + 0, 4, ctx.le);
        roundtrip::lemma_field_bound(b, at + 4, 4, ctx.le);
    }
}

/// The numbers of the file header of a file that is read stand at the start of the file. The
/// program headers and the section headers stand where it says.
pub proof fn law_layout_of_files(data: Seq<u8>, s: ElfState)
    requires
        state::is_parsed(data, s),
    ensures
        ({
            let h = s.header;
            &&& s.contents == data
            &&& (s.ctx.container is Little) == (data[4] == 1)
            &&& (s.ctx.le is Little) == (data[5] == 1)
            &&& h.e_ident@ == data.subrange(0, 16)
            &&& s.ctx.container is Big ==> {
                &&& h.e_type == codec::uint(data.subrange(16, 18), s.ctx.le)
                &&& h.e_machine == codec::uint(data.subrange(18, 20), s.ctx.le)
                &&& h.e_version == codec::uint(data.subrange(20, 24), s.ctx.le)
                &&& h.e_entry == codec::uint(data.subrange(24, 32), s.ctx.le)
                &&& h.e_phoff == codec::uint(data.subrange(32, 40), s.ctx.le)
                &&& h.e_shoff == codec::uint(data.subrange(40, 48), s.ctx.le)
                &&& h.e_flags == codec::uint(data.subrange(48, 52), s.ctx.le)
                &&& h.e_ehsize == codec::uint(data.subrange(52, 54), s.ctx.le)
                &&& h.e_phentsize == codec::uint(data.subrange(54, 56), s.ctx.le)
                &&& h.e_phnum == codec::uint(data.subrange(56, 58), s.ctx.le)
                &&& h.e_shentsize == codec::uint(data.subrange(58, 60), s.ctx.le)
                &&& h.e_shnum == codec::uint(data.subrange(60, 62), s.ctx.le)
                &&& h.e_shstrndx == codec::uint(data.subrange(62, 64), s.ctx.le)
            }
            &&& s.ctx.container is Little ==> {
                &&& h.e_type == codec::uint(data.subrange(16, 18), s.ctx.le)
                &&& h.e_machine == codec::uint(data.subrange(18, 20), s.ctx.le)
                &&& h.e_version == codec::uint(data.subrange(20, 24), s.ctx.le)
                &&& h.e_entry == codec::uint(data.subrange(24, 28), s.ctx.le)
                &&& h.e_phoff == codec::uint(data.subrange(28, 32), s.ctx.le)
                &&& h.e_shoff == codec::uint(data.subrange(32, 36), s.ctx.le)
                &&& h.e_flags == codec::uint(data.subrange(36, 40), s.ctx.le)
                &&& h.e_ehsize == codec::uint(data.subrange(40, 42), s.ctx.le)
                &&& h.e_phentsize == codec::uint(data.subrange(42, 44), s.ctx.le)
                &&& h.e_phnum == codec::uint(data.subrange(44, 46), s.ctx.le)
                &&& h.e_shentsize == codec::uint(data.subrange(46, 48), s.ctx.le)
                &&& h.e_shnum == codec::uint(data.subrange(48, 50), s.ctx.le)
                &&& h.e_shstrndx == codec::uint(data.subrange(50, 52), s.ctx.le)
            }
            &&& s.phdrs.len() == h.e_phnum
            &&& h.e_phoff <= usize::MAX ==> forall|i: int|
                0 <= i < s.phdrs.len() ==> #[trigger] s.phdrs[i] == codec::phdr_at(
                    data,
                    h.e_phoff + i * s.ctx.phdr_len(),
                    s.ctx,
                )
            &&& 0 < h.e_shoff <= usize::MAX && h.e_shnum > 0 ==> s.shdrs.len() == h.e_shnum
            &&& h.e_shoff == 0 ==> s.shdrs.len() == 0
            &&& h.e_shoff <= usize::MAX ==> forall|i: int|
                0 <= i < s.shdrs.len() ==> #[trigger] s.shdrs[i] == codec::shdr_at(
                    data,
                    h.e_shoff + i * s.ctx.shdr_len(),
                    s.ctx,
                )
            &&& s.replaced.len() == 0
            &&& !s.changed
        }),
{
    reveal(codec::field);
}

/// Whether bytes begin as those of an ELF file do: with its magic number, a class and a
/// byte order.
pub open spec fn begins_as_elf(b: Seq<u8>) -> bool {
    &&& b.len() >= 16
    &&& b[0] == 0x7f
    &&& b[1] == 0x45
    &&& b[2] == 0x4c
    &&& b[3] == 0x46
    &&& b[4] == 1 || b[4] == 2
    &&& b[5] == 1 || b[5] == 2
}

/// A file with a complete file header whose tables lie inside of it can be read. One with
/// another beginning, or with a table that ends behind the end of the file, cannot.
pub proof fn law_files_with_their_tables_can_be_read(b: Seq<u8>)
    requires
        b.len() <= usize::MAX,
        codec::phoff(b) <= usize::MAX,
        codec::shoff(b) <= usize::MAX,
        codec::shnum(b) > 0,
    ensures
        ({
            let ctx = codec::announced_ctx(b);
            state::parse_fault(b) is None <==> {
                &&& begins_as_elf(b)
                &&& ctx.ehdr_len() <= b.len()
                &&& codec::phnum(b) == 0 || codec::phoff(b) + codec::phnum(b) * ctx.phdr_len()
                    <= b.len()
                &&& codec::shoff(b) == 0 || codec::shoff(b) + codec::shnum(b) * ctx.shdr_len()
                    <= b.len()
            }
        }),
{
    let ctx = codec::announced_ctx(b);
    let magic = seq![0x7fu8, 0x45, 0x4c, 0x46];
    if b.len() >= 16 {
        let start = b.subrange(0, 4);
        assert(start[0] == b[0] && start[1] == b[1] && start[2] == b[2] && start[3] == b[3]);
        if begins_as_elf(b) {
            assert(start =~= magic);
        }
        if start == magic {
            assert(magic[0] == 0x7f && magic[1] == 0x45 && magic[2] == 0x4c && magic[3] == 0x46);
        }
    }
    lemma_counts(codec::phnum(b) as int, ctx.phdr_len(), b.len() as int);
    lemma_counts(codec::shnum(b) as int, ctx.shdr_len(), b.len() as int);
    lemma_counts(1, ctx.shdr_len(), codec::shnum(b) * ctx.shdr_len());
    let n = codec::shnum(b) as int;
    let size = ctx.shdr_len();
    assert(size <= n * size) by (nonlinear_arith)
        requires
            1 <= n,
            0 <= size,
    ;
}

/// As many structures fit as the length allows.
proof fn lemma_counts(n: int, size: int, len: int)
    requires
        0 < size,
        0 <= len,
    ensures
        n * size <= len <==> n <= len / size,
{
    vstd::arithmetic::div_mod::lemma_fundamental_div_mod(len, size);
    let q = len / size;
    let r = len % size;
    assert(n * size <= len <==> n <= q) by (nonlinear_arith)
        requires
            len == size * q + r,
            0 <= r < size,
    ;
}

/// What is said of bytes that do not begin as those of an ELF file do.
pub proof fn law_other_files_are_refused(b: Seq<u8>)
    ensures
        b.len() < 16 ==> state::parse_fault(b) == Some(ErrorView::Malformed("Too small"@)),
        b.len() >= 16 && (b[0] != 0x7f || b[1] != 0x45 || b[2] != 0x4c || b[3] != 0x46)
            ==> state::parse_fault(b) == Some(
            ErrorView::BadMagic(codec::uint(b.subrange(0, 8), Endian::Little) as int),
        ),
        state::parse_fault(b) is Some && begins_as_elf(b) && b.len()
            >= codec::announced_ctx(b).ehdr_len() ==> !(state::parse_fault(b)->0 is BadMagic)
            && !(state::parse_fault(b)->0 is Malformed),
{
    let magic = seq![0x7fu8, 0x45, 0x4c, 0x46];
    if b.len() >= 16 {
        let start = b.subrange(0, 4);
        assert(start[0] == b[0] && start[1] == b[1] && start[2] == b[2] && start[3] == b[3]);
        assert(magic[0] == 0x7f && magic[1] == 0x45 && magic[2] == 0x4c && magic[3] == 0x46);
        if begins_as_elf(b) {
            assert(start =~= magic);
        }
    }
    lemma_misfit(codec::phdr_widths(codec::announced_ctx(b)));
    lemma_misfit(codec::shdr_widths(codec::announced_ctx(b)));
}

/// A complaint about integers that do not fit is one about the place.
proof fn lemma_misfit(widths: Seq<int>)
    ensures
        forall|room: int| (#[trigger] codec::misfit(widths, room)) is Scroll,
    decreases widths.len(),
{
    if widths.len() > 1 {
        lemma_misfit(widths.drop_first());
    }
    assert forall|room: int| (#[trigger] codec::misfit(widths, room)) is Scroll by {
        if widths.len() > 1 {
            assert(codec::misfit(widths.drop_first(), room - widths[0]) is Scroll);
        }
    }
}

} // verus!
