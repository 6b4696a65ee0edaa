//! When a file can be written, told by its headers and by the lengths of what waits.

use crate::edits;
use crate::order;
use crate::placement;
use crate::placing_laws;
use crate::relocation;
use crate::sections;
use crate::segment_laws;
use crate::state::ElfState;
use crate::text;
use crate::types::{
    ErrorView, ProgramHeader, SectionHeader, PT_NOTE, PT_PHDR,
};
use vstd::prelude::*;

verus! {

/// Whether all contents are at most so long.
spec fn is_short(m: Seq<(Seq<char>, Seq<u8>)>, longest: int) -> bool {
    forall|k: int| 0 <= k < m.len() ==> (#[trigger] m[k]).1.len() <= longest
}

/// One more content is kept, or takes the place of another.
proof fn lemma_put_short(
    m: Seq<(Seq<char>, Seq<u8>)>,
    name: Seq<char>,
    content: Seq<u8>,
    longest: int,
)
    requires
        is_short(m, longest),
        content.len() <= longest,
    ensures
        is_short(sections::put(m, name, content), longest),
        sections::put(m, name, content).len() <= m.len() + 1,
    decreases m.len(),
{
    let p = sections::put(m, name, content);
    if m.len() > 0 && m[0].0 != name && !text::text_before(name, m[0].0) {
        let rest = m.drop_first();
        assert forall|k: int| 0 <= k < rest.len() implies (#[trigger] rest[k]).1.len() <= longest by {
            assert(rest[k] == m[k + 1]);
        }
        lemma_put_short(rest, name, content, longest);
        let q = sections::put(rest, name, content);
        assert forall|k: int| 0 <= k < p.len() implies (#[trigger] p[k]).1.len() <= longest by {
            if k > 0 {
                assert(p[k] == q[k - 1]);
            } else {
                assert(p[0] == m[0]);
            }
        }
    } else if m.len() > 0 {
        assert forall|k: int| 0 <= k < p.len() implies (#[trigger] p[k]).1.len() <= longest by {
            if k > 0 {
                assert(p[k] == m[k] || p[k] == m[k - 1]);
            }
        }
    }
}

/// Sections of sizes in range can be lifted.
proof fn lemma_can_lift(s: ElfState, list: Seq<usize>, k: int, longest: int)
    requires
        0 <= k,
        0 <= longest <= isize::MAX,
        is_short(s.replaced, longest),
        forall|j: int|
            k <= j < list.len() ==> (#[trigger] list[j]) < s.shdrs.len()
                && s.shdrs[list[j] as int].sh_size <= longest,
    ensures
        s.lifted_from(list, k) is Some,
        is_short(s.lifted_from(list, k)->0.replaced, longest),
        s.lifted_from(list, k)->0.replaced.len() <= s.replaced.len() + (if k < list.len() {
            list.len() - k
        } else {
            0
        }),
    decreases list.len() - k,
{
    if k < list.len() {
        let size = s.shdrs[list[k] as int].sh_size;
        let name = s.name_of(list[k] as int)->0;
        let content = edits::resized(s.current(name, s.section(name)->0), size as int);
        lemma_put_short(s.replaced, name, content, longest);
        lemma_can_lift(s.with_section(name, content), list, k + 1, longest);
    }
}

/// There are not more sections to give way than sections.
proof fn lemma_obstacle_count(s: ElfState, limit: int, n: int)
    requires
        0 <= n,
    ensures
        s.obstacles(limit, n).len() <= n,
    decreases n,
{
    if n > 1 {
        lemma_obstacle_count(s, limit, n - 1);
    }
}

/// A note section inside a segment begins in it.
proof fn lemma_inside(shdrs: Seq<SectionHeader>, p: ProgramHeader, n: int)
    requires
        n <= shdrs.len(),
    ensures
        forall|k: int|
            0 <= k < relocation::notes_inside(shdrs, p, n).len() ==> p.p_offset <= (
            #[trigger] relocation::notes_inside(shdrs, p, n)[k]).sh_offset < p.p_offset
                + p.p_filesz,
        relocation::notes_inside(shdrs, p, n).len() <= if n > 0 {
            n
        } else {
            0
        },
    decreases n,
{
    if n > 0 {
        lemma_inside(shdrs, p, n - 1);
        let before = relocation::notes_inside(shdrs, p, n - 1);
        let all = relocation::notes_inside(shdrs, p, n);
        assert forall|k: int| 0 <= k < all.len() implies p.p_offset <= (
        #[trigger] all[k]).sh_offset < p.p_offset + p.p_filesz by {
            if k < before.len() {
                assert(all[k] == before[k]);
            }
        }
    }
}

/// Segments of ranges that can be addressed can be split.
proof fn lemma_can_split(
    shdrs: Seq<SectionHeader>,
    phdrs: Seq<ProgramHeader>,
    first: Seq<ProgramHeader>,
    others: Seq<ProgramHeader>,
    i: int,
)
    requires
        0 <= i,
        shdrs.len() <= usize::MAX,
        forall|j: int| i <= j < phdrs.len() ==> note_in_range(#[trigger] phdrs[j]),
    ensures
        relocation::split_from(shdrs, phdrs, first, others, i) is Some,
    decreases phdrs.len() - i,
{
    if i < phdrs.len() {
        let p = phdrs[i];
        let n = shdrs.len() as int;
        let listed = relocation::notes_inside(shdrs, p, n);
        let inside = relocation::by_offset(listed);
        assert(note_in_range(p));
        lemma_inside(shdrs, p, n);
        let keys = relocation::offsets(listed);
        order::lemma_order_upto(keys, keys.len() as int);
        let o = order::order(keys);
        if p.p_type == PT_NOTE {
            assert forall|k: int| 0 <= k < inside.len() implies relocation::piece_fits(
                p,
                #[trigger] inside[k],
            ) by {
                assert(o[k] < listed.len());
                assert(inside[k] == listed[o[k] as int]);
            }
        }
        let pieces = relocation::split_segment(shdrs, p)->0;
        lemma_can_split(shdrs, phdrs, first.push(pieces[0]), others + pieces.drop_first(), i + 1);
    }
}

/// Whether the range of a note segment can be addressed, in the file and in memory.
pub open spec fn note_in_range(p: ProgramHeader) -> bool {
    p.p_type == PT_NOTE ==> {
        &&& p.p_offset + p.p_filesz <= u64::MAX
        &&& p.p_vaddr + p.p_filesz <= u64::MAX
        &&& p.p_paddr + p.p_filesz <= u64::MAX
    }
}

/// There is at most one segment for the program header table where there are no two.
proof fn lemma_tables(phdrs: Seq<ProgramHeader>, n: int)
    requires
        0 <= n <= phdrs.len(),
        forall|i: int, j: int|
            0 <= i < j < phdrs.len() ==> (#[trigger] phdrs[i]).p_type != PT_PHDR || (
            #[trigger] phdrs[j]).p_type != PT_PHDR,
    ensures
        relocation::table_segments(phdrs, n) <= 1,
        relocation::table_segments(phdrs, n) > 0 ==> exists|i: int|
            0 <= i < n && (#[trigger] phdrs[i]).p_type == PT_PHDR,
    decreases n,
{
    if n > 0 {
        lemma_tables(phdrs, n - 1);
        assert(phdrs[n - 1].p_type == PT_PHDR || phdrs[n - 1].p_type != PT_PHDR);
    }
}

/// The bytes that short contents can take.
proof fn lemma_reach_bound(p: ElfState, k: int, longest: int, align: int)
    requires
        0 <= k,
        0 <= longest,
        8 <= align,
        is_short(p.replaced, longest),
        forall|i: int| 0 <= i < p.shdrs.len() ==> (#[trigger] p.shdrs[i]).sh_addralign <= align,
    ensures
        p.reach_from(k) <= (if k < p.replaced.len() {
            (p.replaced.len() - k) * (longest + align)
        } else {
            0
        }),
    decreases p.replaced.len() - k,
{
    if k < p.replaced.len() {
        lemma_reach_bound(p, k + 1, longest, align);
        let name = p.replaced[k].0;
        placement::lemma_found(p.shdrs, p.shstrtab, name, 0);
        assert(p.replaced[k].1.len() <= longest);
        let n = p.replaced.len() - k;
        assert((n - 1) * (longest + align) + longest + align == n * (longest + align))
            by (nonlinear_arith);
        if n == 1 {
            assert((n - 1) * (longest + align) == 0) by (nonlinear_arith)
                requires
                    n == 1,
            ;
        }
    }
}

/// A library or an executable with contents that wait can be written, where there is room in
/// range for all of them behind the file and behind its segments: for each content that
/// waits and for each section as many bytes as the longest of them, and what aligns it.
pub proof fn law_files_with_room_can_be_written(a: ElfState, longest: int, align: int)
    requires
        a.replaced.len() > 0,
        sections::ordered(a.replaced),
        a.shdrs.len() <= usize::MAX,
        a.dynamic_settled(),
        a.header.e_type == 2 || a.header.e_type == 3,
        a.header.e_ident@[4] == 1 || a.header.e_ident@[4] == 2,
        a.header.e_ident@[5] == 1 || a.header.e_ident@[5] == 2,
        a.contents.len() >= 64,
        0 <= longest <= isize::MAX,
        forall|k: int| 0 <= k < a.replaced.len() ==> (#[trigger] a.replaced[k]).1.len() <= longest,
        forall|i: int|
            0 <= i < a.shdrs.len() ==> (#[trigger] a.shdrs[i]).sh_size <= longest
                && a.shdrs[i].sh_addralign <= align,
        8 <= align,
        relocation::page_size(a.header.e_machine) <= align,
        forall|i: int|
            0 <= i < a.phdrs.len() ==> (#[trigger] a.phdrs[i]).p_align <= align
                && a.phdrs[i].p_vaddr + a.phdrs[i].p_memsz + align + (a.replaced.len()
                + a.shdrs.len()) * (longest + align) <= u64::MAX && a.phdrs[i].p_offset
                + a.phdrs[i].p_filesz <= u64::MAX && note_in_range(a.phdrs[i]),
        a.contents.len() + align + (a.replaced.len() + a.shdrs.len()) * (longest + align)
            < isize::MAX,
        forall|i: int, j: int|
            0 <= i < j < a.phdrs.len() ==> (#[trigger] a.phdrs[i]).p_type != PT_PHDR || (
            #[trigger] a.phdrs[j]).p_type != PT_PHDR,
    ensures
        a.writing() is Some,
        a.writing()->0.error is None,
{
    let n = a.shdrs.len() as int;
    let limit = a.table_end();
    let list = a.obstacles(limit, n);
    placement::lemma_obstacles(a, limit, n);
    lemma_obstacle_count(a, limit, n);
    lemma_can_lift(a, list, 0, longest);
    let l = a.lifted_from(list, 0)->0;
    assert forall|j: int| 0 <= j < list.len() implies a.name_of((#[trigger] list[j]) as int) is Some
        by {
        assert(a.is_in_the_way(list[j] as int, limit));
    }
    placement::lemma_lifted(a, list, 0, Seq::empty());
    lemma_can_split(a.shdrs, a.phdrs, Seq::empty(), Seq::empty(), 0);
    assert(l.normalized() is Some);
    placement::lemma_normalized(l);
    placement::lemma_sorted(l.normalized()->0);
    let p = a.prepared()->0;
    assert(p.replaced == l.replaced);
    assert forall|i: int| 0 <= i < p.shdrs.len() implies (#[trigger] p.shdrs[i]).sh_addralign
        <= align by {
        assert(p.shdrs[i] == a.shdrs[a.sorting()[i] as int]);
    }
    lemma_reach_bound(p, 0, longest, align);
    let count = p.replaced.len() as int;
    let most = a.replaced.len() + a.shdrs.len();
    assert(count * (longest + align) <= most * (longest + align)) by (nonlinear_arith)
        requires
            count <= most,
            0 <= longest + align,
    ;
    let m = a.phdrs.len() as int;
    let page = relocation::page_size(a.header.e_machine);
    let least = relocation::top_align(a.phdrs, page, m);
    segment_laws::lemma_top_align_reached(a.phdrs, page, m);
    segment_laws::lemma_placing_align_reached(p, least, count);
    assert(0 <= most * (longest + align)) by (nonlinear_arith)
        requires
            0 <= most,
            0 <= longest + align,
    ;
    let i = placing_laws::lemma_top_reached(a.phdrs, m);
    assert(relocation::top_address(a.phdrs, m) + align + most * (longest + align) <= u64::MAX);
    segment_laws::lemma_prepared_segments(a);
    lemma_tables(p.phdrs, p.phdrs.len() as int);
    assert(p.segments_in_range());
    assert(placement::fits_behind(a, p));
    placement::lemma_can_relocate(a);
    placement::lemma_relocated(a);
}

/// Contents are placed in libraries and executables only.
pub proof fn law_other_types_are_not_written(a: ElfState)
    requires
        a.replaced.len() > 0,
        a.header.e_type != 2,
        a.header.e_type != 3,
    ensures
        a.writing() is Some,
        a.writing()->0.state == a,
        a.writing()->0.error == Some(
            ErrorView::Malformed(
                "Unsupported ELF type for rewriting: "@ + text::decimal(a.header.e_type as int),
            ),
        ),
{
}

/// Where nothing waits the file is written as it is.
pub proof fn law_nothing_waits_nothing_changes(a: ElfState)
    requires
        a.replaced.len() == 0,
    ensures
        a.writing() is Some,
        a.writing()->0.state == a,
        a.writing()->0.error is None,
{
}

} // verus!
