//! Where sections come to stand when a file is written, told by their headers and by those
//! of the segments.

use crate::codec;
use crate::file_laws;
use crate::order;
use crate::placement;
use crate::relocation;
use crate::reread;
use crate::sections;
use crate::state::ElfState;
use crate::text;
use crate::types::{Container, ProgramHeader, SectionHeader, SHT_NOBITS, SHT_NOTE, SHT_PROGBITS};
use vstd::prelude::*;
use vstd::utf8::*;

verus! {

/// Whether contents wait and the file is written without an error.
pub open spec fn writes(a: ElfState) -> bool {
    &&& a.replaced.len() > 0
    &&& sections::ordered(a.replaced)
    &&& a.shdrs.len() <= usize::MAX
    &&& a.writing() matches Some(step) && step.error is None
}

/// The state after writing.
pub open spec fn after(a: ElfState) -> ElfState {
    a.writing()->0.state
}

/// The header that the `j`-th section of a file has after writing.
pub open spec fn header_after(a: ElfState, j: int) -> SectionHeader {
    after(a).shdrs[after(a).index_map[j] as int]
}

/// Writing headers changes nothing but bytes.
pub(crate) proof fn lemma_after(a: ElfState) -> (x: placement::Stages)
    requires
        writes(a),
    ensures
        a.relocated() is Some,
        placement::is_staged(a, x),
        after(a) == a.relocated()->0.with_contents(after(a).contents),
        after(a).shdrs == x.u.shdrs,
        after(a).shdrs == x.m.shdrs,
        after(a).phdrs == x.u.phdrs,
        after(a).shstrtab == a.shstrtab,
        after(a).ctx == a.ctx,
        after(a).index_map == a.sorted().index_map,
        x.p.index_map == a.sorted().index_map,
        x.p.shdrs == a.sorted().shdrs,
        x.p.shstrtab == a.shstrtab,
        x.p.shdrs.len() == a.shdrs.len(),
        after(a).shdrs.len() == a.shdrs.len(),
        sections::ordered(x.p.replaced),
        0 < x.align,
        a.contents.len() <= x.offset < a.contents.len() + x.align,
        0 <= x.addr <= x.end_addr <= u64::MAX,
        x.offset <= x.end < x.len <= isize::MAX,
{
    let x = placement::lemma_stages(a);
    let top = relocation::top_address(a.phdrs, a.phdrs.len() as int);
    let page = relocation::page_size(a.header.e_machine);
    let least = relocation::top_align(a.phdrs, page, a.phdrs.len() as int);
    placement::lemma_staged(a, x);
    placement::lemma_can_stage(a, x);
    placement::lemma_prepared_shdrs(a);
    placement::lemma_sorted(a);
    placement::lemma_top(a.phdrs, a.phdrs.len() as int);
    placement::lemma_top_align(a.phdrs, page, a.phdrs.len() as int);
    placement::lemma_placing_align(x.p, least, x.p.replaced.len() as int);
    relocation::lemma_rounded(a.contents.len() as int, x.align);
    x
}

/// The highest address is not below the end of any segment.
proof fn lemma_top_above(phdrs: Seq<ProgramHeader>, n: int, i: int)
    requires
        0 <= i < n <= phdrs.len(),
        phdrs[i].p_vaddr + phdrs[i].p_memsz <= u64::MAX,
    ensures
        phdrs[i].p_vaddr + phdrs[i].p_memsz <= relocation::top_address(phdrs, n),
    decreases n,
{
    if i < n - 1 {
        lemma_top_above(phdrs, n - 1, i);
    }
}

/// The highest address is the end of a segment, where there are any.
pub(crate) proof fn lemma_top_reached(phdrs: Seq<ProgramHeader>, n: int) -> (i: int)
    requires
        0 <= n <= phdrs.len(),
    ensures
        relocation::top_address(phdrs, n) == 0 || 0 <= i < n && relocation::top_address(phdrs, n)
            <= phdrs[i].p_vaddr + phdrs[i].p_memsz,
    decreases n,
{
    if n <= 0 {
        0
    } else {
        let i = lemma_top_reached(phdrs, n - 1);
        let end = phdrs[n - 1].p_vaddr + phdrs[n - 1].p_memsz;
        if relocation::top_address(phdrs, n) == relocation::top_address(phdrs, n - 1) {
            i
        } else {
            n - 1
        }
    }
}

/// Contents are placed from an address on that lies behind all segments.
pub(crate) proof fn lemma_start_above(a: ElfState, x: placement::Stages, i: int)
    requires
        writes(a),
        placement::is_staged(a, x),
        0 < x.align,
        0 <= i < a.phdrs.len(),
        a.phdrs[i].p_vaddr + a.phdrs[i].p_memsz <= u64::MAX,
    ensures
        a.phdrs[i].p_vaddr + a.phdrs[i].p_memsz <= x.addr,
{
    lemma_top_above(a.phdrs, a.phdrs.len() as int, i);
    placement::lemma_top(a.phdrs, a.phdrs.len() as int);
    relocation::lemma_rounded(
        relocation::top_address(a.phdrs, a.phdrs.len() as int),
        x.align,
    );
}

/// The content that is placed for the section at a position, if any.
pub(crate) proof fn lemma_moved(a: ElfState, x: placement::Stages, i: int) -> (k: int)
    requires
        writes(a),
        placement::is_staged(a, x),
        after(a).shdrs == x.m.shdrs,
        sections::ordered(x.p.replaced),
        0 <= i < x.p.shdrs.len(),
        0 <= x.addr,
    ensures
        after(a).shdrs.len() == x.p.shdrs.len(),
        k == -1 ==> after(a).shdrs[i] == x.p.shdrs[i],
        k != -1 ==> {
            let g = after(a).shdrs[i];
            let h = x.p.shdrs[i];
            let align = relocation::alignment(h);
            &&& 0 <= k < x.p.replaced.len()
            &&& x.p.find(x.p.replaced[k].0) == Some(i)
            &&& g == SectionHeader {
                sh_offset: g.sh_offset,
                sh_addr: g.sh_addr,
                sh_size: g.sh_size,
                ..h
            }
            &&& g.sh_size == x.p.replaced[k].1.len()
            &&& x.offset <= g.sh_offset
            &&& x.addr <= g.sh_addr
            &&& g.sh_offset + g.sh_size <= x.end
            &&& g.sh_addr + g.sh_size <= x.end_addr
            &&& g.sh_offset as int % align == 0
            &&& g.sh_addr as int % align == 0
        },
{
    placement::lemma_placed(x.p, x.offset, x.addr, 0);
    if exists|k: int|
        0 <= k < x.p.replaced.len() && x.p.find((#[trigger] x.p.replaced[k]).0) == Some(i) {
        let k = choose|k: int|
            0 <= k < x.p.replaced.len() && x.p.find((#[trigger] x.p.replaced[k]).0) == Some(i);
        placement::lemma_placed_at(x.p, x.offset, x.addr, 0, k);
        k
    } else {
        -1
    }
}

/// When a file is written each section header is moved to one position and keeps what it
/// says of the section but its place. The section stays where it was, or it is moved to an
/// aligned place behind the old end of the file, at an address behind all segments that the
/// file had.
pub proof fn law_sections_stay_or_move_behind_all(a: ElfState, j: int)
    requires
        writes(a),
        0 <= j < a.shdrs.len(),
    ensures
        ({
            let w = after(a);
            let h = a.shdrs[j];
            let g = header_after(a, j);
            &&& w.shdrs.len() == a.shdrs.len()
            &&& w.index_map.len() == a.shdrs.len()
            &&& w.index_map[j] < w.shdrs.len()
            &&& g.sh_name == h.sh_name
            &&& g.sh_type == h.sh_type
            &&& g.sh_flags == h.sh_flags
            &&& g.sh_link == h.sh_link
            &&& g.sh_info == h.sh_info
            &&& g.sh_addralign == h.sh_addralign
            &&& g.sh_entsize == h.sh_entsize
            &&& g != h ==> {
                &&& a.contents.len() <= g.sh_offset
                &&& g.sh_offset + g.sh_size < w.contents.len()
                &&& g.sh_addralign > 1 ==> g.sh_offset % g.sh_addralign == 0 && g.sh_addr
                    % g.sh_addralign == 0
                &&& forall|i: int|
                    0 <= i < a.phdrs.len() && (#[trigger] a.phdrs[i]).p_vaddr + a.phdrs[i].p_memsz
                        <= u64::MAX ==> a.phdrs[i].p_vaddr + a.phdrs[i].p_memsz <= g.sh_addr
            }
        }),
{
    let x = lemma_after(a);
    placement::lemma_sorted(a);
    placement::lemma_relocated(a);
    placement::lemma_staged(a, x);
    placement::lemma_can_stage(a, x);
    let i = a.sorted().index_map[j] as int;
    assert(a.sorted().shdrs[i] == a.shdrs[j]);
    let k = lemma_moved(a, x, i);
    lemma_after_len(a);
    assert forall|q: int|
        0 <= q < a.phdrs.len() && (#[trigger] a.phdrs[q]).p_vaddr + a.phdrs[q].p_memsz
            <= u64::MAX implies a.phdrs[q].p_vaddr + a.phdrs[q].p_memsz <= x.addr by {
        lemma_start_above(a, x, q);
    }
}

/// Writing headers leaves the length of the file.
pub(crate) proof fn lemma_after_len(a: ElfState)
    requires
        writes(a),
    ensures
        after(a).contents.len() == a.relocated()->0.contents.len(),
{
    let t = a.relocated()->0;
    let x = lemma_after(a);
    assert(t.headers_written().error is None);
    reread::lemma_headers_len(t);
}

/// No two sections come to stand at one position.
pub proof fn law_positions_differ(a: ElfState, i: int, j: int)
    requires
        writes(a),
        0 <= i < a.shdrs.len(),
        0 <= j < a.shdrs.len(),
        i != j,
    ensures
        after(a).index_map[i] != after(a).index_map[j],
{
    let x = lemma_after(a);
    placement::lemma_sorted(a);
    let to = a.sorted().index_map;
    assert(a.sorting()[to[i] as int] == i);
    assert(a.sorting()[to[j] as int] == j);
}

/// The section headers come to stand in the order of the old places of the sections, those
/// of one place in their own order.
pub proof fn law_section_headers_are_sorted(a: ElfState, i: int, j: int)
    requires
        writes(a),
        0 <= i < a.shdrs.len(),
        0 <= j < a.shdrs.len(),
        a.shdrs[i].sh_offset < a.shdrs[j].sh_offset || a.shdrs[i].sh_offset
            == a.shdrs[j].sh_offset && i < j,
    ensures
        after(a).index_map[i] < after(a).index_map[j],
{
    let x = lemma_after(a);
    placement::lemma_sorted(a);
    let to = a.sorted().index_map;
    let o = a.sorting();
    let keys = relocation::offsets(a.shdrs);
    assert(o[to[i] as int] == i && o[to[j] as int] == j);
    if to[j] < to[i] {
        assert(order::stands_before(keys, o[to[j] as int], o[to[i] as int]));
    }
}

/// Two sections that are moved have nothing in common, in the file and in memory.
pub proof fn law_moved_sections_are_apart(a: ElfState, i: int, j: int)
    requires
        writes(a),
        0 <= i < a.shdrs.len(),
        0 <= j < a.shdrs.len(),
        i != j,
        header_after(a, i) != a.shdrs[i],
        header_after(a, j) != a.shdrs[j],
    ensures
        ({
            let g = header_after(a, i);
            let h = header_after(a, j);
            &&& reread::apart(
                g.sh_offset as int,
                g.sh_offset + g.sh_size,
                h.sh_offset as int,
                h.sh_offset + h.sh_size,
            )
            &&& reread::apart(
                g.sh_addr as int,
                g.sh_addr + g.sh_size,
                h.sh_addr as int,
                h.sh_addr + h.sh_size,
            )
        }),
{
    let x = lemma_after(a);
    placement::lemma_sorted(a);
    let p = a.sorted().index_map[i] as int;
    let q = a.sorted().index_map[j] as int;
    law_positions_differ(a, i, j);
    let k = lemma_moved(a, x, p);
    let l = lemma_moved(a, x, q);
    assert(k != l);
    placement::lemma_placed_at(x.p, x.offset, x.addr, 0, k);
    placement::lemma_placed_at(x.p, x.offset, x.addr, 0, l);
    assert(x.p.find(x.p.replaced[k].0) is Some && x.p.find(x.p.replaced[l].0) is Some);
}

/// A section whose content waits is placed at an address behind all segments that the file
/// had.
pub proof fn law_waiting_contents_get_fresh_addresses(a: ElfState, name: Seq<char>, i: int)
    requires
        writes(a),
        a.section(name) is Some,
        sections::lookup(a.replaced, name) is Some,
        0 <= i < a.phdrs.len(),
        a.phdrs[i].p_vaddr + a.phdrs[i].p_memsz <= u64::MAX,
    ensures
        after(a).section(name) matches Some(g) && a.phdrs[i].p_vaddr + a.phdrs[i].p_memsz
            <= g.sh_addr && a.contents.len() <= g.sh_offset && g.sh_addr + g.sh_size <= u64::MAX,
{
    let x = lemma_after(a);
    placement::lemma_prepared(a, name);
    placement::lemma_relocated(a);
    placement::lemma_placed(x.p, x.offset, x.addr, 0);
    let k = placement::lemma_lookup_position(x.p.replaced, name);
    placement::lemma_found(x.p.shdrs, x.p.shstrtab, name, 0);
    placement::lemma_placed_at(x.p, x.offset, x.addr, 0, k);
    lemma_start_above(a, x, i);
    assert(a.relocated()->0.find(name) == x.p.find(name));
    assert(after(a).find(name) == a.relocated()->0.find(name));
}

/// The note sections, told by a filter.
pub(crate) proof fn lemma_notes_filtered(shdrs: Seq<SectionHeader>, n: int)
    requires
        0 <= n <= shdrs.len(),
    ensures
        relocation::notes(shdrs, n) == shdrs.take(n).filter(
            |h: SectionHeader| h.sh_type == SHT_NOTE,
        ),
    decreases n,
{
    reveal(Seq::filter);
    if n > 0 {
        lemma_notes_filtered(shdrs, n - 1);
        assert(shdrs.take(n).drop_last() =~= shdrs.take(n - 1));
        assert(shdrs.take(n).last() == shdrs[n - 1]);
    }
}

/// Where the program header table may come to end that follows the file header: there may
/// be one more segment for each note section, and one for what is placed.
pub open spec fn table_limit(a: ElfState) -> int {
    a.ctx.ehdr_len() + (a.phdrs.len() + a.shdrs.filter(
        |h: SectionHeader| h.sh_type == SHT_NOTE,
    ).len() + 1) * a.ctx.phdr_len()
}

/// The limit needs no rounding.
pub(crate) proof fn lemma_table_limit(a: ElfState)
    ensures
        a.table_end() == table_limit(a),
{
    let n = a.shdrs.len() as int;
    lemma_notes_filtered(a.shdrs, n);
    assert(a.shdrs.take(n) =~= a.shdrs);
    let count = (a.phdrs.len() + relocation::notes(a.shdrs, n).len() + 1) as int;
    match a.ctx.container {
        Container::Little => {
            assert(count * a.ctx.phdr_len() == 32 * count);
            assert(relocation::rounded(52 + 32 * count, 4) == 52 + 32 * count);
        },
        Container::Big => {
            assert(count * a.ctx.phdr_len() == 56 * count);
            assert(relocation::rounded(64 + 56 * count, 8) == 64 + 56 * count);
        },
    }
}

/// A section at or before the place where the program header table may come to end gives
/// way, unless it holds code or data: it is found behind the old end of the file, with the
/// content that it had.
pub proof fn law_sections_give_way_to_the_table(a: ElfState, j: int, name: Seq<char>)
    requires
        writes(a),
        a.dynamic_settled(),
        1 <= j < a.shdrs.len(),
        a.name_of(j) == Some(name),
        a.sole(name),
        sections::lookup(a.replaced, name) is None,
        a.shdrs[j].sh_offset <= table_limit(a),
        name == ".interp"@ || a.shdrs[j].sh_type != SHT_PROGBITS && a.shdrs[j].sh_type
            != SHT_NOBITS,
        a.shdrs[j].sh_offset + a.shdrs[j].sh_size <= a.contents.len(),
    ensures
        ({
            let w = after(a);
            let h = a.shdrs[j];
            let g = w.section(name)->0;
            &&& w.section(name) is Some
            &&& g == header_after(a, j)
            &&& a.contents.len() <= g.sh_offset
            &&& g.sh_size == h.sh_size
            &&& forall|i: int|
                0 <= i < a.phdrs.len() && (#[trigger] a.phdrs[i]).p_vaddr + a.phdrs[i].p_memsz
                    <= u64::MAX ==> a.phdrs[i].p_vaddr + a.phdrs[i].p_memsz <= g.sh_addr
            &&& name != ".dynamic"@ && tables_in_old_file(a) ==> w.contents.subrange(
                g.sh_offset as int,
                g.sh_offset + g.sh_size,
            ) == a.contents.subrange(h.sh_offset as int, h.sh_offset + h.sh_size)
        }),
{
    let x = lemma_after(a);
    let w = after(a);
    let t = a.relocated()->0;
    let h = a.shdrs[j];
    lemma_table_limit(a);
    placement::lemma_sorted(a);
    placement::lemma_prepared(a, name);
    placement::lemma_relocated(a);
    placement::lemma_placed(x.p, x.offset, x.addr, 0);
    file_laws::lemma_in_the_way_waits(a, j, name);
    assert(a.section(name) == Some(h)) by {
        assert(a.name_of(j) == Some(name));
    }
    let i = a.sorted().index_map[j] as int;
    assert(x.p.shdrs[i] == h);
    assert(x.p.name_of(i) == Some(name));
    assert(x.p.find(name) == Some(i));
    let k = placement::lemma_lookup_position(x.p.replaced, name);
    placement::lemma_placed_at(x.p, x.offset, x.addr, 0, k);
    assert(t.find(name) == x.p.find(name));
    assert(w.find(name) == t.find(name));
    let g = w.section(name)->0;
    assert(x.p.replaced[k].1 == a.body(h));
    assert(a.body(h).len() == h.sh_size);
    assert forall|q: int|
        0 <= q < a.phdrs.len() && (#[trigger] a.phdrs[q]).p_vaddr + a.phdrs[q].p_memsz
            <= u64::MAX implies a.phdrs[q].p_vaddr + a.phdrs[q].p_memsz <= g.sh_addr by {
        lemma_start_above(a, x, q);
    }
    if name != ".dynamic"@ && tables_in_old_file(a) {
        placement::lemma_dynamic_stage(a, x);
        assert(x.u.section(name) == Some(g));
        placement::lemma_contents_staged(a, x, name);
        lemma_behind_the_tables(a, g.sh_offset as int, g.sh_offset + g.sh_size);
    }
}

/// Whether the headers of the file that is written stand where the file was before.
pub open spec fn tables_in_old_file(a: ElfState) -> bool {
    let w = after(a);
    &&& a.ctx == codec::announced_ctx(a.header.e_ident@)
    &&& w.ctx.ehdr_len() <= a.contents.len()
    &&& w.header.e_phoff + w.phdrs.len() * w.ctx.phdr_len() <= a.contents.len()
    &&& w.header.e_shoff + w.shdrs.len() * w.ctx.shdr_len() <= a.contents.len()
}

/// Bytes behind the old end of the file are not those of headers.
pub(crate) proof fn lemma_behind_the_tables(a: ElfState, from: int, to: int)
    requires
        writes(a),
        tables_in_old_file(a),
        a.contents.len() <= from <= to <= a.relocated()->0.contents.len(),
    ensures
        after(a).contents.subrange(from, to) == a.relocated()->0.contents.subrange(from, to),
{
    let t = a.relocated()->0;
    let x = lemma_after(a);
    placement::lemma_relocated(a);
    reread::lemma_headers_elsewhere(t, from, to);
}

/// A section for which nothing waits and which need not give way stays where it is.
pub proof fn law_other_sections_stay_in_place(a: ElfState, j: int)
    requires
        writes(a),
        0 <= j < a.shdrs.len(),
        a.name_of(j) matches Some(name) ==> a.sole(name) && sections::lookup(
            a.replaced,
            name,
        ) is None && (j == 0 || a.shdrs[j].sh_offset > table_limit(a) || name != ".interp"@ && (
        a.shdrs[j].sh_type == SHT_PROGBITS || a.shdrs[j].sh_type == SHT_NOBITS)),
    ensures
        header_after(a, j) == a.shdrs[j],
{
    let x = lemma_after(a);
    lemma_table_limit(a);
    placement::lemma_sorted(a);
    let i = a.sorted().index_map[j] as int;
    assert(x.p.shdrs[i] == a.shdrs[j]);
    assert(x.p.name_of(i) == a.name_of(j));
    let k = lemma_moved(a, x, i);
    if k != -1 {
        placement::lemma_found(x.p.shdrs, x.p.shstrtab, x.p.replaced[k].0, 0);
        let name = x.p.replaced[k].0;
        assert(a.name_of(j) == Some(name));
        placement::lemma_lookup_present(x.p.replaced, k);
        let limit = a.table_end();
        let list = a.obstacles(limit, a.shdrs.len() as int);
        placement::lemma_obstacles(a, limit, a.shdrs.len() as int);
        lemma_obstacles_behind_first(a, limit, a.shdrs.len() as int);
        assert forall|q: int| 0 <= q < list.len() implies a.name_of((#[trigger] list[q]) as int) is Some
            && a.name_of(list[q] as int) != Some(name) by {
            assert(a.is_in_the_way(list[q] as int, limit));
            if a.name_of(list[q] as int) == Some(name) {
                assert(Some(list[q] as int) == a.find(name));
                assert(Some(j) == a.find(name));
                assert(list[q] != 0);
            }
        }
        placement::lemma_lifted(a, list, 0, name);
        placement::lemma_normalized(a.lifted_from(list, 0)->0);
    }
}

pub(crate) proof fn lemma_obstacles_behind_first(s: ElfState, limit: int, n: int)
    requires
        n <= s.shdrs.len() <= usize::MAX,
    ensures
        forall|q: int|
            0 <= q < s.obstacles(limit, n).len() ==> (#[trigger] s.obstacles(limit, n)[q]) != 0,
    decreases n,
{
    if n > 1 {
        lemma_obstacles_behind_first(s, limit, n - 1);
        let before = s.obstacles(limit, n - 1);
        let all = s.obstacles(limit, n);
        assert forall|q: int| 0 <= q < all.len() implies (#[trigger] all[q]) != 0 by {
            if q < before.len() {
                assert(all[q] == before[q]);
            }
        }
    }
}

/// Bytes behind the old end of the file that belong to no section are zero.
pub proof fn law_gaps_are_zero(a: ElfState, q: int)
    requires
        writes(a),
        a.dynamic_settled(),
        tables_in_old_file(a),
        a.contents.len() <= q < after(a).contents.len(),
        forall|i: int|
            0 <= i < after(a).shdrs.len() ==> !((#[trigger] after(a).shdrs[i]).sh_offset <= q
                < after(a).shdrs[i].sh_offset + after(a).shdrs[i].sh_size),
    ensures
        after(a).contents[q] == 0,
{
    let x = lemma_after(a);
    let t = a.relocated()->0;
    lemma_after_len(a);
    placement::lemma_staged(a, x);
    placement::lemma_can_stage(a, x);
    placement::lemma_dynamic_stage(a, x);
    assert forall|j: int| 0 <= j < x.u.replaced.len() implies (x.u.section(
        (#[trigger] x.u.replaced[j]).0,
    ) matches Some(h) ==> reread::apart(
        h.sh_offset as int,
        h.sh_offset + x.u.replaced[j].1.len(),
        q,
        q + 1,
    )) by {
        let name = x.u.replaced[j].0;
        if x.u.section(name) is Some {
            placement::lemma_lookup_at(x.u.replaced, j);
            placement::lemma_contents_staged(a, x, name);
            placement::lemma_found(x.u.shdrs, x.u.shstrtab, name, 0);
            let i = x.u.find(name)->0;
            assert(after(a).shdrs[i] == x.u.shdrs[i]);
        }
    }
    placement::lemma_filled(x.u, 0, q, q + 1);
    lemma_behind_the_tables(a, q, q + 1);
    assert(after(a).contents.subrange(q, q + 1)[0] == after(a).contents[q]);
    assert(t.contents.subrange(q, q + 1)[0] == t.contents[q]);
    assert(x.f.contents.subrange(q, q + 1)[0] == x.f.contents[q]);
    assert(x.u.contents.subrange(q, q + 1)[0] == x.u.contents[q]);
}

/// A content gets the first aligned place behind the one before it, or from where the
/// places begin.
proof fn lemma_placed_close(g: ElfState, offset: int, addr: int, k: int, j: int)
    requires
        0 <= k <= j < g.replaced.len(),
        0 <= offset,
        0 <= addr,
        sections::ordered(g.replaced),
        g.placed_from(offset, addr, k) is Some,
        g.find(g.replaced[j].0) is Some,
    ensures
        ({
            let (m, end, end_addr) = g.placed_from(offset, addr, k)->0;
            let i = g.find(g.replaced[j].0)->0;
            let align = relocation::alignment(g.shdrs[i]);
            let h = m.shdrs[i];
            h.sh_offset < offset + align && h.sh_addr < addr + align || exists|q: int|
                k <= q < j && g.find((#[trigger] g.replaced[q]).0) is Some && {
                    let f = m.shdrs[g.find(g.replaced[q].0)->0];
                    h.sh_offset < f.sh_offset + f.sh_size + align && h.sh_addr < f.sh_addr
                        + f.sh_size + align
                }
        }),
    decreases g.replaced.len() - k,
{
    let (m, end, end_addr) = g.placed_from(offset, addr, k)->0;
    let size = g.replaced[k].1.len() as int;
    placement::lemma_placed(g, offset, addr, k);
    match g.find(g.replaced[k].0) {
        None => {
            lemma_placed_close(g, offset, addr, k + 1, j);
        },
        Some(i) => {
            placement::lemma_found(g.shdrs, g.shstrtab, g.replaced[k].0, 0);
            let h = g.shdrs[i];
            let at = relocation::rounded(offset, relocation::alignment(h));
            let to = relocation::rounded(addr, relocation::alignment(h));
            relocation::lemma_rounded(offset, relocation::alignment(h));
            relocation::lemma_rounded(addr, relocation::alignment(h));
            let moved = SectionHeader {
                sh_offset: at as u64,
                sh_addr: to as u64,
                sh_size: size as u64,
                ..h
            };
            let next = ElfState { shdrs: g.shdrs.update(i, moved), ..g };
            placement::lemma_placed(next, at + size, to + size, k + 1);
            assert forall|n: Seq<char>| #[trigger] next.find(n) == g.find(n) by {
                placement::lemma_same_names(next.shdrs, g.shdrs, g.shstrtab, n, 0);
            }
            assert forall|q: int| k + 1 <= q < next.replaced.len() implies next.find(
                (#[trigger] next.replaced[q]).0,
            ) != Some(i) by {
                placement::lemma_ordered_distinct(g.replaced, k, q);
                placement::lemma_found(g.shdrs, g.shstrtab, g.replaced[q].0, 0);
            }
            assert(m.shdrs[i] == moved);
            if j > k {
                lemma_placed_close(next, at + size, to + size, k + 1, j);
                placement::lemma_found(g.shdrs, g.shstrtab, g.replaced[j].0, 0);
                let p = g.find(g.replaced[j].0)->0;
                let align = relocation::alignment(g.shdrs[p]);
                assert(next.find(next.replaced[j].0) == Some(p));
                assert(next.shdrs[p] == g.shdrs[p]);
                if m.shdrs[p].sh_offset < at + size + align && m.shdrs[p].sh_addr < to + size
                    + align {
                    assert(g.find(g.replaced[k].0) is Some);
                } else {
                    let q = choose|q: int|
                        k + 1 <= q < j && next.find((#[trigger] next.replaced[q]).0) is Some && {
                            let f = m.shdrs[next.find(next.replaced[q].0)->0];
                            m.shdrs[p].sh_offset < f.sh_offset + f.sh_size + align
                                && m.shdrs[p].sh_addr < f.sh_addr + f.sh_size + align
                        };
                    assert(g.find(g.replaced[q].0) is Some);
                }
            }
        },
    }
}

/// The section at the first place stands where the new places begin.
pub(crate) proof fn lemma_first_place(a: ElfState, x: placement::Stages, j: int)
    requires
        writes(a),
        placement::is_staged(a, x),
        after(a).shdrs == x.m.shdrs,
        sections::ordered(x.p.replaced),
        x.p.shdrs == a.sorted().shdrs,
        x.p.shdrs.len() == a.shdrs.len(),
        after(a).index_map == a.sorted().index_map,
        0 <= x.addr,
        a.contents.len() <= x.offset,
        0 <= j < a.shdrs.len(),
        header_after(a, j) != a.shdrs[j],
        forall|i: int|
            0 <= i < a.shdrs.len() && i != j ==> (#[trigger] header_after(a, i)).sh_offset
                < a.contents.len() || header_after(a, j).sh_offset < header_after(a, i).sh_offset,
    ensures
        header_after(a, j).sh_offset < x.offset + relocation::alignment(a.shdrs[j]),
        header_after(a, j).sh_addr < x.addr + relocation::alignment(a.shdrs[j]),
{
    placement::lemma_sorted(a);
    let to = a.sorted().index_map;
    let p = to[j] as int;
    assert(x.p.shdrs[p] == a.shdrs[j]);
    let k = lemma_moved(a, x, p);
    lemma_placed_close(x.p, x.offset, x.addr, 0, k);
    assert forall|q: int|
        0 <= q < k implies x.p.find((#[trigger] x.p.replaced[q]).0) is None by {
        if x.p.find(x.p.replaced[q].0) is Some {
            placement::lemma_found(x.p.shdrs, x.p.shstrtab, x.p.replaced[q].0, 0);
            placement::lemma_found(x.p.shdrs, x.p.shstrtab, x.p.replaced[k].0, 0);
            placement::lemma_ordered_distinct(x.p.replaced, q, k);
            placement::lemma_placed_at(x.p, x.offset, x.addr, 0, q);
            let r = x.p.find(x.p.replaced[q].0)->0;
            let i = lemma_position_before(a, r);
            assert(header_after(a, i).sh_offset <= header_after(a, j).sh_offset);
        }
    }
}

/// The position that a section had which comes to stand at a position.
proof fn lemma_position_before(a: ElfState, r: int) -> (i: int)
    requires
        0 <= r < a.shdrs.len() <= usize::MAX,
    ensures
        0 <= i < a.shdrs.len(),
        a.sorted().index_map[i] == r,
{
    placement::lemma_sorted(a);
    let to = a.sorted().index_map;
    let o = a.sorting();
    let i = o[r] as int;
    assert(o[to[i] as int] == i);
    if to[i] < r {
        assert(order::stands_before(relocation::offsets(a.shdrs), o[to[i] as int], o[r]));
    } else if r < to[i] {
        assert(order::stands_before(relocation::offsets(a.shdrs), o[r], o[to[i] as int]));
    }
    i
}

/// A section that is moved comes to stand close behind another one that was moved, with less
/// than its alignment between them, in the file and in memory. Only the first one, for which
/// there is no such section, stands at the begin of the new places.
pub proof fn law_moved_sections_stand_close(a: ElfState, j: int) -> (i: int)
    requires
        writes(a),
        0 <= j < a.shdrs.len(),
        header_after(a, j) != a.shdrs[j],
    ensures
        ({
            let g = header_after(a, j);
            let f = header_after(a, i);
            let align = if g.sh_addralign > 1 {
                g.sh_addralign as int
            } else {
                1
            };
            &&& -1 <= i < a.shdrs.len()
            &&& i != j
            &&& i >= 0 ==> {
                &&& a.contents.len() <= f.sh_offset
                &&& f.sh_offset + f.sh_size <= g.sh_offset < f.sh_offset + f.sh_size + align
                &&& f.sh_addr + f.sh_size <= g.sh_addr < f.sh_addr + f.sh_size + align
            }
            &&& i == -1 ==> {
                &&& forall|q: int|
                    0 <= q < a.shdrs.len() && q != j && header_after(a, q)
                        != #[trigger] a.shdrs[q] ==> g.sh_offset + g.sh_size <= header_after(
                        a,
                        q,
                    ).sh_offset && g.sh_addr + g.sh_size <= header_after(a, q).sh_addr
            }
        }),
{
    let x = lemma_after(a);
    placement::lemma_sorted(a);
    let to = a.sorted().index_map;
    let p = to[j] as int;
    assert(x.p.shdrs[p] == a.shdrs[j]);
    let k = lemma_moved(a, x, p);
    lemma_placed_close(x.p, x.offset, x.addr, 0, k);
    placement::lemma_placed_at(x.p, x.offset, x.addr, 0, k);
    let g = header_after(a, j);
    let align = relocation::alignment(a.shdrs[j]);
    if exists|q: int|
        0 <= q < k && x.p.find((#[trigger] x.p.replaced[q]).0) is Some && {
            let f = x.m.shdrs[x.p.find(x.p.replaced[q].0)->0];
            g.sh_offset < f.sh_offset + f.sh_size + align && g.sh_addr < f.sh_addr + f.sh_size
                + align
        } {
        let q = choose|q: int|
            0 <= q < k && x.p.find((#[trigger] x.p.replaced[q]).0) is Some && {
                let f = x.m.shdrs[x.p.find(x.p.replaced[q].0)->0];
                g.sh_offset < f.sh_offset + f.sh_size + align && g.sh_addr < f.sh_addr + f.sh_size
                    + align
            };
        placement::lemma_found(x.p.shdrs, x.p.shstrtab, x.p.replaced[q].0, 0);
        placement::lemma_found(x.p.shdrs, x.p.shstrtab, x.p.replaced[k].0, 0);
        placement::lemma_ordered_distinct(x.p.replaced, q, k);
        placement::lemma_placed_at(x.p, x.offset, x.addr, 0, q);
        let r = x.p.find(x.p.replaced[q].0)->0;
        lemma_position_before(a, r)
    } else {
        assert forall|q: int|
            0 <= q < a.shdrs.len() && q != j && header_after(a, q)
                != #[trigger] a.shdrs[q] implies g.sh_offset + g.sh_size <= header_after(
            a,
            q,
        ).sh_offset && g.sh_addr + g.sh_size <= header_after(a, q).sh_addr by {
            let r = to[q] as int;
            assert(x.p.shdrs[r] == a.shdrs[q]);
            law_positions_differ(a, q, j);
            let l = lemma_moved(a, x, r);
            placement::lemma_placed_at(x.p, x.offset, x.addr, 0, l);
            assert(x.p.find(x.p.replaced[l].0) is Some);
            assert(l != k);
        }
        -1
    }
}

/// Sections that are moved come to stand in the order of their names.
pub proof fn law_moved_sections_stand_by_name(
    a: ElfState,
    i: int,
    j: int,
    name: Seq<char>,
    other: Seq<char>,
)
    requires
        writes(a),
        0 <= i < a.shdrs.len(),
        0 <= j < a.shdrs.len(),
        header_after(a, i) != a.shdrs[i],
        header_after(a, j) != a.shdrs[j],
        a.name_of(i) == Some(name),
        a.name_of(j) == Some(other),
        text::text_before(name, other),
    ensures
        header_after(a, i).sh_offset + header_after(a, i).sh_size <= header_after(a, j).sh_offset,
        header_after(a, i).sh_addr + header_after(a, i).sh_size <= header_after(a, j).sh_addr,
{
    let x = lemma_after(a);
    placement::lemma_sorted(a);
    let p = a.sorted().index_map[i] as int;
    let q = a.sorted().index_map[j] as int;
    assert(x.p.shdrs[p] == a.shdrs[i] && x.p.shdrs[q] == a.shdrs[j]);
    let k = lemma_moved(a, x, p);
    let l = lemma_moved(a, x, q);
    lemma_name_at(x.p, k, p);
    lemma_name_at(x.p, l, q);
    assert(x.p.name_of(p) == a.name_of(i) && x.p.name_of(q) == a.name_of(j));
    lemma_names_tell_positions(x.p.replaced, k, l);
    placement::lemma_placed_at(x.p, x.offset, x.addr, 0, k);
    assert(x.p.find(x.p.replaced[l].0) is Some);
}

/// A section that is found under a name has it.
proof fn lemma_name_at(p: ElfState, k: int, i: int)
    requires
        p.find(p.replaced[k].0) == Some(i),
    ensures
        p.name_of(i) == Some(p.replaced[k].0),
{
    placement::lemma_found(p.shdrs, p.shstrtab, p.replaced[k].0, 0);
}

/// Of two contents in order the one whose name comes before stands before the other.
proof fn lemma_names_tell_positions(m: Seq<(Seq<char>, Seq<u8>)>, k: int, l: int)
    requires
        sections::ordered(m),
        0 <= k < m.len(),
        0 <= l < m.len(),
        text::text_before(m[k].0, m[l].0),
    ensures
        k < l,
{
    text::lemma_before_irreflexive(encode_utf8(m[k].0));
    if l < k {
        assert(text::text_before(m[l].0, m[k].0));
        text::lemma_before_transitive(
            encode_utf8(m[k].0),
            encode_utf8(m[l].0),
            encode_utf8(m[k].0),
        );
    }
}

} // verus!
