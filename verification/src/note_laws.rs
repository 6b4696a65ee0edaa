//! What becomes of note segments when a file is written.

use crate::edits;
use crate::file_laws;
use crate::laws;
use crate::order;
use crate::placement;
use crate::placing_laws;
use crate::placing_laws::{after, table_limit, tables_in_old_file, writes};
use crate::relocation;
use crate::reread;
use crate::sections;
use crate::state::ElfState;
use crate::types::{ProgramHeader, SectionHeader, PT_NOTE, SHT_NOBITS, SHT_NOTE, SHT_PROGBITS};
use vstd::prelude::*;

verus! {

/// The number of note sections that begin inside a segment.
pub open spec fn notes_in(shdrs: Seq<SectionHeader>, p: ProgramHeader) -> nat {
    shdrs.filter(
        |h: SectionHeader|
            h.sh_type == SHT_NOTE && p.p_offset <= h.sh_offset < p.p_offset + p.p_filesz,
    ).len()
}

/// The number of segments where each note section inside one of the first `n` segments that
/// is for notes has a segment of its own.
pub open spec fn split_count(a: ElfState, n: int) -> int
    decreases n,
{
    if n <= 0 {
        0
    } else if a.phdrs[n - 1].p_type == PT_NOTE && notes_in(a.shdrs, a.phdrs[n - 1]) > 1 {
        split_count(a, n - 1) + notes_in(a.shdrs, a.phdrs[n - 1])
    } else {
        split_count(a, n - 1) + 1
    }
}

/// The note sections inside a segment, told by a filter.
proof fn lemma_inside_filtered(shdrs: Seq<SectionHeader>, p: ProgramHeader, n: int)
    requires
        0 <= n <= shdrs.len(),
    ensures
        relocation::notes_inside(shdrs, p, n) == shdrs.take(n).filter(
            |h: SectionHeader|
                h.sh_type == SHT_NOTE && p.p_offset <= h.sh_offset < p.p_offset + p.p_filesz,
        ),
    decreases n,
{
    reveal(Seq::filter);
    if n > 0 {
        lemma_inside_filtered(shdrs, p, n - 1);
        assert(shdrs.take(n).drop_last() =~= shdrs.take(n - 1));
        assert(shdrs.take(n).last() == shdrs[n - 1]);
    }
}

proof fn lemma_notes_in(shdrs: Seq<SectionHeader>, p: ProgramHeader)
    ensures
        relocation::notes_inside(shdrs, p, shdrs.len() as int).len() == notes_in(shdrs, p),
{
    lemma_inside_filtered(shdrs, p, shdrs.len() as int);
    assert(shdrs.take(shdrs.len() as int) =~= shdrs);
}

/// Splitting makes as many segments as are counted.
proof fn lemma_pieces_counted(
    a: ElfState,
    first: Seq<ProgramHeader>,
    others: Seq<ProgramHeader>,
    i: int,
)
    requires
        0 <= i <= a.phdrs.len(),
        relocation::split_from(a.shdrs, a.phdrs, first, others, i) is Some,
    ensures
        relocation::split_from(a.shdrs, a.phdrs, first, others, i)->0.len() == first.len()
            + others.len() + split_count(a, a.phdrs.len() as int) - split_count(a, i),
    decreases a.phdrs.len() - i,
{
    if i < a.phdrs.len() {
        let pieces = relocation::split_segment(a.shdrs, a.phdrs[i])->0;
        lemma_notes_in(a.shdrs, a.phdrs[i]);
        lemma_pieces_counted(a, first.push(pieces[0]), others + pieces.drop_first(), i + 1);
    }
}

/// Splitting takes place where the content of a note section waits to be placed. Loading
/// adds at most one segment.
proof fn lemma_segments_counted(a: ElfState) -> (l: ElfState)
    requires
        writes(a),
    ensures
        a.lifted_from(a.obstacles(a.table_end(), a.shdrs.len() as int), 0) == Some(l),
        l == (ElfState { replaced: l.replaced, ..a }),
        l.replaced == a.prepared()->0.replaced,
        a.prepared() is Some,
        ({
            let count = after(a).phdrs.len();
            let least = if l.moves_note() {
                split_count(a, a.phdrs.len() as int)
            } else {
                a.phdrs.len() as int
            };
            least <= count <= least + 1
        }),
{
    let x = placing_laws::lemma_after(a);
    placement::lemma_staged(a, x);
    placement::lemma_can_stage(a, x);
    let limit = a.table_end();
    let list = a.obstacles(limit, a.shdrs.len() as int);
    placement::lemma_obstacles(a, limit, a.shdrs.len() as int);
    assert forall|j: int| 0 <= j < list.len() implies a.name_of((#[trigger] list[j]) as int) is Some
        by {
        assert(a.is_in_the_way(list[j] as int, limit));
    }
    placement::lemma_lifted(a, list, 0, Seq::empty());
    let l = a.lifted_from(list, 0)->0;
    placement::lemma_normalized(l);
    let none = Seq::<ProgramHeader>::empty();
    if l.moves_note() {
        lemma_pieces_counted(a, none, none, 0);
    }
    let grown = x.m.with_contents(edits::resized(x.m.contents, x.len));
    let k = placement::lemma_covered(
        grown,
        x.offset,
        x.addr,
        x.end - x.offset + 1,
        x.end_addr - x.addr,
    );
    l
}

/// Where the content of a note section waits, or a note section gives way to the program
/// header table, all note sections inside note segments get segments of their own. There is
/// at most one more segment besides.
pub proof fn law_note_sections_get_segments(a: ElfState, j: int, name: Seq<char>)
    requires
        writes(a),
        0 <= j < a.shdrs.len(),
        a.name_of(j) == Some(name),
        a.sole(name),
        a.shdrs[j].sh_type == SHT_NOTE,
        sections::lookup(a.replaced, name) is Some || 1 <= j && a.shdrs[j].sh_offset
            <= table_limit(a),
    ensures
        ({
            let count = split_count(a, a.phdrs.len() as int);
            count <= after(a).phdrs.len() <= count + 1
        }),
{
    let l = lemma_segments_counted(a);
    placing_laws::lemma_table_limit(a);
    placement::lemma_prepared(a, name);
    if sections::lookup(a.replaced, name) is None {
        file_laws::lemma_in_the_way_waits(a, j, name);
    }
    let k = placement::lemma_lookup_position(l.replaced, name);
    assert(l.section(name) == Some(a.shdrs[j])) by {
        assert(a.find(name) == Some(j));
        assert(l.find(name) == a.find(name));
    }
    assert(l.section(l.replaced[k].0) is Some);
    assert(l.moves_note());
}

/// Where no note section is to be placed the segments stay as they are, and at most one is
/// added.
pub proof fn law_note_segments_stay_whole(a: ElfState)
    requires
        writes(a),
        forall|j: int|
            0 <= j < a.shdrs.len() && (#[trigger] a.shdrs[j]).sh_type == SHT_NOTE ==> (a.name_of(
                j,
            ) matches Some(name) ==> a.sole(name) && sections::lookup(a.replaced, name) is None && (
            j == 0 || a.shdrs[j].sh_offset > table_limit(a))),
    ensures
        a.phdrs.len() <= after(a).phdrs.len() <= a.phdrs.len() + 1,
{
    let l = lemma_segments_counted(a);
    placing_laws::lemma_table_limit(a);
    if l.moves_note() {
        let k = choose|k: int|
            0 <= k < l.replaced.len() && (#[trigger] l.section(l.replaced[k].0) matches Some(h)
                && h.sh_type == SHT_NOTE);
        let name = l.replaced[k].0;
        placement::lemma_found(a.shdrs, a.shstrtab, name, 0);
        assert(l.find(name) == a.find(name));
        let j = a.find(name)->0;
        assert(a.shdrs[j].sh_type == SHT_NOTE);
        assert(a.name_of(j) == Some(name));
        placement::lemma_lookup_present(l.replaced, k);
        let limit = a.table_end();
        let list = a.obstacles(limit, a.shdrs.len() as int);
        placement::lemma_obstacles(a, limit, a.shdrs.len() as int);
        placing_laws::lemma_obstacles_behind_first(a, limit, a.shdrs.len() as int);
        assert forall|q: int| 0 <= q < list.len() implies a.name_of((#[trigger] list[q]) as int) is Some
            && a.name_of(list[q] as int) != Some(name) by {
            assert(a.is_in_the_way(list[q] as int, limit));
            if a.name_of(list[q] as int) == Some(name) {
                assert(Some(list[q] as int) == a.find(name));
                assert(list[q] != 0);
            }
        }
        placement::lemma_lifted(a, list, 0, name);
    }
}

/// The number of note segments before one, told by a filter.
proof fn lemma_rank_filtered(phdrs: Seq<ProgramHeader>, n: int)
    requires
        0 <= n <= phdrs.len(),
    ensures
        relocation::note_segments(phdrs, n) == phdrs.take(n).filter(
            |p: ProgramHeader| p.p_type == PT_NOTE,
        ).len(),
    decreases n,
{
    reveal(Seq::filter);
    if n > 0 {
        lemma_rank_filtered(phdrs, n - 1);
        assert(phdrs.take(n).drop_last() =~= phdrs.take(n - 1));
        assert(phdrs.take(n).last() == phdrs[n - 1]);
    }
}

/// In the file that is written the first note segment covers the first note section, the
/// second the second, and so on, with the alignment of the section.
pub proof fn law_note_segments_cover_note_sections(a: ElfState, i: int)
    requires
        writes(a),
        0 <= i < after(a).phdrs.len(),
        after(a).phdrs[i].p_type == PT_NOTE,
    ensures
        ({
            let w = after(a);
            let listed = w.shdrs.filter(|h: SectionHeader| h.sh_type == SHT_NOTE);
            let rank = w.phdrs.take(i).filter(|p: ProgramHeader| p.p_type == PT_NOTE).len() as int;
            let p = w.phdrs[i];
            let h = listed[rank];
            rank < listed.len() ==> p.p_offset == h.sh_offset && p.p_vaddr == h.sh_addr
                && p.p_paddr == h.sh_addr && p.p_filesz == h.sh_size && p.p_memsz == h.sh_size
                && p.p_align == h.sh_addralign
        }),
{
    let x = placing_laws::lemma_after(a);
    let w = after(a);
    laws::law_note_segments_follow_sections(a, i);
    lemma_rank_filtered(w.phdrs, i);
    let n = w.shdrs.len() as int;
    placing_laws::lemma_notes_filtered(w.shdrs, n);
    assert(w.shdrs.take(n) =~= w.shdrs);
}

/// Whether note segments have nothing in common in the file.
pub open spec fn note_segments_apart(a: ElfState) -> bool {
    forall|i: int, j: int|
        0 <= i < j < a.phdrs.len() && (#[trigger] a.phdrs[i]).p_type == PT_NOTE && (
        #[trigger] a.phdrs[j]).p_type == PT_NOTE ==> reread::apart(
            a.phdrs[i].p_offset as int,
            a.phdrs[i].p_offset + a.phdrs[i].p_filesz,
            a.phdrs[j].p_offset as int,
            a.phdrs[j].p_offset + a.phdrs[j].p_filesz,
        )
}

/// The number of the first `m` sections that are notes inside one of the first `n` segments
/// that are for notes, each section counted for each segment.
spec fn inside_sum(a: ElfState, n: int, m: int) -> int
    decreases n,
{
    if n <= 0 {
        0
    } else if a.phdrs[n - 1].p_type == PT_NOTE {
        inside_sum(a, n - 1, m) + relocation::notes_inside(a.shdrs, a.phdrs[n - 1], m).len()
    } else {
        inside_sum(a, n - 1, m)
    }
}

/// One more section is inside at most one segment.
proof fn lemma_inside_step(a: ElfState, n: int, m: int)
    requires
        0 <= n <= a.phdrs.len(),
        0 < m <= a.shdrs.len(),
        note_segments_apart(a),
    ensures
        inside_sum(a, n, m) <= inside_sum(a, n, m - 1) + 1,
        inside_sum(a, n, m) >= inside_sum(a, n, m - 1),
        a.shdrs[m - 1].sh_type != SHT_NOTE ==> inside_sum(a, n, m) == inside_sum(a, n, m - 1),
        inside_sum(a, n, m) != inside_sum(a, n, m - 1) ==> exists|i: int|
            0 <= i < n && (#[trigger] a.phdrs[i]).p_type == PT_NOTE && a.phdrs[i].p_offset
                <= a.shdrs[m - 1].sh_offset < a.phdrs[i].p_offset + a.phdrs[i].p_filesz,
    decreases n,
{
    if n > 0 {
        lemma_inside_step(a, n - 1, m);
        assert(a.phdrs[n - 1].p_type == PT_NOTE || a.phdrs[n - 1].p_type != PT_NOTE);
    }
}

proof fn lemma_inside_sum(a: ElfState, n: int, m: int)
    requires
        0 <= n <= a.phdrs.len(),
        0 <= m <= a.shdrs.len(),
        note_segments_apart(a),
    ensures
        inside_sum(a, n, m) <= relocation::notes(a.shdrs, m).len(),
    decreases m,
{
    if m > 0 {
        lemma_inside_sum(a, n, m - 1);
        lemma_inside_step(a, n, m);
    } else {
        lemma_inside_none(a, n);
    }
}

proof fn lemma_inside_none(a: ElfState, n: int)
    ensures
        inside_sum(a, n, 0) == 0,
    decreases n,
{
    if n > 0 {
        lemma_inside_none(a, n - 1);
    }
}

proof fn lemma_split_bounded(a: ElfState, n: int)
    requires
        0 <= n <= a.phdrs.len(),
    ensures
        split_count(a, n) <= n + inside_sum(a, n, a.shdrs.len() as int),
    decreases n,
{
    if n > 0 {
        lemma_split_bounded(a, n - 1);
        lemma_notes_in(a.shdrs, a.phdrs[n - 1]);
    }
}

/// Where note segments have nothing in common there are not more segments after writing
/// than before, and one more for each note section and one for what is placed.
pub proof fn law_segments_are_bounded(a: ElfState)
    requires
        writes(a),
        note_segments_apart(a),
    ensures
        after(a).phdrs.len() <= a.phdrs.len() + a.shdrs.filter(
            |h: SectionHeader| h.sh_type == SHT_NOTE,
        ).len() + 1,
{
    let n = a.shdrs.len() as int;
    let l = lemma_segments_counted(a);
    lemma_split_bounded(a, a.phdrs.len() as int);
    lemma_inside_sum(a, a.phdrs.len() as int, n);
    placing_laws::lemma_notes_filtered(a.shdrs, n);
    assert(a.shdrs.take(n) =~= a.shdrs);
}

/// The program header table that follows the file header comes to stand on no section that
/// holds neither code nor data.
pub proof fn law_the_table_overwrites_no_section(a: ElfState, j: int, name: Seq<char>)
    requires
        writes(a),
        a.dynamic_settled(),
        tables_in_old_file(a),
        a.header.e_phoff == a.ctx.ehdr_len(),
        note_segments_apart(a),
        1 <= j < a.shdrs.len(),
        a.name_of(j) == Some(name),
        a.sole(name),
        name == ".interp"@ || a.shdrs[j].sh_type != SHT_PROGBITS && a.shdrs[j].sh_type
            != SHT_NOBITS,
        a.shdrs[j].sh_offset + a.shdrs[j].sh_size <= a.contents.len(),
    ensures
        ({
            let w = after(a);
            w.section(name) matches Some(g) && w.header.e_phoff + w.phdrs.len()
                * w.ctx.phdr_len() <= g.sh_offset
        }),
{
    let x = placing_laws::lemma_after(a);
    let w = after(a);
    law_segments_are_bounded(a);
    placement::lemma_relocated(a);
    let size = a.ctx.phdr_len();
    let n = w.phdrs.len() as int;
    let most = a.phdrs.len() + a.shdrs.filter(|h: SectionHeader| h.sh_type == SHT_NOTE).len() + 1;
    assert(n * size <= most * size) by (nonlinear_arith)
        requires
            n <= most,
            size >= 0,
    ;
    if sections::lookup(a.replaced, name) is Some {
        placement::lemma_prepared(a, name);
        placement::lemma_placed(x.p, x.offset, x.addr, 0);
        let k = placement::lemma_lookup_position(x.p.replaced, name);
        placement::lemma_found(x.p.shdrs, x.p.shstrtab, name, 0);
        placement::lemma_placed_at(x.p, x.offset, x.addr, 0, k);
        assert(a.relocated()->0.find(name) == x.p.find(name));
        assert(w.find(name) == a.relocated()->0.find(name));
    } else if a.shdrs[j].sh_offset <= table_limit(a) {
        placing_laws::law_sections_give_way_to_the_table(a, j, name);
    } else {
        placing_laws::law_other_sections_stay_in_place(a, j);
        placement::lemma_sorted(a);
        placement::lemma_prepared(a, name);
        let i = a.sorted().index_map[j] as int;
        assert(x.p.name_of(i) == Some(name));
        assert(x.p.find(name) == Some(i));
        assert(a.relocated()->0.find(name) == x.p.find(name));
        assert(w.find(name) == a.relocated()->0.find(name));
    }
}

/// Where note segments are split, a note section of a segment with several of them gets a
/// segment with the flags of that one, at the addresses that the section had in it.
pub proof fn law_pieces_of_note_segments(l: ElfState, i: int, h: SectionHeader)
    requires
        l.normalized() is Some,
        l.moves_note(),
        l.shdrs.len() <= usize::MAX,
        0 <= i < l.phdrs.len(),
        l.phdrs[i].p_type == PT_NOTE,
        notes_in(l.shdrs, l.phdrs[i]) > 1,
        l.shdrs.contains(h),
        h.sh_type == SHT_NOTE,
        l.phdrs[i].p_offset <= h.sh_offset < l.phdrs[i].p_offset + l.phdrs[i].p_filesz,
    ensures
        exists|k: int|
            0 <= k < l.normalized()->0.phdrs.len() && {
                let p = l.phdrs[i];
                let q = #[trigger] l.normalized()->0.phdrs[k];
                &&& q.p_type == PT_NOTE
                &&& q.p_flags == p.p_flags
                &&& q.p_offset == h.sh_offset
                &&& q.p_vaddr - p.p_vaddr == h.sh_offset - p.p_offset
                &&& q.p_paddr - p.p_paddr == h.sh_offset - p.p_offset
                &&& q.p_filesz == h.sh_size
                &&& q.p_memsz == h.sh_size
                &&& q.p_align == h.sh_addralign
            },
{
    let p = l.phdrs[i];
    let n = l.shdrs.len() as int;
    let inside = relocation::notes_inside(l.shdrs, p, n);
    lemma_notes_in(l.shdrs, p);
    let j = choose|j: int| 0 <= j < l.shdrs.len() && l.shdrs[j] == h;
    let r = lemma_inside_listed(l.shdrs, p, n, j);
    laws::law_note_segments_are_split(l, i, r);
    let q = relocation::note_piece(p, h);
    let k = choose|k: int|
        0 <= k < l.normalized()->0.phdrs.len() && l.normalized()->0.phdrs[k] == q;
    lemma_piece_in_range(l, Seq::empty(), Seq::empty(), 0, i, r);
    assert(l.normalized()->0.phdrs[k] == q);
}

proof fn lemma_inside_listed(
    shdrs: Seq<SectionHeader>,
    p: ProgramHeader,
    n: int,
    j: int,
) -> (r: int)
    requires
        0 <= j < n <= shdrs.len(),
        shdrs[j].sh_type == SHT_NOTE,
        p.p_offset <= shdrs[j].sh_offset < p.p_offset + p.p_filesz,
    ensures
        0 <= r < relocation::notes_inside(shdrs, p, n).len(),
        relocation::notes_inside(shdrs, p, n)[r] == shdrs[j],
    decreases n,
{
    if j == n - 1 {
        relocation::notes_inside(shdrs, p, n - 1).len() as int
    } else {
        lemma_inside_listed(shdrs, p, n - 1, j)
    }
}

/// A note segment that is split has pieces whose addresses are in range.
proof fn lemma_piece_in_range(
    l: ElfState,
    first: Seq<ProgramHeader>,
    others: Seq<ProgramHeader>,
    j: int,
    i: int,
    r: int,
)
    requires
        0 <= j <= i < l.phdrs.len(),
        l.shdrs.len() <= usize::MAX,
        l.phdrs[i].p_type == PT_NOTE,
        relocation::split_from(l.shdrs, l.phdrs, first, others, j) is Some,
        relocation::notes_inside(l.shdrs, l.phdrs[i], l.shdrs.len() as int).len() > 1,
        0 <= r < relocation::notes_inside(l.shdrs, l.phdrs[i], l.shdrs.len() as int).len(),
    ensures
        relocation::piece_fits(
            l.phdrs[i],
            relocation::notes_inside(l.shdrs, l.phdrs[i], l.shdrs.len() as int)[r],
        ),
    decreases i - j,
{
    let pieces = relocation::split_segment(l.shdrs, l.phdrs[j])->0;
    if j < i {
        lemma_piece_in_range(
            l,
            first.push(pieces[0]),
            others + pieces.drop_first(),
            j + 1,
            i,
            r,
        );
    } else {
        let listed = relocation::notes_inside(l.shdrs, l.phdrs[i], l.shdrs.len() as int);
        let inside = relocation::by_offset(listed);
        let keys = relocation::offsets(listed);
        lemma_notes_in_len(l.shdrs, l.phdrs[i], l.shdrs.len() as int);
        order::lemma_order_upto(keys, keys.len() as int);
        let o = order::order(keys);
        assert(o.contains(r as usize));
        let k = choose|k: int| 0 <= k < o.len() && o[k] == r as usize;
        assert(inside[k] == listed[r]);
        assert(relocation::piece_fits(l.phdrs[i], inside[k]));
    }
}

proof fn lemma_notes_in_len(shdrs: Seq<SectionHeader>, p: ProgramHeader, n: int)
    requires
        0 <= n,
    ensures
        relocation::notes_inside(shdrs, p, n).len() <= n,
    decreases n,
{
    if n > 0 {
        lemma_notes_in_len(shdrs, p, n - 1);
    }
}

} // verus!
