//! What becomes of the segments and of the file header when a file is written.

use crate::edits;
use crate::order;
use crate::placement;
use crate::placing_laws;
use crate::placing_laws::{after, header_after, writes};
use crate::relocation;
use crate::sections;
use crate::state::ElfState;
use crate::types::{
    ProgramHeader, SectionHeader, PT_DYNAMIC, PT_INTERP, PT_LOAD, PT_NOTE, PT_PHDR,
};
use vstd::prelude::*;

verus! {

/// Whether a segment is none of those that follow a section or the program header table.
pub open spec fn is_plain(p: ProgramHeader) -> bool {
    p.p_type != PT_INTERP && p.p_type != PT_DYNAMIC && p.p_type != PT_NOTE && p.p_type != PT_PHDR
}

/// Whether a segment is another one that was made longer.
pub open spec fn extends(q: ProgramHeader, p: ProgramHeader) -> bool {
    &&& q.p_type == p.p_type
    &&& q.p_flags == p.p_flags
    &&& q.p_offset == p.p_offset
    &&& q.p_vaddr == p.p_vaddr
    &&& q.p_paddr == p.p_paddr
    &&& q.p_align == p.p_align
    &&& p.p_filesz <= q.p_filesz
    &&& p.p_memsz <= q.p_memsz
}

/// Whether a loaded segment ends less than a page before a place, in the file and in memory,
/// and loads the bytes there to the address there when it is made longer.
pub open spec fn ends_right_before(p: ProgramHeader, offset: int, addr: int, page: int) -> bool {
    &&& p.p_type == PT_LOAD
    &&& p.p_offset + p.p_filesz <= offset < p.p_offset + p.p_filesz + page
    &&& p.p_vaddr + p.p_memsz <= addr < p.p_vaddr + p.p_memsz + page
    &&& addr - p.p_vaddr == offset - p.p_offset
}

/// The pages of machines are of 4096 bytes, but for some machines.
pub proof fn law_page_sizes(machine: u16)
    ensures
        relocation::page_size(machine) == 65536 <==> (machine == 41 || machine == 50 || machine
            == 8 || machine == 20 || machine == 21 || machine == 183 || machine == 258),
        relocation::page_size(machine) == 8192 <==> (machine == 2 || machine == 43),
        relocation::page_size(machine) == 65536 || relocation::page_size(machine) == 8192
            || relocation::page_size(machine) == 4096,
{
}

/// Whether segments are others at whose end note segments may have been put and of which
/// note segments may have been changed.
pub(crate) open spec fn is_split(old: Seq<ProgramHeader>, new: Seq<ProgramHeader>) -> bool {
    &&& old.len() <= new.len()
    &&& forall|i: int|
        0 <= i < old.len() ==> (#[trigger] new[i]).p_type == old[i].p_type && new[i].p_flags
            == old[i].p_flags && (old[i].p_type != PT_NOTE ==> new[i] == old[i])
    &&& forall|i: int| old.len() <= i < new.len() ==> (#[trigger] new[i]).p_type == PT_NOTE
}

proof fn lemma_split_positions(
    shdrs: Seq<SectionHeader>,
    phdrs: Seq<ProgramHeader>,
    first: Seq<ProgramHeader>,
    others: Seq<ProgramHeader>,
    i: int,
)
    requires
        0 <= i <= phdrs.len(),
        first.len() == i,
        relocation::split_from(shdrs, phdrs, first, others, i) is Some,
        forall|j: int|
            0 <= j < i ==> (#[trigger] first[j]).p_type == phdrs[j].p_type && first[j].p_flags
                == phdrs[j].p_flags && (phdrs[j].p_type != PT_NOTE ==> first[j] == phdrs[j]),
        forall|j: int| 0 <= j < others.len() ==> (#[trigger] others[j]).p_type == PT_NOTE,
    ensures
        is_split(phdrs, relocation::split_from(shdrs, phdrs, first, others, i)->0),
    decreases phdrs.len() - i,
{
    if i < phdrs.len() {
        let pieces = relocation::split_segment(shdrs, phdrs[i])->0;
        let next = first.push(pieces[0]);
        let rest = others + pieces.drop_first();
        assert forall|j: int| 0 <= j < i + 1 implies (#[trigger] next[j]).p_type
            == phdrs[j].p_type && next[j].p_flags == phdrs[j].p_flags && (phdrs[j].p_type != PT_NOTE
            ==> next[j] == phdrs[j]) by {
            if j < i {
                assert(next[j] == first[j]);
            }
        }
        assert forall|j: int| 0 <= j < rest.len() implies (#[trigger] rest[j]).p_type
            == PT_NOTE by {
            if j < others.len() {
                assert(rest[j] == others[j]);
            } else {
                assert(rest[j] == pieces[j - others.len() + 1]);
            }
        }
        lemma_split_positions(shdrs, phdrs, next, rest, i + 1);
    }
}

/// Preparation changes and adds none but note segments, and none at all where no note
/// section is to be placed.
pub(crate) proof fn lemma_prepared_segments(a: ElfState)
    requires
        a.prepared() is Some,
        a.shdrs.len() <= usize::MAX,
    ensures
        is_split(a.phdrs, a.prepared()->0.phdrs),
{
    let limit = a.table_end();
    let list = a.obstacles(limit, a.shdrs.len() as int);
    placement::lemma_obstacles(a, limit, a.shdrs.len() as int);
    assert forall|j: int| 0 <= j < list.len() implies a.name_of((#[trigger] list[j]) as int) is Some
        by {
        assert(a.is_in_the_way(list[j] as int, limit));
    }
    placement::lemma_lifted(a, list, 0, Seq::empty());
    let l = a.lifted_from(list, 0)->0;
    if l.moves_note() {
        lemma_split_positions(l.shdrs, l.phdrs, Seq::empty(), Seq::empty(), 0);
    }
}

/// Where a segment stands after sorting, and what it is brought in line to.
spec fn keys(l: ElfState) -> Seq<u128> {
    Seq::new(l.phdrs.len(), |i: int| relocation::segment_key(l.phdrs[i]))
}

/// The segments after writing are those before sorting, in another order, and those that
/// are plain stay.
proof fn lemma_sorted_segments(a: ElfState, x: placement::Stages)
    requires
        writes(a),
        placement::is_staged(a, x),
        after(a).phdrs == x.u.phdrs,
        x.l.phdrs.len() <= usize::MAX,
    ensures
        ({
            let o = order::order(keys(x.l));
            let new = after(a).phdrs;
            &&& order::is_order(keys(x.l), o, x.l.phdrs.len() as int)
            &&& new.len() == x.l.phdrs.len()
            &&& forall|i: int|
                0 <= i < new.len() ==> (#[trigger] new[i]).p_type == x.l.phdrs[o[i] as int].p_type
                    && new[i].p_flags == x.l.phdrs[o[i] as int].p_flags && (is_plain(new[i])
                    ==> new[i] == x.l.phdrs[o[i] as int])
            &&& forall|i: int|
                0 <= i < new.len() && (#[trigger] new[i]).p_type != PT_NOTE ==> new[i].p_align
                    == x.l.phdrs[o[i] as int].p_align
        }),
{
    let l = x.l;
    let o = order::order(keys(l));
    order::lemma_order_upto(keys(l), keys(l).len() as int);
    let arranged = ElfState { phdrs: relocation::by_key(l.phdrs), ..l };
    assert(after(a).phdrs == arranged.synced().phdrs);
    assert forall|i: int| 0 <= i < after(a).phdrs.len() implies (
    #[trigger] after(a).phdrs[i]).p_type == l.phdrs[o[i] as int].p_type
        && after(a).phdrs[i].p_flags == l.phdrs[o[i] as int].p_flags && (is_plain(
        after(a).phdrs[i],
    ) ==> after(a).phdrs[i] == l.phdrs[o[i] as int]) && (after(a).phdrs[i].p_type != PT_NOTE
        ==> after(a).phdrs[i].p_align == l.phdrs[o[i] as int].p_align) by {
        assert(arranged.phdrs[i] == l.phdrs[o[i] as int]);
        assert(after(a).phdrs[i] == arranged.synced_segment(i));
    }
}

/// Bringing segments in line with the sections leaves them what they are.
proof fn lemma_kept_segments(a: ElfState, x: placement::Stages)
    requires
        writes(a),
        placement::is_staged(a, x),
        after(a).phdrs == x.u.phdrs,
        after(a).shdrs == x.m.shdrs,
        after(a).shstrtab == a.shstrtab,
        after(a).ctx == a.ctx,
        x.p.shstrtab == a.shstrtab,
        x.l.phdrs.len() <= usize::MAX,
        is_split(a.phdrs, x.p.phdrs),
        x.p.phdrs.len() <= x.l.phdrs.len(),
        forall|i: int|
            0 <= i < x.p.phdrs.len() ==> #[trigger] x.l.phdrs[i] == x.p.phdrs[i] || (
            x.p.phdrs[i].p_type == PT_LOAD && extends(x.l.phdrs[i], x.p.phdrs[i])),
    ensures
        forall|k: int|
            0 <= k < after(a).phdrs.len() && order::order(keys(x.l))[k] < a.phdrs.len()
                ==> is_kept(
                a,
                a.phdrs[order::order(keys(x.l))[k] as int],
                #[trigger] after(a).phdrs[k],
            ),
{
    let w = after(a);
    let l = x.l;
    let o = order::order(keys(l));
    order::lemma_order_upto(keys(l), keys(l).len() as int);
    placement::lemma_prepared(a, Seq::empty());
    placement::lemma_placed(x.p, x.offset, x.addr, 0);
    let arranged = ElfState { phdrs: relocation::by_key(l.phdrs), ..l };
    assert(w.phdrs == arranged.synced().phdrs);
    assert(arranged.section(".interp"@) == w.section(".interp"@));
    assert(arranged.section(".dynamic"@) == w.section(".dynamic"@));
    assert(l.header.e_phoff == a.header.e_phoff);
    assert forall|k: int|
        0 <= k < w.phdrs.len() && o[k] < a.phdrs.len() implies is_kept(
        a,
        a.phdrs[o[k] as int],
        #[trigger] w.phdrs[k],
    ) by {
        let i = o[k] as int;
        assert(arranged.phdrs[k] == l.phdrs[i]);
        assert(w.phdrs[k] == arranged.synced_segment(k));
        assert(x.p.phdrs[i].p_type == a.phdrs[i].p_type);
        assert(l.phdrs[i] == x.p.phdrs[i] || extends(l.phdrs[i], x.p.phdrs[i]));
        assert(0 <= w.phdrs.len() * a.ctx.phdr_len()) by (nonlinear_arith)
            requires
                0 <= a.ctx.phdr_len(),
        ;
    }
}

/// What loading makes of the segments: one is made longer, or one is put behind them.
proof fn lemma_loaded_segments(a: ElfState, x: placement::Stages)
    requires
        writes(a),
        placement::is_staged(a, x),
        0 <= x.addr <= x.end_addr <= u64::MAX,
        a.contents.len() <= x.offset <= x.end < isize::MAX,
    ensures
        is_split(a.phdrs, x.p.phdrs),
        x.p.phdrs.len() <= x.l.phdrs.len() <= x.p.phdrs.len() + 1,
        forall|i: int|
            0 <= i < x.p.phdrs.len() ==> #[trigger] x.l.phdrs[i] == x.p.phdrs[i] || (
            x.p.phdrs[i].p_type == PT_LOAD && extends(x.l.phdrs[i], x.p.phdrs[i])
                && x.l.phdrs[i].p_offset + x.l.phdrs[i].p_filesz == x.end + 1
                && x.l.phdrs[i].p_vaddr + x.l.phdrs[i].p_memsz == x.end_addr
                && x.p.phdrs[i].p_vaddr + x.p.phdrs[i].p_memsz <= x.addr < x.p.phdrs[i].p_vaddr
                + x.p.phdrs[i].p_memsz + relocation::page_size(a.header.e_machine)
                && x.l.phdrs.len() == x.p.phdrs.len()),
        x.l.phdrs.len() == x.p.phdrs.len() + 1 ==> {
            let p = x.l.phdrs[x.p.phdrs.len() as int];
            &&& p.p_type == PT_LOAD
            &&& p.p_flags == 6
            &&& p.p_offset == x.offset
            &&& p.p_vaddr == x.addr
            &&& p.p_paddr == x.addr
            &&& p.p_filesz == x.end + 1 - x.offset
            &&& p.p_memsz == x.end_addr - x.addr
            &&& p.p_align == relocation::page_size(a.header.e_machine)
            &&& forall|i: int|
                0 <= i < x.p.phdrs.len() ==> #[trigger] x.l.phdrs[i] == x.p.phdrs[i]
        },
{
    lemma_prepared_segments(a);
    placement::lemma_prepared(a, Seq::empty());
    placement::lemma_placed(x.p, x.offset, x.addr, 0);
    let m = x.m;
    let page = relocation::page_size(m.header.e_machine);
    lemma_extended_segment(m.phdrs, x.offset, x.addr, page, 0);
}

proof fn lemma_extended_segment(
    phdrs: Seq<ProgramHeader>,
    offset: int,
    addr: int,
    page: int,
    i: int,
)
    requires
        0 <= i,
    ensures
        relocation::extendable_from(phdrs, offset, addr, page, i) matches Some(Some(k)) ==> {
            &&& i <= k < phdrs.len()
            &&& phdrs[k].p_type == PT_LOAD
            &&& phdrs[k].p_vaddr + phdrs[k].p_memsz <= addr < phdrs[k].p_vaddr + phdrs[k].p_memsz
                + page
            &&& addr - phdrs[k].p_vaddr == offset - phdrs[k].p_offset
            &&& phdrs[k].p_offset + phdrs[k].p_filesz <= offset < phdrs[k].p_offset
                + phdrs[k].p_filesz + page
        },
        relocation::extendable_from(phdrs, offset, addr, page, i) == Some(None::<int>)
            ==> forall|k: int|
            i <= k < phdrs.len() ==> !ends_right_before(
                #[trigger] phdrs[k],
                offset,
                addr,
                page,
            ),
    decreases phdrs.len() - i,
{
    if i < phdrs.len() {
        lemma_extended_segment(phdrs, offset, addr, page, i + 1);
    }
}

/// What becomes of a segment of the file when it is written, but for its order. One for the
/// interpreter and one for the dynamic section cover these, one for the program header table
/// covers that. A loaded one may be made longer, so far that it loads the new bytes. Others
/// stay.
pub open spec fn is_kept(a: ElfState, p: ProgramHeader, q: ProgramHeader) -> bool {
    let w = after(a);
    &&& q.p_type == p.p_type
    &&& q.p_flags == p.p_flags
    &&& p.p_type != PT_NOTE ==> q.p_align == p.p_align
    &&& p.p_type == PT_INTERP ==> (match w.section(".interp"@) {
        Some(h) => q.p_offset == h.sh_offset && q.p_vaddr == h.sh_addr && q.p_paddr == h.sh_addr
            && q.p_filesz == h.sh_size && q.p_memsz == h.sh_size,
        None => q == p,
    })
    &&& p.p_type == PT_DYNAMIC ==> (match w.section(".dynamic"@) {
        Some(h) => q.p_offset == h.sh_offset && q.p_vaddr == h.sh_addr && q.p_paddr == h.sh_addr
            && q.p_filesz == h.sh_size && q.p_memsz == h.sh_size,
        None => q == p,
    })
    &&& p.p_type == PT_PHDR ==> q.p_vaddr == p.p_vaddr && q.p_paddr == p.p_paddr && q.p_offset
        == a.header.e_phoff && q.p_filesz == q.p_memsz && (w.phdrs.len() * a.ctx.phdr_len()
        <= u64::MAX ==> q.p_filesz == w.phdrs.len() * a.ctx.phdr_len())
    &&& p.p_type == PT_LOAD ==> extends(q, p)
    &&& is_plain(p) && p.p_type != PT_LOAD ==> q == p
}

/// Every segment of a file comes to stand at a position of its own when the file is written,
/// and those that are added are note segments but for at most one. The segment for the
/// program header table comes first. The others that follow no section are sorted by their
/// physical addresses, those of one address in their own order.
#[verifier::rlimit(30)]
pub proof fn law_segments_are_kept(a: ElfState) -> (to: Seq<int>)
    requires
        writes(a),
        after(a).phdrs.len() <= usize::MAX,
    ensures
        to.len() == a.phdrs.len(),
        forall|i: int|
            0 <= i < to.len() ==> 0 <= #[trigger] to[i] < after(a).phdrs.len() && is_kept(
                a,
                a.phdrs[i],
                after(a).phdrs[to[i]],
            ),
        forall|i: int, j: int| 0 <= i < j < to.len() ==> #[trigger] to[i] != #[trigger] to[j],
        forall|k: int|
            0 <= k < after(a).phdrs.len() && !to.contains(k) ==> (
            #[trigger] after(a).phdrs[k]).p_type == PT_NOTE || after(a).phdrs[k].p_type == PT_LOAD,
        forall|k: int, l: int|
            0 <= k < l < after(a).phdrs.len() && !to.contains(k) && !to.contains(l) ==> (
            #[trigger] after(a).phdrs[k]).p_type == PT_NOTE || (
            #[trigger] after(a).phdrs[l]).p_type == PT_NOTE,
        forall|k: int, l: int|
            0 <= k < l < after(a).phdrs.len() && is_plain(#[trigger] after(a).phdrs[k]) && is_plain(
                #[trigger] after(a).phdrs[l],
            ) ==> after(a).phdrs[k].p_paddr <= after(a).phdrs[l].p_paddr,
        forall|l: int|
            0 < l < after(a).phdrs.len() ==> (#[trigger] after(a).phdrs[l]).p_type != PT_PHDR,
        forall|i: int, j: int|
            0 <= i < j < to.len() && is_plain(a.phdrs[i]) && is_plain(a.phdrs[j])
                && a.phdrs[i].p_paddr <= a.phdrs[j].p_paddr ==> #[trigger] to[i] < #[trigger] to[j],
{
    let x = placing_laws::lemma_after(a);
    placement::lemma_can_stage(a, x);
    lemma_loaded_segments(a, x);
    lemma_sorted_segments(a, x);
    lemma_kept_segments(a, x);
    let w = after(a);
    let o = order::order(keys(x.l));
    let to = Seq::new(a.phdrs.len(), |i: int| choose|k: int| 0 <= k < o.len() && o[k] == i);
    assert forall|i: int| 0 <= i < to.len() implies 0 <= #[trigger] to[i] < w.phdrs.len()
        && o[to[i]] == i by {
        assert(o.contains(i as usize));
        assert(exists|k: int| 0 <= k < o.len() && o[k] == i);
    }
    assert forall|i: int| 0 <= i < to.len() implies is_kept(
        a,
        a.phdrs[i],
        w.phdrs[#[trigger] to[i]],
    ) by {
        assert(o[to[i]] == i);
    }
    assert forall|k: int|
        0 <= k < w.phdrs.len() && !to.contains(k) implies (#[trigger] w.phdrs[k]).p_type == PT_NOTE
        || (w.phdrs[k].p_type == PT_LOAD && o[k] == x.p.phdrs.len()) by {
        let i = o[k] as int;
        if i < a.phdrs.len() {
            assert(o[to[i]] == i);
            if to[i] < k {
                assert(order::stands_before(keys(x.l), o[to[i]], o[k]));
            } else if k < to[i] {
                assert(order::stands_before(keys(x.l), o[k], o[to[i]]));
            }
            assert(to.contains(k));
        } else if i < x.p.phdrs.len() {
            assert(x.l.phdrs[i] == x.p.phdrs[i]);
        }
    }
    lemma_segments_sorted(a, x);
    assert forall|k: int, l: int| 0 <= k < l < w.phdrs.len() implies #[trigger] o[k]
        != #[trigger] o[l] by {
        assert(order::stands_before(keys(x.l), o[k], o[l]));
    }
    assert forall|i: int, j: int|
        0 <= i < j < to.len() && is_plain(a.phdrs[i]) && is_plain(a.phdrs[j]) && a.phdrs[i].p_paddr
            <= a.phdrs[j].p_paddr implies #[trigger] to[i] < #[trigger] to[j] by {
        assert(o[to[i]] == i && o[to[j]] == j);
        if to[j] < to[i] {
            assert(order::stands_before(keys(x.l), o[to[j]], o[to[i]]));
            assert(x.l.phdrs[i].p_paddr == a.phdrs[i].p_paddr);
            assert(x.l.phdrs[j].p_paddr == a.phdrs[j].p_paddr);
        }
    }
    assert forall|i: int, j: int| 0 <= i < j < to.len() implies #[trigger] to[i]
        != #[trigger] to[j] by {
        assert(o[to[i]] == i && o[to[j]] == j);
    }
    to
}

/// The segments after writing are sorted.
proof fn lemma_segments_sorted(a: ElfState, x: placement::Stages)
    requires
        writes(a),
        placement::is_staged(a, x),
        after(a).phdrs == x.u.phdrs,
        x.l.phdrs.len() <= usize::MAX,
    ensures
        forall|k: int, l: int|
            0 <= k < l < after(a).phdrs.len() && is_plain(#[trigger] after(a).phdrs[k]) && is_plain(
                #[trigger] after(a).phdrs[l],
            ) ==> after(a).phdrs[k].p_paddr <= after(a).phdrs[l].p_paddr,
        forall|l: int|
            0 < l < after(a).phdrs.len() ==> (#[trigger] after(a).phdrs[l]).p_type != PT_PHDR,
{
    lemma_sorted_segments(a, x);
    let w = after(a);
    let o = order::order(keys(x.l));
    assert forall|k: int, l: int|
        0 <= k < l < w.phdrs.len() && is_plain(#[trigger] w.phdrs[k]) && is_plain(
            #[trigger] w.phdrs[l],
        ) implies w.phdrs[k].p_paddr <= w.phdrs[l].p_paddr by {
        assert(order::stands_before(keys(x.l), o[k], o[l]));
    }
    assert forall|l: int| 0 < l < w.phdrs.len() implies (#[trigger] w.phdrs[l]).p_type
        != PT_PHDR by {
        assert(order::stands_before(keys(x.l), o[0], o[l]));
        lemma_one_table(x.l.phdrs, x.l.phdrs.len() as int, o[0] as int, o[l] as int);
    }
}

/// There are no two segments for the program header table where there is at most one.
proof fn lemma_one_table(phdrs: Seq<ProgramHeader>, n: int, i: int, j: int)
    requires
        0 <= n <= phdrs.len(),
        relocation::table_segments(phdrs, n) <= 1,
        0 <= i < n,
        0 <= j < n,
        i != j,
    ensures
        phdrs[i].p_type != PT_PHDR || phdrs[j].p_type != PT_PHDR,
        relocation::table_segments(phdrs, n) >= 0,
    decreases n,
{
    if i < n - 1 && j < n - 1 {
        lemma_one_table(phdrs, n - 1, i, j);
    } else {
        lemma_table_counted(phdrs, n - 1, if i == n - 1 { j } else { i });
    }
}

proof fn lemma_table_counted(phdrs: Seq<ProgramHeader>, n: int, i: int)
    requires
        0 <= i < n <= phdrs.len(),
    ensures
        relocation::table_segments(phdrs, n) >= 0,
        phdrs[i].p_type == PT_PHDR ==> relocation::table_segments(phdrs, n) >= 1,
    decreases n,
{
    reveal_with_fuel(relocation::table_segments, 2);
    if n > 1 {
        lemma_table_counted(phdrs, n - 1, if i < n - 1 { i } else { 0 });
    }
}

/// The greatest alignment is that of a segment, or the least one that was asked for.
pub(crate) proof fn lemma_top_align_reached(phdrs: Seq<ProgramHeader>, least: int, n: int)
    requires
        0 <= n <= phdrs.len(),
    ensures
        forall|i: int|
            0 <= i < n ==> (#[trigger] phdrs[i]).p_align <= relocation::top_align(phdrs, least, n),
        relocation::top_align(phdrs, least, n) == least || exists|i: int|
            0 <= i < n && (#[trigger] phdrs[i]).p_align == relocation::top_align(phdrs, least, n),
        relocation::top_align(phdrs, least, n) >= least,
    decreases n,
{
    if n > 0 {
        lemma_top_align_reached(phdrs, least, n - 1);
        assert(phdrs[n - 1].p_align <= relocation::top_align(phdrs, least, n));
    }
}

/// The greatest alignment of what is placed is that of a section, or the least one that was
/// asked for.
pub(crate) proof fn lemma_placing_align_reached(p: ElfState, least: int, n: int)
    requires
        0 <= n <= p.replaced.len(),
        1 <= least,
    ensures
        forall|k: int|
            0 <= k < n ==> (p.section((#[trigger] p.replaced[k]).0) matches Some(h)
                ==> h.sh_addralign <= p.placing_align(least, n)),
        p.placing_align(least, n) == least || exists|i: int|
            0 <= i < p.shdrs.len() && (#[trigger] p.shdrs[i]).sh_addralign == p.placing_align(
                least,
                n,
            ),
        p.placing_align(least, n) >= least,
    decreases n,
{
    if n > 0 {
        lemma_placing_align_reached(p, least, n - 1);
        let name = p.replaced[n - 1].0;
        if p.section(name) is Some {
            placement::lemma_found(p.shdrs, p.shstrtab, name, 0);
            let i = p.find(name)->0;
            assert(p.shdrs[i] == p.section(name)->0);
        }
        assert forall|k: int| 0 <= k < n implies (p.section((#[trigger] p.replaced[k]).0) matches Some(
            h,
        ) ==> h.sh_addralign <= p.placing_align(least, n)) by {}
    }
}

/// Sections that are moved are placed from a place on that is the first behind the end of
/// the file, in steps of an alignment. In memory this is the first address behind all
/// segments in such steps. The alignment is the greatest one among the size of a page, the
/// alignments of the segments and those of the moved sections.
pub proof fn law_new_places_begin_aligned(a: ElfState) -> (start: (int, int, int))
    requires
        writes(a),
    ensures
        ({
            let (offset, addr, align) = start;
            &&& relocation::page_size(a.header.e_machine) <= align
            &&& forall|i: int| 0 <= i < a.phdrs.len() ==> (#[trigger] a.phdrs[i]).p_align <= align
            &&& forall|j: int|
                0 <= j < a.shdrs.len() && header_after(a, j) != #[trigger] a.shdrs[j]
                    ==> a.shdrs[j].sh_addralign <= align
            &&& align == relocation::page_size(a.header.e_machine) || (exists|i: int|
                0 <= i < a.phdrs.len() && (#[trigger] a.phdrs[i]).p_align == align) || exists|j: int|
                0 <= j < a.shdrs.len() && (#[trigger] a.shdrs[j]).sh_addralign == align
            &&& a.contents.len() <= offset < a.contents.len() + align
            &&& offset % align == 0
            &&& addr % align == 0
            &&& forall|i: int|
                0 <= i < a.phdrs.len() && (#[trigger] a.phdrs[i]).p_vaddr + a.phdrs[i].p_memsz
                    <= u64::MAX ==> a.phdrs[i].p_vaddr + a.phdrs[i].p_memsz <= addr
            &&& addr == 0 || exists|i: int|
                0 <= i < a.phdrs.len() && addr < (#[trigger] a.phdrs[i]).p_vaddr
                    + a.phdrs[i].p_memsz + align
            &&& forall|j: int|
                0 <= j < a.shdrs.len() && header_after(a, j) != #[trigger] a.shdrs[j] ==> offset
                    <= header_after(a, j).sh_offset && addr <= header_after(a, j).sh_addr
        }),
{
    let x = placing_laws::lemma_after(a);
    let page = relocation::page_size(a.header.e_machine);
    let n = a.phdrs.len() as int;
    let least = relocation::top_align(a.phdrs, page, n);
    let top = relocation::top_address(a.phdrs, n);
    lemma_top_align_reached(a.phdrs, page, n);
    lemma_placing_align_reached(x.p, least, x.p.replaced.len() as int);
    placement::lemma_top(a.phdrs, n);
    relocation::lemma_rounded(a.contents.len() as int, x.align);
    relocation::lemma_rounded(top, x.align);
    placement::lemma_sorted(a);
    let to = a.sorted().index_map;
    if exists|i: int| 0 <= i < x.p.shdrs.len() && (#[trigger] x.p.shdrs[i]).sh_addralign == x.align {
        let i = choose|i: int|
            0 <= i < x.p.shdrs.len() && (#[trigger] x.p.shdrs[i]).sh_addralign == x.align;
        order::lemma_order_upto(relocation::offsets(a.shdrs), a.shdrs.len() as int);
        assert(a.shdrs[a.sorting()[i] as int] == x.p.shdrs[i]);
    }
    assert forall|i: int|
        0 <= i < a.phdrs.len() && (#[trigger] a.phdrs[i]).p_vaddr + a.phdrs[i].p_memsz
            <= u64::MAX implies a.phdrs[i].p_vaddr + a.phdrs[i].p_memsz <= x.addr by {
        placing_laws::lemma_start_above(a, x, i);
    }
    let i = placing_laws::lemma_top_reached(a.phdrs, n);
    if top != 0 {
        assert(x.addr < a.phdrs[i].p_vaddr + a.phdrs[i].p_memsz + x.align);
    } else {
        vstd::arithmetic::div_mod::lemma_small_mod(x.addr as nat, x.align as nat);
    }
    assert forall|j: int|
        0 <= j < a.shdrs.len() && header_after(a, j) != #[trigger] a.shdrs[j] implies x.offset
        <= header_after(a, j).sh_offset && x.addr <= header_after(a, j).sh_addr
        && a.shdrs[j].sh_addralign <= x.align by {
        let q = to[j] as int;
        assert(x.p.shdrs[q] == a.shdrs[j]);
        let k = placing_laws::lemma_moved(a, x, q);
        assert(x.p.section(x.p.replaced[k].0) == Some(x.p.shdrs[q]));
    }
    (x.offset, x.addr, x.align)
}

/// The section that is moved to the first place stands less than its alignment behind where
/// the new places begin, which is near the end of the file and of the segments.
pub proof fn law_the_first_place_is_near(a: ElfState, j: int, most: int)
    requires
        writes(a),
        0 <= j < a.shdrs.len(),
        header_after(a, j) != a.shdrs[j],
        forall|i: int|
            0 <= i < a.shdrs.len() && i != j ==> (#[trigger] header_after(a, i)).sh_offset
                < a.contents.len() || header_after(a, j).sh_offset < header_after(a, i).sh_offset,
        relocation::page_size(a.header.e_machine) <= most,
        forall|i: int| 0 <= i < a.phdrs.len() ==> (#[trigger] a.phdrs[i]).p_align <= most,
        forall|i: int| 0 <= i < a.shdrs.len() ==> (#[trigger] a.shdrs[i]).sh_addralign <= most,
    ensures
        header_after(a, j).sh_offset < a.contents.len() + 2 * most,
        header_after(a, j).sh_addr < 2 * most || exists|i: int|
            0 <= i < a.phdrs.len() && header_after(a, j).sh_addr < (
            #[trigger] a.phdrs[i]).p_vaddr + a.phdrs[i].p_memsz + 2 * most,
{
    let x = placing_laws::lemma_after(a);
    let n = a.phdrs.len() as int;
    let page = relocation::page_size(a.header.e_machine);
    let least = relocation::top_align(a.phdrs, page, n);
    lemma_top_align_reached(a.phdrs, page, n);
    lemma_placing_align_reached(x.p, least, x.p.replaced.len() as int);
    placement::lemma_sorted(a);
    assert(x.align <= most) by {
        if exists|i: int|
            0 <= i < x.p.shdrs.len() && (#[trigger] x.p.shdrs[i]).sh_addralign == x.align {
            let i = choose|i: int|
                0 <= i < x.p.shdrs.len() && (#[trigger] x.p.shdrs[i]).sh_addralign == x.align;
            assert(a.shdrs[a.sorting()[i] as int] == x.p.shdrs[i]);
        }
    }
    placement::lemma_top(a.phdrs, n);
    relocation::lemma_rounded(relocation::top_address(a.phdrs, n), x.align);
    let i = placing_laws::lemma_top_reached(a.phdrs, n);
    placing_laws::lemma_first_place(a, x, j);
    if relocation::top_address(a.phdrs, n) != 0 {
        assert(header_after(a, j).sh_addr < a.phdrs[i].p_vaddr + a.phdrs[i].p_memsz + 2 * most);
    }
}

/// One loaded segment loads the sections that are moved, from a place and an address on that
/// none of them begins before. It is a segment of the file that ends right before that place
/// and is made longer. Where there is none, it is a new one that begins there, readable and
/// writable, for pages of the machine. All other loaded segments are as they were.
pub proof fn law_moved_sections_lie_in_one_segment(a: ElfState) -> (r: (int, int, int))
    requires
        writes(a),
        after(a).phdrs.len() <= usize::MAX,
    ensures
        ({
            let (k, offset, addr) = r;
            let w = after(a);
            let q = w.phdrs[k];
            let page = relocation::page_size(a.header.e_machine);
            &&& 0 <= k < w.phdrs.len()
            &&& q.p_type == PT_LOAD
            &&& q.p_offset <= offset
            &&& q.p_vaddr <= addr
            &&& addr - q.p_vaddr == offset - q.p_offset
            &&& a.contents.len() <= offset
            &&& q.p_offset + q.p_filesz <= w.contents.len()
            &&& forall|i: int|
                0 <= i < a.phdrs.len() && (#[trigger] a.phdrs[i]).p_vaddr + a.phdrs[i].p_memsz
                    <= u64::MAX ==> a.phdrs[i].p_vaddr + a.phdrs[i].p_memsz <= addr
            &&& forall|j: int|
                0 <= j < a.shdrs.len() && header_after(a, j) != #[trigger] a.shdrs[j] ==> {
                    let g = header_after(a, j);
                    &&& offset <= g.sh_offset
                    &&& addr <= g.sh_addr
                    &&& g.sh_offset + g.sh_size <= q.p_offset + q.p_filesz
                    &&& g.sh_addr + g.sh_size <= q.p_vaddr + q.p_memsz
                }
            &&& (exists|i: int|
                0 <= i < a.phdrs.len() && ends_right_before(
                    #[trigger] a.phdrs[i],
                    offset,
                    addr,
                    page,
                ) && extends(q, a.phdrs[i])) || {
                &&& forall|i: int|
                    0 <= i < a.phdrs.len() ==> !ends_right_before(
                        #[trigger] a.phdrs[i],
                        offset,
                        addr,
                        page,
                    )
                &&& q.p_offset == offset
                &&& q.p_vaddr == addr
                &&& q.p_paddr == addr
                &&& q.p_flags == 6
                &&& q.p_align == page
            }
            &&& forall|l: int|
                0 <= l < w.phdrs.len() && l != k && (#[trigger] w.phdrs[l]).p_type == PT_LOAD
                    ==> a.phdrs.contains(w.phdrs[l])
        }),
{
    let x = placing_laws::lemma_after(a);
    placement::lemma_can_stage(a, x);
    placement::lemma_staged(a, x);
    placing_laws::lemma_after_len(a);
    lemma_loaded_segments(a, x);
    lemma_sorted_segments(a, x);
    placement::lemma_prepared(a, Seq::empty());
    let m = x.m;
    let w = after(a);
    let page = relocation::page_size(m.header.e_machine);
    let grown = m.with_contents(edits::resized(m.contents, x.len));
    lemma_extended_segment(m.phdrs, x.offset, x.addr, page, 0);
    let n = placement::lemma_covered(
        grown,
        x.offset,
        x.addr,
        x.end - x.offset + 1,
        x.end_addr - x.addr,
    );
    let o = order::order(keys(x.l));
    assert(o.contains(n as usize));
    let k = choose|k: int| 0 <= k < o.len() && o[k] == n as usize;
    assert(w.phdrs[k] == x.l.phdrs[n]);
    match relocation::extendable_from(m.phdrs, x.offset, x.addr, page, 0) {
        Some(Some(i)) => {
            assert(i == n);
            assert(x.p.phdrs[i].p_type == PT_LOAD);
            assert(x.p.phdrs[i] == a.phdrs[i]);
            assert(ends_right_before(a.phdrs[i], x.offset, x.addr, page));
            assert(extends(x.l.phdrs[i], x.p.phdrs[i]));
        },
        _ => {
            assert forall|i: int| 0 <= i < a.phdrs.len() implies !ends_right_before(
                #[trigger] a.phdrs[i],
                x.offset,
                x.addr,
                page,
            ) by {
                assert(!ends_right_before(m.phdrs[i], x.offset, x.addr, page));
            }
        },
    }
    assert forall|i: int|
        0 <= i < a.phdrs.len() && (#[trigger] a.phdrs[i]).p_vaddr + a.phdrs[i].p_memsz
            <= u64::MAX implies a.phdrs[i].p_vaddr + a.phdrs[i].p_memsz <= x.addr by {
        placing_laws::lemma_start_above(a, x, i);
    }
    placement::lemma_sorted(a);
    assert forall|j: int|
        0 <= j < a.shdrs.len() && header_after(a, j) != #[trigger] a.shdrs[j] implies ({
        let g = header_after(a, j);
        &&& x.offset <= g.sh_offset
        &&& x.addr <= g.sh_addr
        &&& g.sh_offset + g.sh_size <= w.phdrs[k].p_offset + w.phdrs[k].p_filesz
        &&& g.sh_addr + g.sh_size <= w.phdrs[k].p_vaddr + w.phdrs[k].p_memsz
    }) by {
        let i = a.sorted().index_map[j] as int;
        assert(x.p.shdrs[i] == a.shdrs[j]);
        let _ = placing_laws::lemma_moved(a, x, i);
    }
    assert forall|l: int|
        0 <= l < w.phdrs.len() && l != k && (#[trigger] w.phdrs[l]).p_type
            == PT_LOAD implies a.phdrs.contains(w.phdrs[l]) by {
        let i = o[l] as int;
        if l < k {
            assert(order::stands_before(keys(x.l), o[l], o[k]));
        } else {
            assert(order::stands_before(keys(x.l), o[k], o[l]));
        }
        assert(i != n);
        assert(x.l.phdrs[i] == grown.phdrs[i]);
        assert(x.p.phdrs[i].p_type == PT_LOAD);
        assert(a.phdrs[i] == w.phdrs[l]);
    }
    (k, x.offset, x.addr)
}

/// The file header keeps all it says but for the number of segments, which is that of the
/// segments that are written, and for the position of the section names, which is the one
/// that their section header comes to stand at.
pub proof fn law_the_file_header_is_kept(a: ElfState)
    requires
        writes(a),
        a.header.e_phnum == a.phdrs.len(),
        after(a).phdrs.len() <= u16::MAX,
        a.shdrs.len() <= u16::MAX,
    ensures
        ({
            let h = a.header;
            let g = after(a).header;
            &&& g.e_ident == h.e_ident
            &&& g.e_type == h.e_type
            &&& g.e_machine == h.e_machine
            &&& g.e_version == h.e_version
            &&& g.e_entry == h.e_entry
            &&& g.e_phoff == h.e_phoff
            &&& g.e_shoff == h.e_shoff
            &&& g.e_flags == h.e_flags
            &&& g.e_ehsize == h.e_ehsize
            &&& g.e_phentsize == h.e_phentsize
            &&& g.e_shentsize == h.e_shentsize
            &&& g.e_shnum == h.e_shnum
            &&& g.e_phnum == after(a).phdrs.len()
            &&& h.e_shstrndx < a.shdrs.len() ==> g.e_shstrndx
                == after(a).index_map[h.e_shstrndx as int]
            &&& h.e_shstrndx >= a.shdrs.len() ==> g.e_shstrndx == h.e_shstrndx
        }),
{
    let x = placing_laws::lemma_after(a);
    placement::lemma_can_stage(a, x);
    placement::lemma_prepared(a, Seq::empty());
    placement::lemma_prepared_shdrs(a);
    placement::lemma_sorted(a);
    placement::lemma_staged(a, x);
    placement::lemma_relocated(a);
    let o = a.sorting();
    let names = a.header.e_shstrndx;
    placement::lemma_position(o, names as usize, 0);
    if names < a.shdrs.len() {
        let k = a.sorted().index_map[names as int] as int;
        let l = a.sorted().header.e_shstrndx as int;
        assert(o[k] == names && o[l] == names);
        if k < l {
            assert(order::stands_before(relocation::offsets(a.shdrs), o[k], o[l]));
        } else if l < k {
            assert(order::stands_before(relocation::offsets(a.shdrs), o[l], o[k]));
        }
    }
}

/// The bytes that the first `n` contents that wait take when each is filled up to a multiple
/// of the alignment of its section, or of the bytes of an address where there is no section.
pub open spec fn filled_up(p: ElfState, n: int) -> int
    decreases n,
{
    if n <= 0 {
        0
    } else {
        let len = p.replaced[n - 1].1.len() as int;
        let m = match p.section(p.replaced[n - 1].0) {
            Some(h) => if h.sh_addralign > 1 {
                h.sh_addralign as int
            } else {
                1
            },
            None => if p.ctx.container is Big {
                8
            } else {
                4
            },
        };
        filled_up(p, n - 1) + ((len + m - 1) / m) * m
    }
}

proof fn lemma_filled_up(p: ElfState, n: int)
    ensures
        filled_up(p, n) == p.space(n),
    decreases n,
{
    if n > 0 {
        lemma_filled_up(p, n - 1);
    }
}

/// The file is made just so long that all contents have room in it, filled up, and one byte
/// more. The longer part counts: that up to the end of the last content, or that of all of
/// them filled up.
pub proof fn law_files_grow_by_what_is_placed(a: ElfState) -> (start: (int, int))
    requires
        writes(a),
    ensures
        ({
            let (offset, end) = start;
            let w = after(a);
            let p = a.prepared()->0;
            let room = offset + filled_up(p, p.replaced.len() as int);
            &&& a.contents.len() <= offset <= end
            &&& w.contents.len() == 1 + (if room < end {
                end
            } else {
                room
            })
            &&& forall|j: int|
                0 <= j < a.shdrs.len() && header_after(a, j) != #[trigger] a.shdrs[j]
                    ==> header_after(a, j).sh_offset + header_after(a, j).sh_size <= end
            &&& end == offset || exists|i: int|
                0 <= i < w.shdrs.len() && (#[trigger] w.shdrs[i]).sh_offset + w.shdrs[i].sh_size
                    == end
        }),
{
    let x = placing_laws::lemma_after(a);
    placement::lemma_can_stage(a, x);
    placement::lemma_staged(a, x);
    placing_laws::lemma_after_len(a);
    lemma_filled_up(x.p, x.p.replaced.len() as int);
    lemma_end_reached(x.p, x.offset, x.addr, 0);
    placement::lemma_sorted(a);
    assert forall|j: int|
        0 <= j < a.shdrs.len() && header_after(a, j) != #[trigger] a.shdrs[j] implies header_after(
        a,
        j,
    ).sh_offset + header_after(a, j).sh_size <= x.end by {
        let i = a.sorted().index_map[j] as int;
        assert(x.p.shdrs[i] == a.shdrs[j]);
        let _ = placing_laws::lemma_moved(a, x, i);
    }
    (x.offset, x.end)
}

/// The places end where a section ends.
proof fn lemma_end_reached(g: ElfState, offset: int, addr: int, k: int)
    requires
        0 <= k,
        0 <= offset,
        0 <= addr,
        sections::ordered(g.replaced),
        g.placed_from(offset, addr, k) is Some,
    ensures
        ({
            let (m, end, end_addr) = g.placed_from(offset, addr, k)->0;
            end == offset || exists|i: int|
                0 <= i < m.shdrs.len() && (#[trigger] m.shdrs[i]).sh_offset + m.shdrs[i].sh_size
                    == end
        }),
    decreases g.replaced.len() - k,
{
    if k < g.replaced.len() {
        let size = g.replaced[k].1.len() as int;
        placement::lemma_placed(g, offset, addr, k);
        match g.find(g.replaced[k].0) {
            None => {
                lemma_end_reached(g, offset, addr, k + 1);
            },
            Some(i) => {
                placement::lemma_found(g.shdrs, g.shstrtab, g.replaced[k].0, 0);
                let h = g.shdrs[i];
                let at = relocation::rounded(offset, relocation::alignment(h));
                let to = relocation::rounded(addr, relocation::alignment(h));
                relocation::lemma_rounded(offset, relocation::alignment(h));
                relocation::lemma_rounded(addr, relocation::alignment(h));
                let moved = SectionHeader {
                    sh_offset: at as u64,
                    sh_addr: to as u64,
                    sh_size: size as u64,
                    ..h
                };
                let next = ElfState { shdrs: g.shdrs.update(i, moved), ..g };
                lemma_end_reached(next, at + size, to + size, k + 1);
                placement::lemma_placed(next, at + size, to + size, k + 1);
                let (m, end, end_addr) = g.placed_from(offset, addr, k)->0;
                if end == at + size {
                    assert forall|n: Seq<char>| #[trigger] next.find(n) == g.find(n) by {
                        placement::lemma_same_names(next.shdrs, g.shdrs, g.shstrtab, n, 0);
                    }
                    assert forall|q: int| k + 1 <= q < next.replaced.len() implies next.find(
                        (#[trigger] next.replaced[q]).0,
                    ) != Some(i) by {
                        placement::lemma_ordered_distinct(g.replaced, k, q);
                        placement::lemma_found(g.shdrs, g.shstrtab, g.replaced[q].0, 0);
                    }
                    assert(m.shdrs[i] == moved);
                }
            },
        }
    }
}

} // verus!
