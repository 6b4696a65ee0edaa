//! What stays and what moves when contents are placed in a file.

use crate::codec;
use crate::edits;
use crate::order;
use crate::relocation;
use crate::reread;
use crate::roundtrip;
use crate::sections;
use crate::state;
use crate::state::ElfState;
use crate::text;
use crate::types::{
    Dyn, Header, ProgramHeader, SectionHeader, PT_DYNAMIC, PT_INTERP, PT_LOAD, PT_NOTE, PT_PHDR,
};
use vstd::prelude::*;

verus! {

impl ElfState {
    /// Whether exactly one section has a name.
    pub open spec fn sole(self, name: Seq<char>) -> bool {
        &&& self.find(name) is Some
        &&& forall|j: int|
            0 <= j < self.shdrs.len() && #[trigger] self.name_of(j) == Some(name) ==> Some(j)
                == self.find(name)
    }

    /// Whether the dynamic entries have a place of their own: they wait, or else their
    /// section is the only one of its name, lies inside the file and shares its place
    /// with no other.
    pub open spec fn dynamic_settled(self) -> bool {
        match self.section(".dynamic"@) {
            Some(h) => sections::lookup(self.replaced, ".dynamic"@) is Some || {
                &&& self.sole(".dynamic"@)
                &&& self.in_file(h)
                &&& h.sh_size > 0
                &&& forall|j: int|
                    0 <= j < self.shdrs.len() && (#[trigger] self.shdrs[j]).sh_offset
                        == h.sh_offset && self.shdrs[j].sh_size == h.sh_size ==> self.name_of(j)
                        == Some(".dynamic"@)
            },
            None => true,
        }
    }

    /// Whether the values that the sections give to dynamic entries fit in the class.
    pub open spec fn values_fit(self) -> bool {
        forall|tag: u64|
            (#[trigger] self.value_for(tag)) matches Some(v) ==> roundtrip::fits_word(v, self.ctx)
    }

    /// Whether a section lies apart from the dynamic entries in the file, where these
    /// do not wait.
    pub open spec fn beside_dynamic(self, h: SectionHeader) -> bool {
        self.section(".dynamic"@) matches Some(d) ==> sections::lookup(
            self.replaced,
            ".dynamic"@,
        ) is Some || reread::apart(
            h.sh_offset as int,
            h.sh_offset + h.sh_size,
            d.sh_offset as int,
            d.sh_offset + d.sh_size,
        )
    }

    /// Whether the section names stay readable when contents are placed: they lie
    /// inside the file, the section before all others is the empty one, and no other
    /// section bears their name, replaces them or holds dynamic entries at their place.
    pub open spec fn names_safe(self) -> bool {
        let n = self.header.e_shstrndx as int;
        &&& 0 < n < self.shdrs.len() <= u16::MAX + 1
        &&& self.beside_dynamic(self.shdrs[n])
        &&& self.name_of(n) != Some(".dynamic"@)
        &&& self.shdrs[0].sh_offset == 0
        &&& self.in_file(self.shdrs[n])
        &&& self.shstrtab == self.body(self.shdrs[n])
        &&& self.name_of(n) matches Some(name) ==> self.sole(name) && sections::lookup(
            self.replaced,
            name,
        ) is None
    }
}

/// A name that is found is the name of the section.
pub proof fn lemma_found(shdrs: Seq<SectionHeader>, names: Seq<u8>, name: Seq<char>, i: int)
    requires
        0 <= i,
    ensures
        state::named_from(shdrs, names, name, i) matches Some(j) ==> i <= j < shdrs.len()
            && state::section_name(shdrs, names, j) == Some(name) && forall|k: int|
            i <= k < j ==> state::section_name(shdrs, names, k) != Some(name),
    decreases shdrs.len() - i,
{
    if i < shdrs.len() && state::section_name(shdrs, names, i) != Some(name) {
        lemma_found(shdrs, names, name, i + 1);
    }
}

/// Sections that have the same names are found at the same positions.
pub proof fn lemma_same_names(
    a: Seq<SectionHeader>,
    b: Seq<SectionHeader>,
    names: Seq<u8>,
    name: Seq<char>,
    i: int,
)
    requires
        0 <= i,
        a.len() == b.len(),
        forall|j: int| 0 <= j < a.len() ==> (#[trigger] a[j]).sh_name == b[j].sh_name,
    ensures
        state::named_from(a, names, name, i) == state::named_from(b, names, name, i),
    decreases a.len() - i,
{
    if i < a.len() {
        assert(a[i].sh_name == b[i].sh_name);
        lemma_same_names(a, b, names, name, i + 1);
    }
}

/// Only the last content kept under a name counts.
pub proof fn lemma_put_again(
    m: Seq<(Seq<char>, Seq<u8>)>,
    name: Seq<char>,
    first: Seq<u8>,
    last: Seq<u8>,
)
    ensures
        sections::put(sections::put(m, name, first), name, last) == sections::put(m, name, last),
    decreases m.len(),
{
    let p = sections::put(m, name, first);
    if m.len() == 0 {
        assert(p.drop_first() =~= m);
        assert(seq![(name, last)] + m =~= seq![(name, last)]);
    } else if m[0].0 == name {
        assert(p.drop_first() =~= m.drop_first());
    } else if text::text_before(name, m[0].0) {
        assert(p.drop_first() =~= m);
    } else {
        lemma_put_again(m.drop_first(), name, first, last);
        assert(p.drop_first() =~= sections::put(m.drop_first(), name, first));
    }
}

/// Two names stand one before the other.
proof fn lemma_text_before(a: Seq<char>, b: Seq<char>)
    requires
        a != b,
    ensures
        text::text_before(a, b) != text::text_before(b, a),
{
    let x = vstd::utf8::encode_utf8(a);
    let y = vstd::utf8::encode_utf8(b);
    text::lemma_before_total(x, y);
    vstd::utf8::encode_utf8_decode_utf8(a);
    vstd::utf8::encode_utf8_decode_utf8(b);
    if text::text_before(a, b) && text::text_before(b, a) {
        text::lemma_before_transitive(x, y, x);
        text::lemma_before_irreflexive(x);
    }
}

/// The order in which contents are kept under two names does not matter.
pub proof fn lemma_put_other(
    m: Seq<(Seq<char>, Seq<u8>)>,
    one: Seq<char>,
    c: Seq<u8>,
    other: Seq<char>,
    d: Seq<u8>,
)
    requires
        one != other,
    ensures
        sections::put(sections::put(m, one, c), other, d) == sections::put(
            sections::put(m, other, d),
            one,
            c,
        ),
    decreases m.len(),
{
    let p = sections::put(m, one, c);
    let q = sections::put(m, other, d);
    let l = sections::put(p, other, d);
    let r = sections::put(q, one, c);
    lemma_text_before(one, other);
    if m.len() == 0 {
        reveal_with_fuel(sections::put, 3);
        assert(p.drop_first() =~= m && q.drop_first() =~= m);
        assert(l =~= r);
    } else {
        let rest = m.drop_first();
        let z = m[0].0;
        reveal_with_fuel(sections::put, 2);
        lemma_put_other(rest, one, c, other, d);
        if one != z {
            lemma_text_before(one, z);
        }
        if other != z {
            lemma_text_before(other, z);
        }
        let a = vstd::utf8::encode_utf8(one);
        let b = vstd::utf8::encode_utf8(other);
        let e = vstd::utf8::encode_utf8(z);
        if text::text_before(one, z) && text::text_before(z, other) {
            text::lemma_before_transitive(a, e, b);
        }
        if text::text_before(other, z) && text::text_before(z, one) {
            text::lemma_before_transitive(b, e, a);
        }
        if one == z || text::text_before(one, z) {
            assert(p.drop_first() =~= (if one == z {
                rest
            } else {
                m
            }));
        } else {
            assert(p.drop_first() =~= sections::put(rest, one, c));
        }
        if other == z || text::text_before(other, z) {
            assert(q.drop_first() =~= (if other == z {
                rest
            } else {
                m
            }));
        } else {
            assert(q.drop_first() =~= sections::put(rest, other, d));
        }
        assert(l =~= r);
    }
}

/// No name stands twice among ordered names.
pub proof fn lemma_ordered_distinct(m: Seq<(Seq<char>, Seq<u8>)>, i: int, j: int)
    requires
        sections::ordered(m),
        0 <= i < j < m.len(),
    ensures
        m[i].0 != m[j].0,
{
    text::lemma_before_irreflexive(vstd::utf8::encode_utf8(m[i].0));
    assert(text::text_before(m[i].0, m[j].0));
}

/// What is found under a name is one of the contents.
pub proof fn lemma_lookup_position(m: Seq<(Seq<char>, Seq<u8>)>, name: Seq<char>) -> (k: int)
    requires
        sections::lookup(m, name) is Some,
    ensures
        0 <= k < m.len(),
        m[k].0 == name,
        m[k].1 == sections::lookup(m, name)->0,
    decreases m.len(),
{
    if m[0].0 == name {
        0
    } else {
        let k = lemma_lookup_position(m.drop_first(), name);
        assert(m.drop_first()[k] == m[k + 1]);
        k + 1
    }
}

/// A name that stands among the contents is found.
pub proof fn lemma_lookup_present(m: Seq<(Seq<char>, Seq<u8>)>, k: int)
    requires
        0 <= k < m.len(),
    ensures
        sections::lookup(m, m[k].0) is Some,
    decreases k,
{
    if m[0].0 != m[k].0 {
        assert(m.drop_first()[k - 1] == m[k]);
        lemma_lookup_present(m.drop_first(), k - 1);
    }
}

/// Making sections wait changes nothing but what waits. What waits already stays, and
/// the content that then waits for a section of a sole name is that of the section.
pub proof fn lemma_lifted(s: ElfState, list: Seq<usize>, k: int, name: Seq<char>)
    requires
        0 <= k,
        s.lifted_from(list, k) is Some,
        forall|j: int|
            k <= j < list.len() ==> s.name_of((#[trigger] list[j]) as int) is Some,
    ensures
        ({
            let l = s.lifted_from(list, k)->0;
            &&& l == ElfState { replaced: l.replaced, ..s }
            &&& sections::ordered(s.replaced) ==> sections::ordered(l.replaced)
            &&& (forall|j: int|
                k <= j < list.len() ==> s.name_of((#[trigger] list[j]) as int) != Some(name))
                ==> sections::lookup(l.replaced, name) == sections::lookup(s.replaced, name)
            &&& s.sole(name) && s.in_file(s.section(name)->0) && (sections::lookup(
                s.replaced,
                name,
            ) is None || sections::lookup(s.replaced, name) == Some(s.body(s.section(name)->0)))
                ==> (sections::lookup(l.replaced, name) is None || sections::lookup(
                l.replaced,
                name,
            ) == Some(s.body(s.section(name)->0)))
        }),
    decreases list.len() - k,
{
    if k < list.len() {
        let i = list[k] as int;
        let size = s.shdrs[i].sh_size;
        let lifted = s.name_of(i)->0;
        let content = edits::resized(s.current(lifted, s.section(lifted)->0), size as int);
        let next = s.with_section(lifted, content);
        if sections::ordered(s.replaced) {
            sections::lemma_put_ordered(s.replaced, lifted, content);
        }
        sections::lemma_lookup_put(s.replaced, lifted, content, name);
        lemma_found(s.shdrs, s.shstrtab, name, 0);
        lemma_lifted(next, list, k + 1, name);
        assert forall|j: int| 0 <= j < s.shdrs.len() implies s.name_of(j) == #[trigger] next.name_of(
            j,
        ) by {}
        if s.sole(name) && s.in_file(s.section(name)->0) && (sections::lookup(
            s.replaced,
            name,
        ) is None || sections::lookup(s.replaced, name) == Some(s.body(s.section(name)->0))) {
            let h = s.section(name)->0;
            assert(next.sole(name));
            if lifted == name {
                assert(s.name_of(i) == Some(name));
                assert(s.shdrs[i] == h);
                assert(content =~= s.body(h));
            }
        }
    }
}

/// The sections that have to give way have names and no content that waits.
pub proof fn lemma_obstacles(s: ElfState, limit: int, n: int)
    requires
        n <= s.shdrs.len(),
        s.shdrs.len() <= usize::MAX,
    ensures
        forall|j: int|
            0 <= j < s.obstacles(limit, n).len() ==> (#[trigger] s.obstacles(limit, n)[j]) < n
                && s.is_in_the_way(s.obstacles(limit, n)[j] as int, limit),
    decreases n,
{
    if n > 1 {
        lemma_obstacles(s, limit, n - 1);
        let before = s.obstacles(limit, n - 1);
        let all = s.obstacles(limit, n);
        assert forall|j: int| 0 <= j < all.len() implies (#[trigger] all[j]) < n
            && s.is_in_the_way(all[j] as int, limit) by {
            if j < before.len() {
                assert(all[j] == before[j]);
            }
        }
    }
}

/// Sorting moves each section header to one place, which is noted, and leaves the rest.
/// The section names are found under the number that the file header then gives.
pub proof fn lemma_sorted(l: ElfState)
    requires
        l.shdrs.len() <= usize::MAX,
    ensures
        l.sorted() == (ElfState {
            shdrs: l.sorted().shdrs,
            header: Header { e_shstrndx: l.sorted().header.e_shstrndx, ..l.header },
            index_map: l.sorted().index_map,
            ..l
        }),
        l.sorted().shdrs.len() == l.shdrs.len(),
        order::is_order(relocation::offsets(l.shdrs), l.sorting(), l.shdrs.len() as int),
        forall|i: int|
            0 <= i < l.shdrs.len() ==> (#[trigger] l.sorting()[i]) < l.shdrs.len()
                && l.sorted().shdrs[i] == l.shdrs[l.sorting()[i] as int],
        l.sorted().index_map.len() == l.shdrs.len(),
        forall|i: int|
            0 <= i < l.shdrs.len() ==> (#[trigger] l.sorted().index_map[i]) < l.shdrs.len()
                && l.sorting()[l.sorted().index_map[i] as int] == i
                && l.sorted().shdrs[l.sorted().index_map[i] as int] == l.shdrs[i],
        l.header.e_shstrndx < l.shdrs.len() <= u16::MAX + 1 ==> l.sorted().header.e_shstrndx
            < l.shdrs.len() && l.sorting()[l.sorted().header.e_shstrndx as int]
            == l.header.e_shstrndx,
{
    let keys = relocation::offsets(l.shdrs);
    let o = l.sorting();
    order::lemma_order_upto(keys, keys.len() as int);
    let x = l.header.e_shstrndx as usize;
    lemma_position(o, x, 0);
    if l.header.e_shstrndx < l.shdrs.len() && l.shdrs.len() <= u16::MAX + 1 {
        assert(o.contains(x));
    }
    assert forall|i: int| 0 <= i < l.shdrs.len() implies (#[trigger] l.sorted().index_map[i])
        < l.shdrs.len() && o[l.sorted().index_map[i] as int] == i
        && l.sorted().shdrs[l.sorted().index_map[i] as int] == l.shdrs[i] by {
        lemma_position(o, i as usize, 0);
        assert(o.contains(i as usize));
    }
}

pub(crate) proof fn lemma_position(o: Seq<usize>, x: usize, i: int)
    requires
        0 <= i <= o.len(),
    ensures
        match relocation::position_from(o, x, i) {
            Some(k) => i <= k < o.len() && o[k] == x,
            None => forall|j: int| i <= j < o.len() ==> o[j] != x,
        },
    decreases o.len() - i,
{
    if i < o.len() && o[i] != x {
        lemma_position(o, x, i + 1);
    }
}

/// What can be found before sorting can be found after it; a sole name stays sole and
/// keeps its section.
pub proof fn lemma_sorted_find(l: ElfState, name: Seq<char>)
    requires
        l.shdrs.len() <= usize::MAX,
    ensures
        l.find(name) is Some ==> l.sorted().find(name) is Some,
        l.sole(name) ==> l.sorted().sole(name) && l.sorted().section(name) == l.section(name),
{
    let p = l.sorted();
    let o = l.sorting();
    lemma_sorted(l);
    lemma_found(l.shdrs, l.shstrtab, name, 0);
    lemma_found(p.shdrs, p.shstrtab, name, 0);
    if l.find(name) is Some {
        let j = l.find(name)->0 as usize;
        assert(o.contains(j));
        let i = choose|i: int| 0 <= i < o.len() && o[i] == j;
        assert(p.shdrs[i] == l.shdrs[o[i] as int]);
        assert(p.name_of(i) == Some(name));
        state::lemma_named(p.shdrs, p.shstrtab, name, 0, i);
        if l.sole(name) {
            assert forall|k: int|
                0 <= k < p.shdrs.len() && #[trigger] p.name_of(k) == Some(name) implies Some(k)
                == p.find(name) by {
                let f = p.find(name)->0;
                assert(p.shdrs[k] == l.shdrs[o[k] as int]);
                assert(p.shdrs[f] == l.shdrs[o[f] as int]);
                assert(l.name_of(o[k] as int) == Some(name));
                assert(l.name_of(o[f] as int) == Some(name));
                if k < f {
                    assert(order::stands_before(
                        relocation::offsets(l.shdrs),
                        o[k],
                        o[f],
                    ));
                } else if f < k {
                    assert(order::stands_before(
                        relocation::offsets(l.shdrs),
                        o[f],
                        o[k],
                    ));
                }
            }
            let f = p.find(name)->0;
            assert(p.shdrs[f] == l.shdrs[o[f] as int]);
            assert(l.name_of(o[f] as int) == Some(name));
        }
    }
}

/// Placing gives new places to section headers and nothing else: the names stay, and so
/// do the sections whose content does not wait.
pub proof fn lemma_placed(g: ElfState, offset: int, addr: int, k: int)
    requires
        0 <= k,
        0 <= offset,
        0 <= addr,
        g.placed_from(offset, addr, k) is Some,
    ensures
        ({
            let (m, end, end_addr) = g.placed_from(offset, addr, k)->0;
            &&& m == ElfState { shdrs: m.shdrs, ..g }
            &&& m.shdrs.len() == g.shdrs.len()
            &&& offset <= end
            &&& addr <= end_addr
            &&& offset <= u64::MAX ==> end <= u64::MAX
            &&& addr <= u64::MAX ==> end_addr <= u64::MAX
            &&& forall|i: int|
                0 <= i < g.shdrs.len() ==> (#[trigger] m.shdrs[i]).sh_name == g.shdrs[i].sh_name
            &&& forall|name: Seq<char>| #[trigger] m.find(name) == g.find(name)
            &&& forall|i: int|
                0 <= i < g.shdrs.len() && (forall|j: int|
                    k <= j < g.replaced.len() ==> g.find((#[trigger] g.replaced[j]).0) != Some(i))
                    ==> #[trigger] m.shdrs[i] == g.shdrs[i]
        }),
    decreases g.replaced.len() - k,
{
    if k < g.replaced.len() {
        let size = g.replaced[k].1.len() as int;
        match g.find(g.replaced[k].0) {
            None => {
                lemma_placed(g, offset, addr, k + 1);
            },
            Some(i) => {
                lemma_found(g.shdrs, g.shstrtab, g.replaced[k].0, 0);
                let h = g.shdrs[i];
                let at = relocation::rounded(offset, relocation::alignment(h));
                let to = relocation::rounded(addr, relocation::alignment(h));
                relocation::lemma_rounded(offset, relocation::alignment(h));
                relocation::lemma_rounded(addr, relocation::alignment(h));
                let moved = SectionHeader {
                    sh_offset: at as u64,
                    sh_addr: to as u64,
                    sh_size: size as u64,
                    ..h
                };
                let next = ElfState { shdrs: g.shdrs.update(i, moved), ..g };
                lemma_placed(next, at + size, to + size, k + 1);
                assert forall|name: Seq<char>| #[trigger] next.find(name) == g.find(name) by {
                    lemma_same_names(next.shdrs, g.shdrs, g.shstrtab, name, 0);
                }
                let (m, _, _) = g.placed_from(offset, addr, k)->0;
                assert forall|name: Seq<char>| #[trigger] m.find(name) == g.find(name) by {
                    assert(m.find(name) == next.find(name));
                }
                assert forall|j: int|
                    0 <= j < g.shdrs.len() && (forall|q: int|
                        k <= q < g.replaced.len() ==> g.find((#[trigger] g.replaced[q]).0) != Some(
                            j,
                        )) implies #[trigger] m.shdrs[j] == g.shdrs[j] by {
                    assert(g.find(g.replaced[k].0) != Some(j));
                    assert forall|q: int| k + 1 <= q < next.replaced.len() implies next.find(
                        (#[trigger] next.replaced[q]).0,
                    ) != Some(j) by {
                        assert(next.find(next.replaced[q].0) == g.find(g.replaced[q].0));
                    }
                    assert(m.shdrs[j] == next.shdrs[j]);
                }
            },
        }
    }
}

/// The `j`-th content gets a place of its size, not before `offset`, which the places
/// of the later ones follow.
pub proof fn lemma_placed_at(g: ElfState, offset: int, addr: int, k: int, j: int)
    requires
        0 <= k <= j < g.replaced.len(),
        0 <= offset,
        0 <= addr,
        sections::ordered(g.replaced),
        g.placed_from(offset, addr, k) is Some,
        g.find(g.replaced[j].0) is Some,
    ensures
        ({
            let (m, end, end_addr) = g.placed_from(offset, addr, k)->0;
            let i = g.find(g.replaced[j].0)->0;
            let h = m.shdrs[i];
            let len = g.replaced[j].1.len();
            &&& h == SectionHeader {
                sh_offset: h.sh_offset,
                sh_addr: h.sh_addr,
                sh_size: len as u64,
                ..g.shdrs[i]
            }
            &&& h.sh_size == len
            &&& offset <= h.sh_offset
            &&& addr <= h.sh_addr
            &&& h.sh_offset + len <= end
            &&& h.sh_addr + len <= end_addr
            &&& h.sh_offset as int % relocation::alignment(g.shdrs[i]) == 0
            &&& h.sh_addr as int % relocation::alignment(g.shdrs[i]) == 0
            &&& forall|q: int|
                j < q < g.replaced.len() && g.find((#[trigger] g.replaced[q]).0) is Some
                    ==> h.sh_offset + len <= m.shdrs[g.find(g.replaced[q].0)->0].sh_offset
                    && h.sh_addr + len <= m.shdrs[g.find(g.replaced[q].0)->0].sh_addr
        }),
    decreases g.replaced.len() - k,
{
    let size = g.replaced[k].1.len() as int;
    let name = g.replaced[j].0;
    lemma_placed(g, offset, addr, k);
    match g.find(g.replaced[k].0) {
        None => {
            lemma_placed_at(g, offset, addr, k + 1, j);
        },
        Some(i) => {
            lemma_found(g.shdrs, g.shstrtab, g.replaced[k].0, 0);
            let h = g.shdrs[i];
            let at = relocation::rounded(offset, relocation::alignment(h));
            let to = relocation::rounded(addr, relocation::alignment(h));
            relocation::lemma_rounded(offset, relocation::alignment(h));
            relocation::lemma_rounded(addr, relocation::alignment(h));
            let moved = SectionHeader {
                sh_offset: at as u64,
                sh_addr: to as u64,
                sh_size: size as u64,
                ..h
            };
            let next = ElfState { shdrs: g.shdrs.update(i, moved), ..g };
            lemma_placed(next, at + size, to + size, k + 1);
            assert forall|n: Seq<char>| #[trigger] next.find(n) == g.find(n) by {
                lemma_same_names(next.shdrs, g.shdrs, g.shstrtab, n, 0);
            }
            let (m, end, end_addr) = g.placed_from(offset, addr, k)->0;
            lemma_found(g.shdrs, g.shstrtab, name, 0);
            assert forall|q: int|
                k < q < g.replaced.len() && g.find((#[trigger] g.replaced[q]).0) is Some implies {
                &&& g.find(g.replaced[q].0) != Some(i)
                &&& at + size <= m.shdrs[g.find(g.replaced[q].0)->0].sh_offset
                &&& to + size <= m.shdrs[g.find(g.replaced[q].0)->0].sh_addr
            } by {
                lemma_ordered_distinct(g.replaced, k, q);
                lemma_found(g.shdrs, g.shstrtab, g.replaced[q].0, 0);
                assert(next.find(next.replaced[q].0) == g.find(g.replaced[q].0));
                lemma_placed_at(next, at + size, to + size, k + 1, q);
            }
            if j == k {
                assert forall|q: int| k + 1 <= q < next.replaced.len() implies next.find(
                    (#[trigger] next.replaced[q]).0,
                ) != Some(i) by {
                    assert(next.find(next.replaced[q].0) == g.find(g.replaced[q].0));
                }
                assert(m.shdrs[i] == next.shdrs[i]);
            } else {
                assert(next.find(next.replaced[j].0) == g.find(g.replaced[j].0));
                lemma_placed_at(next, at + size, to + size, k + 1, j);
                assert(g.find(g.replaced[j].0) != Some(i));
                let f = g.find(g.replaced[j].0)->0;
                assert(next.shdrs[f] == g.shdrs[f]);
                assert forall|q: int|
                    j < q < g.replaced.len() && g.find((#[trigger] g.replaced[q]).0) is Some implies
                    m.shdrs[f].sh_offset + g.replaced[j].1.len() <= m.shdrs[g.find(
                        g.replaced[q].0,
                    )->0].sh_offset && m.shdrs[f].sh_addr + g.replaced[j].1.len()
                    <= m.shdrs[g.find(g.replaced[q].0)->0].sh_addr by {
                    assert(next.find(next.replaced[q].0) == g.find(g.replaced[q].0));
                }
            }
        },
    }
}

/// Whether the contents from the `k`-th on are written elsewhere than in a range.
pub open spec fn misses(x: ElfState, k: int, from: int, to: int) -> bool {
    forall|j: int|
        k <= j < x.replaced.len() ==> (x.section((#[trigger] x.replaced[j]).0) matches Some(h)
            ==> reread::apart(
            h.sh_offset as int,
            h.sh_offset + x.replaced[j].1.len(),
            from,
            to,
        ))
}

/// Writing the contents leaves all other bytes.
pub proof fn lemma_filled(x: ElfState, k: int, from: int, to: int)
    requires
        0 <= k,
        0 <= from <= to <= x.contents.len(),
        x.filled_from(k) is Some,
        misses(x, k, from, to),
    ensures
        x.filled_from(k)->0 == x.with_contents(x.filled_from(k)->0.contents),
        x.filled_from(k)->0.contents.len() == x.contents.len(),
        x.filled_from(k)->0.contents.subrange(from, to) == x.contents.subrange(from, to),
    decreases x.replaced.len() - k,
{
    if k < x.replaced.len() {
        let content = x.replaced[k].1;
        match x.section(x.replaced[k].0) {
            None => {
                lemma_filled(x, k + 1, from, to);
            },
            Some(h) => {
                let next = x.with_contents(
                    codec::splice(x.contents, h.sh_offset as int, content),
                );
                assert forall|j: int| k + 1 <= j < next.replaced.len() implies (next.section(
                    (#[trigger] next.replaced[j]).0,
                ) matches Some(g) ==> reread::apart(
                    g.sh_offset as int,
                    g.sh_offset + next.replaced[j].1.len(),
                    from,
                    to,
                )) by {
                    assert(next.section(next.replaced[j].0) == x.section(x.replaced[j].0));
                }
                lemma_filled(next, k + 1, from, to);
                assert(x.section(x.replaced[k].0) is Some);
                assert(next.contents.subrange(from, to) =~= x.contents.subrange(from, to));
            },
        }
    }
}

/// Writing the contents changes nothing but the bytes of the file.
pub proof fn lemma_filled_rest(x: ElfState, k: int)
    requires
        0 <= k,
        x.filled_from(k) is Some,
    ensures
        x.filled_from(k)->0 == x.with_contents(x.filled_from(k)->0.contents),
        x.filled_from(k)->0.contents.len() == x.contents.len(),
{
    lemma_filled(x, k, 0, 0);
}

/// Each content is then found at its place, where later ones are written elsewhere.
pub proof fn lemma_filled_at(x: ElfState, k: int, j: int)
    requires
        0 <= k <= j < x.replaced.len(),
        x.filled_from(k) is Some,
        x.section(x.replaced[j].0) is Some,
        misses(
            x,
            j + 1,
            x.section(x.replaced[j].0)->0.sh_offset as int,
            x.section(x.replaced[j].0)->0.sh_offset + x.replaced[j].1.len(),
        ),
    ensures
        ({
            let at = x.section(x.replaced[j].0)->0.sh_offset as int;
            &&& at + x.replaced[j].1.len() <= x.contents.len()
            &&& x.filled_from(k)->0.contents.subrange(at, at + x.replaced[j].1.len())
                == x.replaced[j].1
        }),
    decreases x.replaced.len() - k,
{
    let content = x.replaced[k].1;
    match x.section(x.replaced[k].0) {
        None => {
            lemma_filled_at(x, k + 1, j);
        },
        Some(h) => {
            let at = h.sh_offset as int;
            let next = x.with_contents(codec::splice(x.contents, at, content));
            let place = x.section(x.replaced[j].0)->0.sh_offset as int;
            assert(next.section(next.replaced[j].0) == x.section(x.replaced[j].0));
            assert forall|q: int| j + 1 <= q < next.replaced.len() implies (next.section(
                (#[trigger] next.replaced[q]).0,
            ) matches Some(g) ==> reread::apart(
                g.sh_offset as int,
                g.sh_offset + next.replaced[q].1.len(),
                place,
                place + x.replaced[j].1.len(),
            )) by {
                assert(next.section(next.replaced[q].0) == x.section(x.replaced[q].0));
            }
            if k == j {
                lemma_filled(next, k + 1, at, at + content.len());
                assert(next.contents.subrange(at, at + content.len()) =~= content);
            } else {
                lemma_filled_at(next, k + 1, j);
            }
        },
    }
}

/// The contents can be written where the file reaches behind their places.
pub proof fn lemma_filling(x: ElfState, k: int)
    requires
        0 <= k,
        forall|j: int|
            k <= j < x.replaced.len() ==> (x.section((#[trigger] x.replaced[j]).0) matches Some(h)
                ==> h.sh_offset + x.replaced[j].1.len() <= x.contents.len()),
    ensures
        x.filled_from(k) is Some,
    decreases x.replaced.len() - k,
{
    if k < x.replaced.len() {
        match x.section(x.replaced[k].0) {
            None => {
                lemma_filling(x, k + 1);
            },
            Some(h) => {
                let next = x.with_contents(
                    codec::splice(x.contents, h.sh_offset as int, x.replaced[k].1),
                );
                assert forall|j: int| k + 1 <= j < next.replaced.len() implies (next.section(
                    (#[trigger] next.replaced[j]).0,
                ) matches Some(g) ==> g.sh_offset + next.replaced[j].1.len()
                    <= next.contents.len()) by {
                    assert(next.section(next.replaced[j].0) == x.section(x.replaced[j].0));
                }
                lemma_filling(next, k + 1);
            },
        }
    }
}

/// Splitting note segments changes nothing but the segments and their number.
pub proof fn lemma_normalized(l: ElfState)
    requires
        l.normalized() is Some,
    ensures
        l.normalized()->0 == (ElfState {
            phdrs: l.normalized()->0.phdrs,
            header: Header { e_phnum: l.normalized()->0.header.e_phnum, ..l.header },
            ..l
        }),
        l.header.e_phnum == l.phdrs.len() as u16 ==> l.normalized()->0.header.e_phnum
            == l.normalized()->0.phdrs.len() as u16,
{
}

pub(crate) proof fn lemma_extendable(phdrs: Seq<ProgramHeader>, offset: int, addr: int, page: int, i: int)
    requires
        0 <= i,
    ensures
        relocation::extendable_from(phdrs, offset, addr, page, i) matches Some(Some(k)) ==> i <= k
            < phdrs.len(),
    decreases phdrs.len() - i,
{
    if i < phdrs.len() {
        lemma_extendable(phdrs, offset, addr, page, i + 1);
    }
}

/// Loading new bytes changes nothing but the segments and their number.
pub proof fn lemma_loading(m: ElfState, offset: int, addr: int, file_size: int, mem_size: int)
    requires
        m.loading(offset, addr, file_size, mem_size) is Some,
    ensures
        ({
            let l = m.loading(offset, addr, file_size, mem_size)->0;
            &&& l == ElfState {
                phdrs: l.phdrs,
                header: Header { e_phnum: l.header.e_phnum, ..m.header },
                ..m
            }
            &&& m.header.e_phnum == m.phdrs.len() as u16 ==> l.header.e_phnum
                == l.phdrs.len() as u16
        }),
{
    lemma_extendable(m.phdrs, offset, addr, relocation::page_size(m.header.e_machine), 0);
}

/// Bringing the headers in line with the sections changes nothing but the segments, not
/// their number, and the dynamic entries that wait.
pub proof fn lemma_headers_updated(f: ElfState)
    requires
        f.headers_updated() is Some,
    ensures
        f.headers_updated()->0 == (ElfState {
            phdrs: f.headers_updated()->0.phdrs,
            replaced: f.headers_updated()->0.replaced,
            ..f
        }),
        f.headers_updated()->0.phdrs.len() == f.phdrs.len(),
{
}

/// Preparation leaves the bytes of the file and what waits already. Sections that
/// could be found can be found, and those of a sole name keep their headers.
pub proof fn lemma_prepared(s: ElfState, name: Seq<char>)
    requires
        s.prepared() is Some,
        s.shdrs.len() <= usize::MAX,
    ensures
        ({
            let p = s.prepared()->0;
            &&& p == ElfState {
                header: Header {
                    e_phnum: p.header.e_phnum,
                    e_shstrndx: p.header.e_shstrndx,
                    ..s.header
                },
                phdrs: p.phdrs,
                shdrs: p.shdrs,
                replaced: p.replaced,
                index_map: p.index_map,
                ..s
            }
            &&& s.header.e_phnum == s.phdrs.len() as u16 ==> p.header.e_phnum
                == p.phdrs.len() as u16
            &&& sections::ordered(s.replaced) ==> sections::ordered(p.replaced)
            &&& p.shdrs.len() == s.shdrs.len()
            &&& sections::lookup(s.replaced, name) is Some ==> sections::lookup(p.replaced, name)
                == sections::lookup(s.replaced, name)
            &&& s.find(name) is Some ==> p.find(name) is Some
            &&& s.sole(name) ==> p.sole(name) && p.section(name) == s.section(name)
            &&& s.sole(name) && s.in_file(s.section(name)->0) && sections::lookup(
                s.replaced,
                name,
            ) is None ==> (sections::lookup(p.replaced, name) is None || sections::lookup(
                p.replaced,
                name,
            ) == Some(s.body(s.section(name)->0)))
        }),
{
    let limit = s.table_end();
    let list = s.obstacles(limit, s.shdrs.len() as int);
    lemma_obstacles(s, limit, s.shdrs.len() as int);
    assert forall|j: int| 0 <= j < list.len() implies s.name_of((#[trigger] list[j]) as int) is Some
        by {
        assert(s.is_in_the_way(list[j] as int, limit));
    }
    lemma_lifted(s, list, 0, name);
    let l = s.lifted_from(list, 0)->0;
    if sections::lookup(s.replaced, name) is Some {
        assert forall|j: int| 0 <= j < list.len() implies s.name_of((#[trigger] list[j]) as int)
            != Some(name) by {
            assert(s.is_in_the_way(list[j] as int, limit));
        }
    }
    lemma_normalized(l);
    let n = l.normalized()->0;
    lemma_sorted(n);
    lemma_sorted_find(n, name);
    assert forall|j: int| 0 <= j < s.shdrs.len() implies #[trigger] n.name_of(j) == s.name_of(
        j,
    ) by {}
    assert(n.find(name) == s.find(name));
    assert(s.sole(name) ==> n.sole(name));
}

/// The stages of placing.
pub struct Stages {
    /// The state with the sections out of the way and sorted.
    pub p: ElfState,
    /// The state with the sections given their new places.
    pub m: ElfState,
    /// The state of a longer file whose segments load these.
    pub l: ElfState,
    /// The state with the headers and the dynamic entries in line with the sections.
    pub u: ElfState,
    /// The state with the contents written at their places.
    pub f: ElfState,
    /// Where the new places begin and end in the file and in memory.
    pub offset: int,
    pub addr: int,
    pub end: int,
    pub end_addr: int,
    /// The new length of the file.
    pub len: int,
    /// The alignment of the place where the new places begin.
    pub align: int,
}

/// Whether the placing of what waits goes through given stages, up to the writing of
/// the contents.
pub open spec fn can_stage(s: ElfState, x: Stages) -> bool {
    let grown = x.m.with_contents(edits::resized(x.m.contents, x.len));
    let top = relocation::top_address(s.phdrs, s.phdrs.len() as int);
    let least = relocation::top_align(
        s.phdrs,
        relocation::page_size(s.header.e_machine),
        s.phdrs.len() as int,
    );
    &&& s.prepared() == Some(x.p)
    &&& x.align == x.p.placing_align(least, x.p.replaced.len() as int)
    &&& x.offset == relocation::rounded(s.contents.len() as int, x.align)
    &&& x.addr == relocation::rounded(top, x.align)
    &&& s.contents.len() <= x.offset
    &&& 0 <= x.addr <= u64::MAX
    &&& x.p.placed_from(x.offset, x.addr, 0) == Some((x.m, x.end, x.end_addr))
    &&& x.len == x.p.placed_len(x.offset, x.end)
    &&& x.len <= isize::MAX
    &&& grown.loading(x.offset, x.addr, x.end - x.offset + 1, x.end_addr - x.addr) == Some(x.l)
    &&& x.l.headers_updated() == Some(x.u)
}

/// Whether the placing of what waits goes through given stages.
pub open spec fn is_staged(s: ElfState, x: Stages) -> bool {
    &&& can_stage(s, x)
    &&& x.u.filled_from(0) == Some(x.f)
    &&& s.relocated() == Some(x.f.dyns_trimmed())
}

/// The stages that the placing of what waits goes through.
pub proof fn lemma_stages(s: ElfState) -> (x: Stages)
    requires
        s.relocated() is Some,
        s.shdrs.len() <= usize::MAX,
    ensures
        is_staged(s, x),
{
    let p = s.prepared()->0;
    lemma_prepared(s, Seq::empty());
    let top = relocation::top_address(s.phdrs, s.phdrs.len() as int);
    let least = relocation::top_align(
        s.phdrs,
        relocation::page_size(s.header.e_machine),
        s.phdrs.len() as int,
    );
    let align = p.placing_align(least, p.replaced.len() as int);
    lemma_top(s.phdrs, s.phdrs.len() as int);
    lemma_top_align(s.phdrs, relocation::page_size(s.header.e_machine), s.phdrs.len() as int);
    lemma_placing_align(p, least, p.replaced.len() as int);
    let addr = relocation::rounded(top, align);
    let offset = relocation::rounded(p.contents.len() as int, align);
    relocation::lemma_rounded(top, align);
    relocation::lemma_rounded(p.contents.len() as int, align);
    let (m, end, end_addr) = p.placed_from(offset, addr, 0)->0;
    let len = p.placed_len(offset, end);
    let grown = m.with_contents(edits::resized(m.contents, len));
    let l = grown.loading(offset, addr, end - offset + 1, end_addr - addr)->0;
    let u = l.headers_updated()->0;
    let f = u.filled_from(0)->0;
    Stages { p, m, l, u, f, offset, addr, end, end_addr, len, align }
}

/// What the stages of placing have in common. The sections whose content does not wait
/// stay. The others get places of their size behind the old end of the file.
pub proof fn lemma_can_stage(s: ElfState, x: Stages)
    requires
        s.shdrs.len() <= usize::MAX,
        can_stage(s, x),
    ensures
        sections::ordered(s.replaced) ==> sections::ordered(x.p.replaced),
        x.p.contents == s.contents,
        x.p.ctx == s.ctx,
        x.p.shstrtab == s.shstrtab,
        x.m == (ElfState { shdrs: x.m.shdrs, ..x.p }),
        x.l == (ElfState {
            contents: edits::resized(s.contents, x.len),
            phdrs: x.l.phdrs,
            header: Header { e_phnum: x.l.header.e_phnum, ..x.p.header },
            ..x.m
        }),
        x.u == (ElfState { phdrs: x.u.phdrs, replaced: x.u.replaced, ..x.l }),
        x.u.phdrs.len() == x.l.phdrs.len(),
        x.offset <= x.end < x.len,
        x.addr <= x.end_addr <= u64::MAX,
        x.u.shdrs.len() == s.shdrs.len(),
        x.p.shdrs.len() == s.shdrs.len(),
        s.header.e_phnum == s.phdrs.len() as u16 ==> x.u.header.e_phnum == x.u.phdrs.len() as u16,
        forall|i: int|
            0 <= i < x.u.shdrs.len() ==> (#[trigger] x.u.shdrs[i]).sh_name == x.p.shdrs[i].sh_name,
        forall|name: Seq<char>| #[trigger] x.u.find(name) == x.p.find(name),
        forall|i: int|
            0 <= i < x.u.shdrs.len() && (forall|j: int|
                0 <= j < x.p.replaced.len() ==> x.p.find((#[trigger] x.p.replaced[j]).0) != Some(
                    i,
                )) ==> #[trigger] x.u.shdrs[i] == x.p.shdrs[i],
        sections::ordered(s.replaced) ==> forall|j: int|
            0 <= j < x.p.replaced.len() ==> (x.p.find((#[trigger] x.p.replaced[j]).0) matches Some(
                i,
            ) ==> {
                &&& x.u.shdrs[i].sh_size == x.p.replaced[j].1.len()
                &&& s.contents.len() <= x.u.shdrs[i].sh_offset
                &&& x.u.shdrs[i].sh_offset + x.p.replaced[j].1.len() <= x.end
            }),
{
    let grown = x.m.with_contents(edits::resized(x.m.contents, x.len));
    lemma_prepared(s, Seq::empty());
    lemma_placed(x.p, x.offset, x.addr, 0);
    lemma_loading(grown, x.offset, x.addr, x.end - x.offset + 1, x.end_addr - x.addr);
    lemma_headers_updated(x.l);
    lemma_top(s.phdrs, s.phdrs.len() as int);
    assert forall|name: Seq<char>| #[trigger] x.u.find(name) == x.p.find(name) by {
        assert(x.m.find(name) == x.p.find(name));
    }
    assert forall|j: int|
        sections::ordered(s.replaced) && 0 <= j < x.p.replaced.len() implies (x.p.find(
        (#[trigger] x.p.replaced[j]).0,
    ) matches Some(i) ==> {
        &&& x.u.shdrs[i].sh_size == x.p.replaced[j].1.len()
        &&& s.contents.len() <= x.u.shdrs[i].sh_offset
        &&& x.u.shdrs[i].sh_offset + x.p.replaced[j].1.len() <= x.end
    }) by {
        if x.p.find(x.p.replaced[j].0) is Some {
            lemma_placed_at(x.p, x.offset, x.addr, 0, j);
        }
    }
}

/// Writing the contents changes nothing but the bytes of the file. After that nothing
/// changes but the dynamic entries that wait, which may lose what stands behind the null
/// entry.
pub proof fn lemma_staged(s: ElfState, x: Stages)
    requires
        s.relocated() is Some,
        is_staged(s, x),
    ensures
        ({
            let t = s.relocated()->0;
            let before = sections::lookup(x.u.replaced, ".dynamic"@);
            let after = sections::lookup(t.replaced, ".dynamic"@);
            &&& x.f == x.u.with_contents(x.f.contents)
            &&& x.f.contents.len() == x.u.contents.len()
            &&& t == ElfState { contents: x.f.contents, replaced: t.replaced, ..x.u }
            &&& sections::ordered(x.u.replaced) ==> sections::ordered(t.replaced)
            &&& forall|name: Seq<char>|
                name != ".dynamic"@ ==> #[trigger] sections::lookup(t.replaced, name)
                    == sections::lookup(x.u.replaced, name)
            &&& after is Some == before is Some
            &&& after matches Some(content) ==> content == before->0 || content
                == state::dyns_bytes(state::dyns_from(before->0, x.u.ctx, 0), x.u.ctx)
        }),
{
    let t = s.relocated()->0;
    lemma_filled_rest(x.u, 0);
    if let Some(h) = x.f.section(".dynamic"@) {
        let content = state::dyns_bytes(x.f.dyns(h), x.f.ctx);
        sections::lemma_lookup_put(x.f.replaced, ".dynamic"@, content, ".dynamic"@);
        if sections::ordered(x.f.replaced) {
            sections::lemma_put_ordered(x.f.replaced, ".dynamic"@, content);
        }
        assert forall|name: Seq<char>|
            name != ".dynamic"@ implies #[trigger] sections::lookup(t.replaced, name)
            == sections::lookup(x.u.replaced, name) by {
            sections::lemma_lookup_put(x.f.replaced, ".dynamic"@, content, name);
        }
    }
}

/// Placing leaves the names of the sections and the sections whose content does not
/// wait. The others get places of their size behind the old end of the file.
pub proof fn lemma_relocated(s: ElfState)
    requires
        s.relocated() is Some,
        s.shdrs.len() <= usize::MAX,
    ensures
        ({
            let p = s.prepared()->0;
            let t = s.relocated()->0;
            &&& s.prepared() is Some
            &&& t == ElfState {
                contents: t.contents,
                header: Header {
                    e_phnum: t.header.e_phnum,
                    e_shstrndx: p.header.e_shstrndx,
                    ..s.header
                },
                phdrs: t.phdrs,
                shdrs: t.shdrs,
                replaced: t.replaced,
                index_map: p.index_map,
                ..s
            }
            &&& s.header.e_phnum == s.phdrs.len() as u16 ==> t.header.e_phnum
                == t.phdrs.len() as u16
            &&& s.contents.len() < t.contents.len() <= isize::MAX
            &&& t.shdrs.len() == s.shdrs.len()
            &&& forall|i: int|
                0 <= i < t.shdrs.len() ==> (#[trigger] t.shdrs[i]).sh_name == p.shdrs[i].sh_name
            &&& forall|name: Seq<char>| #[trigger] t.find(name) == p.find(name)
            &&& forall|i: int|
                0 <= i < t.shdrs.len() && (forall|j: int|
                    0 <= j < p.replaced.len() ==> p.find((#[trigger] p.replaced[j]).0) != Some(i))
                    ==> #[trigger] t.shdrs[i] == p.shdrs[i]
            &&& sections::ordered(s.replaced) ==> forall|j: int|
                0 <= j < p.replaced.len() ==> (p.find((#[trigger] p.replaced[j]).0) matches Some(i)
                    ==> {
                    &&& t.shdrs[i].sh_size == p.replaced[j].1.len()
                    &&& s.contents.len() <= t.shdrs[i].sh_offset
                    &&& t.shdrs[i].sh_offset + p.replaced[j].1.len() < t.contents.len()
                })
        }),
{
    let p = s.prepared()->0;
    let t = s.relocated()->0;
    lemma_prepared(s, Seq::empty());
    let x = lemma_stages(s);
    lemma_staged(s, x);
    lemma_can_stage(s, x);
    assert forall|name: Seq<char>| #[trigger] t.find(name) == p.find(name) by {
        assert(x.u.find(name) == p.find(name));
    }
    assert forall|i: int|
        0 <= i < t.shdrs.len() && (forall|j: int|
            0 <= j < p.replaced.len() ==> p.find((#[trigger] p.replaced[j]).0) != Some(
                i,
            )) implies #[trigger] t.shdrs[i] == p.shdrs[i] by {
        assert(x.u.shdrs[i] == p.shdrs[i]);
    }
}

pub(crate) proof fn lemma_top(phdrs: Seq<ProgramHeader>, n: int)
    ensures
        relocation::top_address(phdrs, n) >= 0,
    decreases n,
{
    if n > 0 {
        lemma_top(phdrs, n - 1);
    }
}

pub(crate) proof fn lemma_top_align(phdrs: Seq<ProgramHeader>, least: int, n: int)
    ensures
        relocation::top_align(phdrs, least, n) >= least,
    decreases n,
{
    if n > 0 {
        lemma_top_align(phdrs, least, n - 1);
    }
}

pub(crate) proof fn lemma_placing_align(p: ElfState, least: int, n: int)
    ensures
        p.placing_align(least, n) >= least,
    decreases n,
{
    if n > 0 {
        lemma_placing_align(p, least, n - 1);
    }
}

/// Preparation sorts the section headers.
pub proof fn lemma_prepared_shdrs(s: ElfState)
    requires
        s.prepared() is Some,
        s.shdrs.len() <= usize::MAX,
    ensures
        s.prepared()->0.shdrs == s.sorted().shdrs,
        s.prepared()->0.index_map == s.sorted().index_map,
        s.prepared()->0.header.e_shstrndx == s.sorted().header.e_shstrndx,
{
    let limit = s.table_end();
    let list = s.obstacles(limit, s.shdrs.len() as int);
    lemma_obstacles(s, limit, s.shdrs.len() as int);
    assert forall|j: int| 0 <= j < list.len() implies s.name_of((#[trigger] list[j]) as int) is Some
        by {
        assert(s.is_in_the_way(list[j] as int, limit));
    }
    lemma_lifted(s, list, 0, Seq::empty());
    lemma_normalized(s.lifted_from(list, 0)->0);
}

/// The owner of a place has it.
pub proof fn lemma_owner(shdrs: Seq<SectionHeader>, names: Seq<u8>, h: SectionHeader, i: int)
    requires
        0 <= i,
    ensures
        state::owner_from(shdrs, names, h, i) matches Some(name) ==> exists|j: int|
            i <= j < shdrs.len() && (#[trigger] shdrs[j]).sh_offset == h.sh_offset
                && shdrs[j].sh_size == h.sh_size && state::section_name(shdrs, names, j) == Some(
                name,
            ),
    decreases shdrs.len() - i,
{
    if i < shdrs.len() && !(shdrs[i].sh_offset == h.sh_offset && shdrs[i].sh_size == h.sh_size) {
        lemma_owner(shdrs, names, h, i + 1);
    }
}

/// The dynamic entries, with the values that the sections give them.
pub open spec fn updated(f: ElfState, entries: Seq<Dyn>) -> Seq<Dyn> {
    Seq::new(entries.len(), |i: int| f.updated_entry(entries[i]))
}

/// The dynamic entries that are brought in line are those that waited or stood in the
/// file. They keep their size, and nothing else that waits changes.
pub(crate) proof fn lemma_dynamic_stage(s: ElfState, x: Stages)
    requires
        sections::ordered(s.replaced),
        s.shdrs.len() <= usize::MAX,
        can_stage(s, x),
        s.dynamic_settled(),
    ensures
        sections::ordered(x.u.replaced),
        forall|name: Seq<char>|
            name != ".dynamic"@ ==> #[trigger] sections::lookup(x.u.replaced, name)
                == sections::lookup(x.p.replaced, name),
        s.section(".dynamic"@) is None ==> x.u.replaced == x.p.replaced,
        s.section(".dynamic"@) matches Some(h) ==> {
            let data = match sections::lookup(s.replaced, ".dynamic"@) {
                Some(content) => content,
                None => s.body(h),
            };
            let place = x.u.section(".dynamic"@)->0;
            let entries = state::dyns_from(data, s.ctx, 0);
            let all = updated(x.u, entries);
            let content = edits::overlaid(data, 0, state::dyns_bytes(all, s.ctx));
            &&& x.u.section(".dynamic"@) is Some
            &&& place.sh_size == data.len()
            &&& place.sh_offset + place.sh_size <= x.end
            &&& sections::lookup(x.p.replaced, ".dynamic"@) is None ==> Some(place) == s.section(
                ".dynamic"@,
            )
            &&& sections::lookup(x.p.replaced, ".dynamic"@) is Some ==> s.contents.len()
                <= place.sh_offset
            &&& sections::lookup(x.p.replaced, ".dynamic"@) matches Some(c) ==> c == data
            &&& sections::lookup(x.u.replaced, ".dynamic"@) == Some(content) || (
            sections::lookup(x.u.replaced, ".dynamic"@) == sections::lookup(
                x.p.replaced,
                ".dynamic"@,
            ) && all == entries)
            &&& sections::lookup(x.u.replaced, ".dynamic"@) is None ==> x.u.pending(place) is None
            &&& x.u.updates(entries) ==> sections::lookup(x.u.replaced, ".dynamic"@) == Some(
                content,
            )
        },
{
    let name = ".dynamic"@;
    lemma_can_stage(s, x);
    lemma_prepared(s, name);
    lemma_prepared_shdrs(s);
    lemma_sorted(s);
    lemma_placed(x.p, x.offset, x.addr, 0);
    let arranged = ElfState { phdrs: relocation::by_key(x.l.phdrs), ..x.l }.synced();
    assert(x.l.find(name) == x.u.find(name));
    assert(arranged.section(name) == x.l.section(name));
    lemma_found(s.shdrs, s.shstrtab, name, 0);
    lemma_found(x.p.shdrs, x.p.shstrtab, name, 0);
    assert forall|tag: u64| #[trigger] arranged.value_for(tag) == x.u.value_for(tag) by {
        lemma_same_values(arranged, x.u, tag);
    }
    if let Some(h) = s.section(name) {
        let data = match sections::lookup(s.replaced, name) {
            Some(content) => content,
            None => s.body(h),
        };
        let i = x.p.find(name)->0;
        let place = x.u.section(name)->0;
        if sections::lookup(x.p.replaced, name) is Some {
            let k = lemma_lookup_position(x.p.replaced, name);
            assert(x.p.find(x.p.replaced[k].0) == Some(i));
            if sections::lookup(s.replaced, name) is None {
                assert(s.body(h).len() == h.sh_size);
            }
        } else {
            assert forall|j: int| 0 <= j < x.p.replaced.len() implies x.p.find(
                (#[trigger] x.p.replaced[j]).0,
            ) != Some(i) by {
                lemma_found(x.p.shdrs, x.p.shstrtab, x.p.replaced[j].0, 0);
                lemma_lookup_present(x.p.replaced, j);
            }
            assert(x.u.shdrs[i] == x.p.shdrs[i]);
            assert(place == h);
            assert(x.l.body(h) =~= s.body(h));
            lemma_owner(x.l.shdrs, x.l.shstrtab, h, 0);
            if let Some(n) = x.l.owner(h) {
                let j = choose|j: int|
                    0 <= j < x.l.shdrs.len() && (#[trigger] x.l.shdrs[j]).sh_offset == h.sh_offset
                        && x.l.shdrs[j].sh_size == h.sh_size && state::section_name(
                        x.l.shdrs,
                        x.l.shstrtab,
                        j,
                    ) == Some(n);
                if exists|q: int|
                    0 <= q < x.p.replaced.len() && x.p.find((#[trigger] x.p.replaced[q]).0)
                        == Some(j) {
                    let q = choose|q: int|
                        0 <= q < x.p.replaced.len() && x.p.find((#[trigger] x.p.replaced[q]).0)
                            == Some(j);
                    assert(s.contents.len() <= x.u.shdrs[j].sh_offset);
                    assert(false);
                }
                assert(x.u.shdrs[j] == x.p.shdrs[j]);
                assert(s.sorting()[j] < s.shdrs.len());
                assert(x.p.shdrs[j] == s.shdrs[s.sorting()[j] as int]);
                assert(s.name_of(s.sorting()[j] as int) == Some(".dynamic"@));
                assert(n == ".dynamic"@);
            }
            assert(x.l.pending(h) is None);
        }
        assert(arranged.owner(place) == x.l.owner(place));
        assert(arranged.dyn_data(place) == Some(data));
        let entries = state::dyns_from(data, s.ctx, 0);
        assert(arranged.dyns(place) == entries);
        let all = updated(x.u, entries);
        assert(all =~= Seq::new(entries.len(), |j: int| arranged.updated_entry(entries[j])));
        let content = edits::overlaid(data, 0, state::dyns_bytes(all, s.ctx));
        sections::lemma_put_ordered(x.p.replaced, name, content);
        assert forall|n: Seq<char>| n != name implies #[trigger] sections::lookup(
            sections::put(x.p.replaced, name, content),
            n,
        ) == sections::lookup(x.p.replaced, n) by {
            sections::lemma_lookup_put(x.p.replaced, name, content, n);
        }
        sections::lemma_lookup_put(x.p.replaced, name, content, name);
        if x.u.updates(entries) {
            let j = choose|j: int|
                0 <= j < entries.len() && x.u.value_for((#[trigger] entries[j]).d_tag) is Some;
            assert(arranged.value_for(entries[j].d_tag) is Some);
            assert(arranged.updates(entries));
        }
        if !arranged.updates(entries) {
            assert(all =~= entries) by {
                assert forall|j: int| 0 <= j < entries.len() implies all[j] == entries[j] by {
                    assert(arranged.value_for(entries[j].d_tag) is None);
                }
            }
        }
    } else {
        assert(x.p.section(name) is None) by {
            if x.p.section(name) is Some {
                let i = x.p.find(name)->0;
                assert(s.name_of(s.sorting()[i] as int) == Some(name));
                state::lemma_named(s.shdrs, s.shstrtab, name, 0, s.sorting()[i] as int);
            }
        }
        assert(arranged.section(name) is None);
    }
}

/// Sections at the same places give entries the same values.
pub proof fn lemma_same_values(a: ElfState, b: ElfState, tag: u64)
    requires
        a.shdrs == b.shdrs,
        a.shstrtab == b.shstrtab,
    ensures
        a.value_for(tag) == b.value_for(tag),
{
    assert forall|name: Seq<char>| #[trigger] a.section(name) == b.section(name) by {}
}

/// The places of two contents have nothing in common.
pub(crate) proof fn lemma_places_apart(s: ElfState, x: Stages, one: Seq<char>, other: Seq<char>)
    requires
        sections::ordered(s.replaced),
        s.shdrs.len() <= usize::MAX,
        can_stage(s, x),
        s.dynamic_settled(),
        one != other,
        x.u.section(one) is Some,
        x.u.section(other) is Some,
        sections::lookup(x.u.replaced, one) is Some,
        sections::lookup(x.u.replaced, other) is Some,
    ensures
        reread::apart(
            x.u.section(one)->0.sh_offset as int,
            x.u.section(one)->0.sh_offset + sections::lookup(x.u.replaced, one)->0.len(),
            x.u.section(other)->0.sh_offset as int,
            x.u.section(other)->0.sh_offset + sections::lookup(x.u.replaced, other)->0.len(),
        ),
{
    lemma_can_stage(s, x);
    lemma_dynamic_stage(s, x);
    lemma_prepared(s, ".dynamic"@);
    lemma_placed(x.p, x.offset, x.addr, 0);
    assert(x.m.find(one) == x.p.find(one) && x.m.find(other) == x.p.find(other));
    assert(x.u.find(one) == x.p.find(one) && x.u.find(other) == x.p.find(other));
    lemma_found(x.p.shdrs, x.p.shstrtab, one, 0);
    lemma_found(x.p.shdrs, x.p.shstrtab, other, 0);
    let first = sections::lookup(x.p.replaced, one);
    let second = sections::lookup(x.p.replaced, other);
    if first is Some {
        let j = lemma_lookup_position(x.p.replaced, one);
        lemma_placed_at(x.p, x.offset, x.addr, 0, j);
        if second is Some {
            let k = lemma_lookup_position(x.p.replaced, other);
            lemma_placed_at(x.p, x.offset, x.addr, 0, k);
            assert(x.p.find(x.p.replaced[j].0) is Some);
            assert(x.p.find(x.p.replaced[k].0) is Some);
            assert(j != k);
        }
    } else if second is Some {
        let k = lemma_lookup_position(x.p.replaced, other);
        lemma_placed_at(x.p, x.offset, x.addr, 0, k);
    }
}

/// What waits is written at the places of the sections.
pub(crate) proof fn lemma_contents_staged(s: ElfState, x: Stages, name: Seq<char>)
    requires
        s.relocated() is Some,
        sections::ordered(s.replaced),
        s.shdrs.len() <= usize::MAX,
        s.dynamic_settled(),
        is_staged(s, x),
        x.u.section(name) is Some,
        sections::lookup(x.u.replaced, name) is Some,
    ensures
        ({
            let h = x.u.section(name)->0;
            let content = sections::lookup(x.u.replaced, name)->0;
            &&& h.sh_size == content.len()
            &&& x.f.in_file(h)
            &&& x.f.body(h) == content
            &&& s.relocated()->0.section(name) == Some(h)
            &&& s.relocated()->0.in_file(h)
            &&& s.relocated()->0.body(h) == content
        }),
{
    let t = s.relocated()->0;
    lemma_staged(s, x);
    lemma_can_stage(s, x);
    lemma_dynamic_stage(s, x);
    assert(x.u.find(name) == x.p.find(name));
    assert(t.section(name) == x.u.section(name));
    let h = x.u.section(name)->0;
    let k = lemma_lookup_position(x.u.replaced, name);
    let content = x.u.replaced[k].1;
    assert forall|q: int| k + 1 <= q < x.u.replaced.len() implies (x.u.section(
        (#[trigger] x.u.replaced[q]).0,
    ) matches Some(g) ==> reread::apart(
        g.sh_offset as int,
        g.sh_offset + x.u.replaced[q].1.len(),
        h.sh_offset as int,
        h.sh_offset + content.len(),
    )) by {
        if x.u.section(x.u.replaced[q].0) is Some {
            lemma_ordered_distinct(x.u.replaced, k, q);
            lemma_lookup_present(x.u.replaced, q);
            lemma_lookup_at(x.u.replaced, q);
            lemma_places_apart(s, x, x.u.replaced[q].0, name);
        }
    }
    lemma_filled_at(x.u, 0, k);
    if sections::lookup(x.p.replaced, name) is Some {
        let j = lemma_lookup_position(x.p.replaced, name);
        assert(x.p.find(x.p.replaced[j].0) is Some);
    }
}

/// What waits is found at the places of the sections. Of dynamic entries more may be found
/// than waits.
pub proof fn lemma_contents(s: ElfState, name: Seq<char>)
    requires
        s.relocated() is Some,
        sections::ordered(s.replaced),
        s.shdrs.len() <= usize::MAX,
        s.dynamic_settled(),
        s.relocated()->0.section(name) is Some,
        sections::lookup(s.relocated()->0.replaced, name) is Some,
    ensures
        ({
            let t = s.relocated()->0;
            let h = t.section(name)->0;
            &&& t.in_file(h)
            &&& name != ".dynamic"@ ==> Some(t.body(h)) == sections::lookup(t.replaced, name)
        }),
{
    let x = lemma_stages(s);
    lemma_staged(s, x);
    assert(x.u.section(name) == s.relocated()->0.section(name));
    lemma_contents_staged(s, x, name);
}

/// The places of contents have nothing in common.
pub proof fn lemma_contents_apart(s: ElfState, name: Seq<char>, other: Seq<char>)
    requires
        s.relocated() is Some,
        sections::ordered(s.replaced),
        s.shdrs.len() <= usize::MAX,
        s.dynamic_settled(),
        name != other,
        s.relocated()->0.section(name) is Some,
        s.relocated()->0.section(other) is Some,
        sections::lookup(s.relocated()->0.replaced, name) is Some,
        sections::lookup(s.relocated()->0.replaced, other) is Some,
    ensures
        ({
            let t = s.relocated()->0;
            let h = t.section(name)->0;
            let g = t.section(other)->0;
            &&& reread::apart(
                h.sh_offset as int,
                h.sh_offset + h.sh_size,
                g.sh_offset as int,
                g.sh_offset + g.sh_size,
            )
            &&& name != ".dynamic"@ ==> s.contents.len() <= h.sh_offset
            &&& name != ".dynamic"@ && sections::lookup(s.replaced, name) is Some
                ==> sections::lookup(t.replaced, name) == sections::lookup(s.replaced, name)
        }),
{
    let t = s.relocated()->0;
    let x = lemma_stages(s);
    lemma_staged(s, x);
    lemma_can_stage(s, x);
    lemma_dynamic_stage(s, x);
    lemma_prepared(s, name);
    assert(x.u.section(name) == t.section(name));
    assert(x.u.section(other) == t.section(other));
    assert(x.u.find(name) == x.p.find(name));
    assert(sections::lookup(x.u.replaced, name) is Some);
    assert(sections::lookup(x.u.replaced, other) is Some);
    lemma_contents_staged(s, x, name);
    lemma_contents_staged(s, x, other);
    lemma_places_apart(s, x, name, other);
    if name != ".dynamic"@ {
        let k = lemma_lookup_position(x.p.replaced, name);
        assert(x.p.find(x.p.replaced[k].0) is Some);
    }
}

/// The contents can be written at the places that their sections were given.
pub proof fn lemma_room(s: ElfState, x: Stages)
    requires
        sections::ordered(s.replaced),
        s.shdrs.len() <= usize::MAX,
        s.dynamic_settled(),
        can_stage(s, x),
    ensures
        x.u.filled_from(0) is Some,
{
    lemma_can_stage(s, x);
    lemma_dynamic_stage(s, x);
    lemma_prepared(s, ".dynamic"@);
    assert forall|j: int| 0 <= j < x.u.replaced.len() implies (x.u.section(
        (#[trigger] x.u.replaced[j]).0,
    ) matches Some(h) ==> h.sh_offset + x.u.replaced[j].1.len() <= x.u.contents.len()) by {
        let name = x.u.replaced[j].0;
        if x.u.section(name) is Some {
            lemma_lookup_at(x.u.replaced, j);
            assert(x.u.find(name) == x.p.find(name));
            if sections::lookup(x.p.replaced, name) is Some {
                let k = lemma_lookup_position(x.p.replaced, name);
                assert(x.p.find(x.p.replaced[k].0) is Some);
            }
        }
    }
    lemma_filling(x.u, 0);
}

/// What stands at a position among ordered names is found under its name.
pub proof fn lemma_lookup_at(m: Seq<(Seq<char>, Seq<u8>)>, k: int)
    requires
        sections::ordered(m),
        0 <= k < m.len(),
    ensures
        sections::lookup(m, m[k].0) == Some(m[k].1),
{
    lemma_lookup_present(m, k);
    let j = lemma_lookup_position(m, m[k].0);
    if j < k {
        lemma_ordered_distinct(m, j, k);
    } else if k < j {
        lemma_ordered_distinct(m, k, j);
    }
}

/// The bytes that the file had stay, but for dynamic entries that are brought in line at
/// their old place.
pub proof fn lemma_old_bytes(s: ElfState, from: int, to: int)
    requires
        s.relocated() is Some,
        sections::ordered(s.replaced),
        s.shdrs.len() <= usize::MAX,
        s.dynamic_settled(),
        0 <= from <= to <= s.contents.len(),
        s.section(".dynamic"@) matches Some(h) ==> sections::lookup(
            s.replaced,
            ".dynamic"@,
        ) is Some || reread::apart(
            from,
            to,
            h.sh_offset as int,
            h.sh_offset + h.sh_size,
        ),
    ensures
        s.relocated()->0.contents.subrange(from, to) == s.contents.subrange(from, to),
{
    let x = lemma_stages(s);
    lemma_staged(s, x);
    lemma_can_stage(s, x);
    lemma_dynamic_stage(s, x);
    lemma_relocated(s);
    lemma_prepared(s, ".dynamic"@);
    let t = s.relocated()->0;
    assert forall|j: int| 0 <= j < x.u.replaced.len() implies (x.u.section(
        (#[trigger] x.u.replaced[j]).0,
    ) matches Some(g) ==> reread::apart(
        g.sh_offset as int,
        g.sh_offset + x.u.replaced[j].1.len(),
        from,
        to,
    )) by {
        let name = x.u.replaced[j].0;
        if x.u.section(name) is Some {
            assert(x.u.find(name) == t.find(name));
            assert(t.find(name) == x.p.find(name));
            lemma_lookup_at(x.u.replaced, j);
            if sections::lookup(x.p.replaced, name) is Some {
                let k = lemma_lookup_position(x.p.replaced, name);
                assert(x.p.find(x.p.replaced[k].0) is Some);
            }
        }
    }
    lemma_filled(x.u, 0, from, to);
    assert(x.u.contents.subrange(from, to) =~= s.contents.subrange(from, to));
}

/// A content that waits is then found at the place of its section, which lies behind
/// the old end of the file.
pub proof fn lemma_pending_placed(s: ElfState, name: Seq<char>)
    requires
        s.relocated() is Some,
        sections::ordered(s.replaced),
        s.shdrs.len() <= usize::MAX,
        s.dynamic_settled(),
        s.find(name) is Some,
        sections::lookup(s.replaced, name) is Some,
        name != ".dynamic"@,
    ensures
        ({
            let t = s.relocated()->0;
            let h = t.section(name)->0;
            let content = sections::lookup(s.replaced, name)->0;
            &&& t.section(name) is Some
            &&& h.sh_size == content.len()
            &&& s.contents.len() <= h.sh_offset
            &&& t.in_file(h)
            &&& t.body(h) == content
            &&& sections::lookup(t.replaced, name) == Some(content)
        }),
{
    let t = s.relocated()->0;
    let x = lemma_stages(s);
    lemma_staged(s, x);
    lemma_can_stage(s, x);
    lemma_dynamic_stage(s, x);
    lemma_relocated(s);
    lemma_prepared(s, name);
    let k = lemma_lookup_position(x.p.replaced, name);
    assert(t.find(name) == x.p.find(name));
    assert(x.p.find(x.p.replaced[k].0) is Some);
    lemma_contents(s, name);
}

/// A section of a sole name whose content does not wait keeps its content, whether it
/// has to give way or not.
pub proof fn lemma_section_kept(s: ElfState, name: Seq<char>)
    requires
        s.relocated() is Some,
        sections::ordered(s.replaced),
        s.shdrs.len() <= usize::MAX,
        s.dynamic_settled(),
        s.sole(name),
        s.in_file(s.section(name)->0),
        sections::lookup(s.replaced, name) is None,
        name != ".dynamic"@,
        s.beside_dynamic(s.section(name)->0),
    ensures
        ({
            let t = s.relocated()->0;
            let h = t.section(name)->0;
            &&& t.section(name) is Some
            &&& h.sh_size == s.section(name)->0.sh_size
            &&& t.in_file(h)
            &&& t.body(h) == s.body(s.section(name)->0)
            &&& sections::lookup(t.replaced, name) matches Some(content) ==> content == t.body(h)
        }),
{
    let t = s.relocated()->0;
    let h = s.section(name)->0;
    let x = lemma_stages(s);
    lemma_staged(s, x);
    lemma_can_stage(s, x);
    lemma_dynamic_stage(s, x);
    lemma_relocated(s);
    lemma_prepared(s, name);
    assert(t.find(name) == x.p.find(name));
    lemma_found(x.p.shdrs, x.p.shstrtab, name, 0);
    let i = x.p.find(name)->0;
    if sections::lookup(x.p.replaced, name) is Some {
        lemma_contents(s, name);
        assert(s.body(h).len() == h.sh_size);
    } else {
        assert forall|j: int| 0 <= j < x.p.replaced.len() implies x.p.find(
            (#[trigger] x.p.replaced[j]).0,
        ) != Some(i) by {
            lemma_found(x.p.shdrs, x.p.shstrtab, x.p.replaced[j].0, 0);
            lemma_lookup_present(x.p.replaced, j);
        }
        assert(t.shdrs[i] == h);
        lemma_old_bytes(s, h.sh_offset as int, h.sh_offset + h.sh_size);
    }
}

/// The dynamic entries in the file are those that waited or stood there, with the
/// values that the sections give them.
pub proof fn lemma_dynamic_placed(s: ElfState)
    requires
        s.relocated() is Some,
        sections::ordered(s.replaced),
        s.shdrs.len() <= usize::MAX,
        s.dynamic_settled(),
        s.section(".dynamic"@) is Some,
        s.relocated()->0.values_fit(),
    ensures
        ({
            let t = s.relocated()->0;
            let data = match sections::lookup(s.replaced, ".dynamic"@) {
                Some(content) => content,
                None => s.body(s.section(".dynamic"@)->0),
            };
            let h = t.section(".dynamic"@)->0;
            let all = updated(t, state::dyns_from(data, s.ctx, 0));
            &&& t.section(".dynamic"@) is Some
            &&& t.in_file(h)
            &&& h.sh_size == data.len()
            &&& state::dyns_from(t.body(h), s.ctx, 0) == all
            &&& t.dyn_data(h) is Some
            &&& t.dyns(h) == all
        }),
{
    let t = s.relocated()->0;
    let name = ".dynamic"@;
    let x = lemma_stages(s);
    lemma_staged(s, x);
    lemma_can_stage(s, x);
    lemma_dynamic_stage(s, x);
    lemma_relocated(s);
    lemma_prepared(s, name);
    let h = s.section(name)->0;
    let data = match sections::lookup(s.replaced, name) {
        Some(content) => content,
        None => s.body(h),
    };
    let entries = state::dyns_from(data, s.ctx, 0);
    let place = t.section(name)->0;
    assert(t.find(name) == x.u.find(name));
    assert(updated(t, entries) =~= updated(x.u, entries)) by {
        assert forall|j: int| 0 <= j < entries.len() implies t.updated_entry(
            #[trigger] entries[j],
        ) == x.u.updated_entry(entries[j]) by {
            lemma_same_values(t, x.u, entries[j].d_tag);
        }
    }
    if let Some(content) = sections::lookup(x.u.replaced, name) {
        assert(x.u.section(name) == t.section(name));
        lemma_contents_staged(s, x, name);
        roundtrip::lemma_dyns_from_shape(content, s.ctx, 0);
        roundtrip::lemma_dyns_roundtrip(state::dyns_from(content, s.ctx, 0), s.ctx);
    }
    let all = updated(t, entries);
    roundtrip::lemma_dyns_from_shape(data, s.ctx, 0);
    assert forall|j: int| 0 <= j < all.len() implies roundtrip::dyn_fits(
        #[trigger] all[j],
        s.ctx,
    ) && all[j].d_tag == entries[j].d_tag by {
        assert(roundtrip::dyn_fits(entries[j], s.ctx));
    }
    roundtrip::lemma_dyns_overlaid(data, all, s.ctx);
    if sections::lookup(t.replaced, name) is None {
        // Nothing was brought in line, so the entries stay where they were.
        assert forall|j: int| 0 <= j < x.u.replaced.len() implies (x.u.section(
            (#[trigger] x.u.replaced[j]).0,
        ) matches Some(g) ==> reread::apart(
            g.sh_offset as int,
            g.sh_offset + x.u.replaced[j].1.len(),
            h.sh_offset as int,
            h.sh_offset + h.sh_size,
        )) by {
            let n = x.u.replaced[j].0;
            if x.u.section(n) is Some {
                assert(x.u.find(n) == t.find(n));
                assert(t.find(n) == x.p.find(n));
                lemma_lookup_at(x.u.replaced, j);
                let k = lemma_lookup_position(x.p.replaced, n);
                assert(x.p.find(x.p.replaced[k].0) is Some);
            }
        }
        lemma_filled(x.u, 0, h.sh_offset as int, h.sh_offset + h.sh_size);
        assert(x.u.contents.subrange(h.sh_offset as int, h.sh_offset + h.sh_size) =~= s.body(h));
    }
}

/// The section names are still where the file header says.
pub proof fn lemma_names_kept(s: ElfState)
    requires
        s.relocated() is Some,
        sections::ordered(s.replaced),
        s.dynamic_settled(),
        s.names_safe(),
    ensures
        ({
            let t = s.relocated()->0;
            let h = t.shdrs[t.header.e_shstrndx as int];
            &&& 0 < t.header.e_shstrndx < t.shdrs.len()
            &&& t.in_file(h)
            &&& t.body(h) == s.body(s.shdrs[s.header.e_shstrndx as int])
        }),
{
    let n = s.header.e_shstrndx as int;
    let h = s.shdrs[n];
    let p = s.prepared()->0;
    let t = s.relocated()->0;
    lemma_relocated(s);
    lemma_prepared(s, Seq::empty());
    lemma_prepared_shdrs(s);
    lemma_sorted(s);
    let o = s.sorting();
    let i = p.header.e_shstrndx as int;
    assert(o[i] == n);
    assert(p.shdrs[i] == h);
    if i == 0 {
        assert(o.contains(0));
        let a = choose|a: int| 0 <= a < o.len() && o[a] == 0;
        assert(order::stands_before(relocation::offsets(s.shdrs), o[0], o[a]));
    }
    match s.name_of(n) {
        None => {
            assert(p.name_of(i) is None);
            assert forall|j: int| 0 <= j < p.replaced.len() implies p.find(
                (#[trigger] p.replaced[j]).0,
            ) != Some(i) by {
                lemma_found(p.shdrs, p.shstrtab, p.replaced[j].0, 0);
            }
            assert(t.shdrs[i] == h);
            lemma_old_bytes(s, h.sh_offset as int, h.sh_offset + h.sh_size);
        },
        Some(name) => {
            lemma_prepared(s, name);
            assert(p.name_of(i) == Some(name));
            assert(p.find(name) == Some(i));
            assert(s.section(name) == Some(h)) by {
                assert(s.name_of(n) == Some(name));
            }
            lemma_section_kept(s, name);
            assert(t.find(name) == p.find(name));
        },
    }
}

/// Placing keeps the order of the names of the contents that wait.
pub proof fn lemma_relocated_ordered(s: ElfState)
    requires
        s.relocated() is Some,
        sections::ordered(s.replaced),
        s.shdrs.len() <= usize::MAX,
    ensures
        sections::ordered(s.relocated()->0.replaced),
{
    let x = lemma_stages(s);
    lemma_staged(s, x);
    lemma_can_stage(s, x);
    let arranged = ElfState { phdrs: relocation::by_key(x.l.phdrs), ..x.l }.synced();
    if let Some(h) = arranged.section(".dynamic"@) {
        let entries = arranged.dyns(h);
        sections::lemma_put_ordered(
            x.l.replaced,
            ".dynamic"@,
            edits::overlaid(
                arranged.dyn_data(h)->0,
                0,
                state::dyns_bytes(
                    Seq::new(entries.len(), |i: int| arranged.updated_entry(entries[i])),
                    x.l.ctx,
                ),
            ),
        );
    }
}

/// Whether a loaded segment covers a section, in the file and in memory.
pub open spec fn loads(p: ProgramHeader, h: SectionHeader) -> bool {
    &&& p.p_type == PT_LOAD
    &&& p.p_offset <= h.sh_offset
    &&& h.sh_offset + h.sh_size <= p.p_offset + p.p_filesz
    &&& p.p_vaddr <= h.sh_addr
    &&& h.sh_addr + h.sh_size <= p.p_vaddr + p.p_memsz
}

/// Whether a segment covers a section and nothing else.
pub open spec fn covers(p: ProgramHeader, h: SectionHeader) -> bool {
    &&& p.p_offset == h.sh_offset
    &&& p.p_filesz == h.sh_size
    &&& p.p_vaddr == h.sh_addr
    &&& p.p_paddr == h.sh_addr
    &&& p.p_memsz == h.sh_size
}

/// A segment that can be extended ends before the new bytes.
proof fn lemma_extended(phdrs: Seq<ProgramHeader>, offset: int, addr: int, page: int, i: int)
    requires
        0 <= i,
    ensures
        relocation::extendable_from(phdrs, offset, addr, page, i) matches Some(Some(k)) ==> {
            &&& i <= k < phdrs.len()
            &&& phdrs[k].p_type == PT_LOAD
            &&& phdrs[k].p_offset + phdrs[k].p_filesz <= offset
            &&& phdrs[k].p_vaddr + phdrs[k].p_memsz <= addr
            &&& addr - phdrs[k].p_vaddr == offset - phdrs[k].p_offset
        },
    decreases phdrs.len() - i,
{
    if i < phdrs.len() {
        lemma_extended(phdrs, offset, addr, page, i + 1);
    }
}

/// A loaded segment stays when the headers are brought in line.
pub(crate) proof fn lemma_load_stays(f: ElfState, k: int) -> (i: int)
    requires
        f.headers_updated() is Some,
        0 <= k < f.phdrs.len(),
        f.phdrs.len() <= usize::MAX,
        f.phdrs[k].p_type == PT_LOAD,
    ensures
        0 <= i < f.headers_updated()->0.phdrs.len(),
        f.headers_updated()->0.phdrs[i] == f.phdrs[k],
{
    let keys = Seq::new(f.phdrs.len(), |i: int| relocation::segment_key(f.phdrs[i]));
    let o = order::order(keys);
    order::lemma_order_upto(keys, keys.len() as int);
    assert(o.contains(k as usize));
    let i = choose|i: int| 0 <= i < o.len() && o[i] == k as usize;
    let arranged = ElfState { phdrs: relocation::by_key(f.phdrs), ..f };
    assert(arranged.phdrs[i] == f.phdrs[k]);
    assert(arranged.synced().phdrs[i] == arranged.synced_segment(i));
    i
}

/// A section whose content waited is given an aligned place that a loaded segment
/// covers.
pub proof fn lemma_placed_loaded(a: ElfState, name: Seq<char>)
    requires
        a.relocated() is Some,
        sections::ordered(a.replaced),
        a.shdrs.len() <= usize::MAX,
        a.find(name) is Some,
        sections::lookup(a.replaced, name) is Some,
        a.relocated()->0.phdrs.len() <= usize::MAX,
    ensures
        ({
            let t = a.relocated()->0;
            let h = t.section(name)->0;
            &&& t.section(name) is Some
            &&& h.sh_offset as int % relocation::alignment(h) == 0
            &&& h.sh_addr as int % relocation::alignment(h) == 0
            &&& exists|i: int| 0 <= i < t.phdrs.len() && loads(#[trigger] t.phdrs[i], h)
        }),
{
    let t = a.relocated()->0;
    lemma_relocated(a);
    lemma_prepared(a, name);
    let x = lemma_stages(a);
    lemma_staged(a, x);
    lemma_can_stage(a, x);
    let k = lemma_lookup_position(x.p.replaced, name);
    lemma_placed(x.p, x.offset, x.addr, 0);
    lemma_placed_at(x.p, x.offset, x.addr, 0, k);
    let h = t.section(name)->0;
    assert(t.find(name) == x.p.find(name));
    let grown = x.m.with_contents(edits::resized(x.m.contents, x.len));
    let q = lemma_covered(
        grown,
        x.offset,
        x.addr,
        x.end - x.offset + 1,
        x.end_addr - x.addr,
    );
    assert(loads(x.l.phdrs[q], h));
    let i = lemma_load_stays(x.l, q);
    assert(loads(t.phdrs[i], h));
}

/// Whether a loaded segment covers bytes, in the file and in memory, and loads them to
/// their addresses.
pub open spec fn covers_bytes(
    p: ProgramHeader,
    offset: int,
    addr: int,
    file_size: int,
    mem_size: int,
) -> bool {
    &&& p.p_type == PT_LOAD
    &&& p.p_offset <= offset
    &&& offset + file_size <= p.p_offset + p.p_filesz
    &&& p.p_vaddr <= addr
    &&& addr + mem_size <= p.p_vaddr + p.p_memsz
    &&& addr - p.p_vaddr == offset - p.p_offset
}

/// New bytes are loaded by a segment.
pub proof fn lemma_covered(
    m: ElfState,
    offset: int,
    addr: int,
    file_size: int,
    mem_size: int,
) -> (k: int)
    requires
        m.loading(offset, addr, file_size, mem_size) is Some,
        0 <= offset,
        0 <= addr,
        0 <= file_size,
        0 <= mem_size,
        offset + file_size <= u64::MAX,
        addr + mem_size <= u64::MAX,
    ensures
        ({
            let l = m.loading(offset, addr, file_size, mem_size)->0;
            &&& 0 <= k < l.phdrs.len()
            &&& covers_bytes(l.phdrs[k], offset, addr, file_size, mem_size)
            &&& m.phdrs.len() <= l.phdrs.len() <= m.phdrs.len() + 1
            &&& forall|i: int|
                0 <= i < m.phdrs.len() && i != k ==> #[trigger] l.phdrs[i] == m.phdrs[i]
            &&& k == (match relocation::extendable_from(
                m.phdrs,
                offset,
                addr,
                relocation::page_size(m.header.e_machine),
                0,
            ) {
                Some(Some(i)) => i,
                _ => m.phdrs.len() as int,
            })
        }),
{
    let l = m.loading(offset, addr, file_size, mem_size)->0;
    let page = relocation::page_size(m.header.e_machine);
    lemma_extended(m.phdrs, offset, addr, page, 0);
    let q = match relocation::extendable_from(m.phdrs, offset, addr, page, 0) {
        Some(Some(i)) => i,
        _ => m.phdrs.len() as int,
    };
    assert(covers_bytes(l.phdrs[q], offset, addr, file_size, mem_size));
    q
}

/// The segments of special sections cover these.
pub proof fn lemma_segments(a: ElfState, i: int)
    requires
        a.relocated() is Some,
        a.shdrs.len() <= usize::MAX,
        0 <= i < a.relocated()->0.phdrs.len(),
    ensures
        ({
            let t = a.relocated()->0;
            let p = t.phdrs[i];
            &&& p.p_type == PT_INTERP ==> (t.section(".interp"@) matches Some(h) ==> covers(p, h))
            &&& p.p_type == PT_DYNAMIC ==> (t.section(".dynamic"@) matches Some(h) ==> covers(p, h))
            &&& p.p_type == PT_PHDR ==> p.p_offset == t.header.e_phoff && p.p_filesz == (
            t.phdrs.len() * t.ctx.phdr_len()) as u64
        }),
{
    let t = a.relocated()->0;
    let x = lemma_stages(a);
    lemma_staged(a, x);
    lemma_can_stage(a, x);
    let arranged = ElfState { phdrs: relocation::by_key(x.l.phdrs), ..x.l };
    assert(t.phdrs == arranged.synced().phdrs);
    assert(t.phdrs[i] == arranged.synced_segment(i));
    assert(t.section(".interp"@) == arranged.section(".interp"@));
    assert(t.section(".dynamic"@) == arranged.section(".dynamic"@));
}

/// The pieces of all segments are among the segments after splitting.
proof fn lemma_split_from(
    shdrs: Seq<SectionHeader>,
    phdrs: Seq<ProgramHeader>,
    first: Seq<ProgramHeader>,
    others: Seq<ProgramHeader>,
    i: int,
    p: ProgramHeader,
)
    requires
        0 <= i,
        relocation::split_from(shdrs, phdrs, first, others, i) is Some,
        first.contains(p) || others.contains(p) || exists|k: int|
            i <= k < phdrs.len() && #[trigger] is_piece(shdrs, phdrs[k], p),
    ensures
        relocation::split_from(shdrs, phdrs, first, others, i)->0.contains(p),
    decreases phdrs.len() - i,
{
    if i >= phdrs.len() {
        let all = first + others;
        if first.contains(p) {
            let q = choose|q: int| 0 <= q < first.len() && first[q] == p;
            assert(all[q] == p);
        } else {
            let q = choose|q: int| 0 <= q < others.len() && others[q] == p;
            assert(all[first.len() + q] == p);
        }
    } else {
        let pieces = relocation::split_segment(shdrs, phdrs[i])->0;
        let next = first.push(pieces[0]);
        let rest = others + pieces.drop_first();
        if first.contains(p) {
            let q = choose|q: int| 0 <= q < first.len() && first[q] == p;
            assert(next[q] == p);
        } else if others.contains(p) {
            let q = choose|q: int| 0 <= q < others.len() && others[q] == p;
            assert(rest[q] == p);
        } else {
            let k = choose|k: int|
                i <= k < phdrs.len() && #[trigger] is_piece(shdrs, phdrs[k], p);
            if k == i {
                let q = choose|q: int| 0 <= q < pieces.len() && pieces[q] == p;
                if q == 0 {
                    assert(next[first.len() as int] == p);
                } else {
                    assert(rest[others.len() + q - 1] == p);
                }
            } else {
                assert(is_piece(shdrs, phdrs[k], p));
            }
        }
        lemma_split_from(shdrs, phdrs, next, rest, i + 1, p);
    }
}

/// Whether `p` is one of the segments that `whole` is split into.
pub open spec fn is_piece(
    shdrs: Seq<SectionHeader>,
    whole: ProgramHeader,
    p: ProgramHeader,
) -> bool {
    relocation::split_segment(shdrs, whole) matches Some(pieces) && pieces.contains(p)
}

/// A note section of a note segment with several of them gets a segment of its own.
pub proof fn lemma_note_split(l: ElfState, i: int, k: int)
    requires
        l.normalized() is Some,
        l.moves_note(),
        0 <= i < l.phdrs.len(),
        l.phdrs[i].p_type == PT_NOTE,
        l.shdrs.len() <= usize::MAX,
        relocation::notes_inside(l.shdrs, l.phdrs[i], l.shdrs.len() as int).len() > 1,
        0 <= k < relocation::notes_inside(l.shdrs, l.phdrs[i], l.shdrs.len() as int).len(),
    ensures
        l.normalized()->0.phdrs.contains(
            relocation::note_piece(
                l.phdrs[i],
                relocation::notes_inside(l.shdrs, l.phdrs[i], l.shdrs.len() as int)[k],
            ),
        ),
{
    let none = Seq::<ProgramHeader>::empty();
    let p = l.phdrs[i];
    let found = relocation::notes_inside(l.shdrs, p, l.shdrs.len() as int);
    let piece = relocation::note_piece(p, found[k]);
    let keys = relocation::offsets(found);
    lemma_notes_inside_len(l.shdrs, p, l.shdrs.len() as int);
    order::lemma_order_upto(keys, keys.len() as int);
    let o = order::order(keys);
    assert(o.contains(k as usize));
    let q = choose|q: int| 0 <= q < o.len() && o[q] == k as usize;
    let inside = relocation::by_offset(found);
    assert(inside[q] == found[k]);
    lemma_split_some(l.shdrs, l.phdrs, none, none, 0, i);
    let pieces = relocation::split_segment(l.shdrs, p)->0;
    assert(pieces[q] == piece);
    assert(is_piece(l.shdrs, l.phdrs[i], piece));
    lemma_split_from(l.shdrs, l.phdrs, none, none, 0, piece);
}

proof fn lemma_notes_inside_len(shdrs: Seq<SectionHeader>, p: ProgramHeader, n: int)
    requires
        0 <= n,
    ensures
        relocation::notes_inside(shdrs, p, n).len() <= n,
    decreases n,
{
    if n > 0 {
        lemma_notes_inside_len(shdrs, p, n - 1);
    }
}

proof fn lemma_split_some(
    shdrs: Seq<SectionHeader>,
    phdrs: Seq<ProgramHeader>,
    first: Seq<ProgramHeader>,
    others: Seq<ProgramHeader>,
    i: int,
    k: int,
)
    requires
        0 <= i <= k < phdrs.len(),
        relocation::split_from(shdrs, phdrs, first, others, i) is Some,
    ensures
        relocation::split_segment(shdrs, phdrs[k]) is Some,
    decreases k - i,
{
    if i < k {
        let pieces = relocation::split_segment(shdrs, phdrs[i])->0;
        lemma_split_some(
            shdrs,
            phdrs,
            first.push(pieces[0]),
            others + pieces.drop_first(),
            i + 1,
            k,
        );
    }
}

/// Segments of the same types hold the same number of note segments.
proof fn lemma_same_rank(a: Seq<ProgramHeader>, b: Seq<ProgramHeader>, n: int)
    requires
        0 <= n <= a.len(),
        a.len() == b.len(),
        forall|i: int| 0 <= i < a.len() ==> (#[trigger] a[i]).p_type == b[i].p_type,
    ensures
        relocation::note_segments(a, n) == relocation::note_segments(b, n),
    decreases n,
{
    if n > 0 {
        assert(a[n - 1].p_type == b[n - 1].p_type);
        lemma_same_rank(a, b, n - 1);
    }
}

/// Each note segment covers the note section of the same rank.
pub proof fn lemma_note_segments(a: ElfState, i: int)
    requires
        a.relocated() is Some,
        a.shdrs.len() <= usize::MAX,
        0 <= i < a.relocated()->0.phdrs.len(),
        a.relocated()->0.phdrs[i].p_type == PT_NOTE,
    ensures
        ({
            let t = a.relocated()->0;
            let listed = relocation::notes(t.shdrs, t.shdrs.len() as int);
            let rank = relocation::note_segments(t.phdrs, i);
            rank < listed.len() ==> covers(t.phdrs[i], listed[rank]) && t.phdrs[i].p_align
                == listed[rank].sh_addralign
        }),
{
    let t = a.relocated()->0;
    let x = lemma_stages(a);
    lemma_staged(a, x);
    lemma_can_stage(a, x);
    let f = x.l;
    let arranged = ElfState { phdrs: relocation::by_key(f.phdrs), ..f };
    assert(t.phdrs == arranged.synced().phdrs);
    assert forall|j: int| 0 <= j < t.phdrs.len() implies (#[trigger] t.phdrs[j]).p_type
        == arranged.phdrs[j].p_type by {
        assert(t.phdrs[j] == arranged.synced_segment(j));
    }
    lemma_same_rank(t.phdrs, arranged.phdrs, i);
    assert(t.phdrs[i] == arranged.synced_segment(i));
}

impl ElfState {
    /// The bytes that the contents from the `k`-th on can take with what aligns them.
    pub open spec fn reach_from(self, k: int) -> int
        decreases self.replaced.len() - k,
    {
        if k >= self.replaced.len() {
            0
        } else {
            self.reach_from(k + 1) + self.replaced[k].1.len() + match self.section(
                self.replaced[k].0,
            ) {
                Some(h) => relocation::alignment(h),
                None => self.ctx.word(),
            }
        }
    }

    /// Whether the ends of all loaded segments are in range, and at most one segment is
    /// for the program header table.
    pub open spec fn segments_in_range(self) -> bool {
        &&& relocation::table_segments(self.phdrs, self.phdrs.len() as int) <= 1
        &&& forall|i: int|
            0 <= i < self.phdrs.len() && (#[trigger] self.phdrs[i]).p_type == PT_LOAD
                ==> self.phdrs[i].p_offset + self.phdrs[i].p_filesz <= u64::MAX
                && self.phdrs[i].p_vaddr + self.phdrs[i].p_memsz <= u64::MAX
    }
}

/// What contents can take does not depend on where their sections are.
proof fn lemma_reach_same(a: ElfState, b: ElfState, k: int)
    requires
        0 <= k,
        a.replaced == b.replaced,
        a.ctx == b.ctx,
        a.shstrtab == b.shstrtab,
        a.shdrs.len() == b.shdrs.len(),
        forall|i: int|
            0 <= i < a.shdrs.len() ==> (#[trigger] a.shdrs[i]).sh_name == b.shdrs[i].sh_name
                && a.shdrs[i].sh_addralign == b.shdrs[i].sh_addralign,
    ensures
        a.reach_from(k) == b.reach_from(k),
    decreases a.replaced.len() - k,
{
    if k < a.replaced.len() {
        let name = a.replaced[k].0;
        lemma_reach_same(a, b, k + 1);
        lemma_same_names(a.shdrs, b.shdrs, a.shstrtab, name, 0);
        lemma_found(a.shdrs, a.shstrtab, name, 0);
        if let Some(i) = a.find(name) {
            assert(a.shdrs[i].sh_addralign == b.shdrs[i].sh_addralign);
        }
    }
}

/// Sections can be given places where what they can take is in range.
proof fn lemma_can_place(p: ElfState, offset: int, addr: int, k: int)
    requires
        0 <= k,
        0 <= offset,
        0 <= addr,
        offset + p.reach_from(k) <= u64::MAX,
        addr + p.reach_from(k) <= u64::MAX,
    ensures
        p.placed_from(offset, addr, k) matches Some((_, end, end_addr)) && end <= offset
            + p.reach_from(k),
        p.reach_from(k) >= 0,
    decreases p.replaced.len() - k,
{
    if k < p.replaced.len() {
        let size = p.replaced[k].1.len() as int;
        lemma_found(p.shdrs, p.shstrtab, p.replaced[k].0, 0);
        lemma_reach_positive(p, k + 1);
        match p.find(p.replaced[k].0) {
            None => {
                lemma_can_place(p, offset, addr, k + 1);
            },
            Some(i) => {
                let h = p.shdrs[i];
                let align = relocation::alignment(h);
                let at = relocation::rounded(offset, align);
                let to = relocation::rounded(addr, align);
                relocation::lemma_rounded(offset, align);
                relocation::lemma_rounded(addr, align);
                let moved = SectionHeader {
                    sh_offset: at as u64,
                    sh_addr: to as u64,
                    sh_size: size as u64,
                    ..h
                };
                let next = ElfState { shdrs: p.shdrs.update(i, moved), ..p };
                lemma_reach_same(next, p, k + 1);
                lemma_can_place(next, at + size, to + size, k + 1);
            },
        }
    }
}

proof fn lemma_reach_positive(p: ElfState, k: int)
    ensures
        p.reach_from(k) >= 0,
    decreases p.replaced.len() - k,
{
    if k < p.replaced.len() {
        lemma_reach_positive(p, k + 1);
    }
}

/// Contents that are filled up take no more than they can take.
proof fn lemma_space_reaches(p: ElfState, n: int)
    requires
        0 <= n <= p.replaced.len(),
    ensures
        p.space(n) + p.reach_from(n) <= p.reach_from(0),
    decreases n,
{
    if n > 0 {
        lemma_space_reaches(p, n - 1);
        let len = p.replaced[n - 1].1.len() as int;
        let align = match p.section(p.replaced[n - 1].0) {
            Some(h) => relocation::alignment(h),
            None => p.ctx.word(),
        };
        relocation::lemma_rounded(len, align);
    }
}

/// More contents take no less when they are filled up.
pub proof fn lemma_space_grows(p: ElfState, k: int, n: int)
    requires
        0 <= k <= n,
    ensures
        p.space(k) <= p.space(n),
    decreases n,
{
    if k < n {
        lemma_space_grows(p, k, n - 1);
        let len = p.replaced[n - 1].1.len() as int;
        let align = match p.section(p.replaced[n - 1].0) {
            Some(h) => relocation::alignment(h),
            None => p.ctx.word(),
        };
        relocation::lemma_rounded(len, align);
    }
}

proof fn lemma_can_extend(phdrs: Seq<ProgramHeader>, offset: int, addr: int, page: int, i: int)
    requires
        0 <= i,
        forall|j: int|
            0 <= j < phdrs.len() && (#[trigger] phdrs[j]).p_type == PT_LOAD ==> phdrs[j].p_offset
                + phdrs[j].p_filesz <= u64::MAX && phdrs[j].p_vaddr + phdrs[j].p_memsz <= u64::MAX,
    ensures
        relocation::extendable_from(phdrs, offset, addr, page, i) is Some,
    decreases phdrs.len() - i,
{
    if i < phdrs.len() {
        lemma_can_extend(phdrs, offset, addr, page, i + 1);
    }
}

/// The number of segments for the program header table depends on their types alone.
proof fn lemma_table_segments(a: Seq<ProgramHeader>, b: Seq<ProgramHeader>, n: int)
    requires
        n <= a.len(),
        n <= b.len(),
        forall|i: int| 0 <= i < n ==> (#[trigger] a[i]).p_type == b[i].p_type,
    ensures
        relocation::table_segments(a, n) == relocation::table_segments(b, n),
    decreases n,
{
    if n > 0 {
        assert(a[n - 1].p_type == b[n - 1].p_type);
        lemma_table_segments(a, b, n - 1);
    }
}

/// What waits can be placed where all that it can take is in range.
pub proof fn lemma_can_relocate(s: ElfState)
    requires
        sections::ordered(s.replaced),
        s.shdrs.len() <= usize::MAX,
        s.dynamic_settled(),
        s.prepared() matches Some(p) && p.segments_in_range() && fits_behind(s, p),
    ensures
        s.relocated() is Some,
{
    let p = s.prepared()->0;
    lemma_prepared(s, Seq::empty());
    let top = relocation::top_address(s.phdrs, s.phdrs.len() as int);
    let least = relocation::top_align(
        s.phdrs,
        relocation::page_size(s.header.e_machine),
        s.phdrs.len() as int,
    );
    let align = p.placing_align(least, p.replaced.len() as int);
    lemma_top(s.phdrs, s.phdrs.len() as int);
    lemma_top_align(s.phdrs, relocation::page_size(s.header.e_machine), s.phdrs.len() as int);
    lemma_placing_align(p, least, p.replaced.len() as int);
    lemma_reach_positive(p, 0);
    let addr = relocation::rounded(top, align);
    let offset = relocation::rounded(p.contents.len() as int, align);
    relocation::lemma_rounded(top, align);
    relocation::lemma_rounded(p.contents.len() as int, align);
    lemma_can_place(p, offset, addr, 0);
    let (m, end, end_addr) = p.placed_from(offset, addr, 0)->0;
    lemma_placed(p, offset, addr, 0);
    let len = p.placed_len(offset, end);
    lemma_space_reaches(p, p.replaced.len() as int);
    let grown = m.with_contents(edits::resized(m.contents, len));
    let page = relocation::page_size(grown.header.e_machine);
    lemma_can_extend(grown.phdrs, offset, addr, page, 0);
    lemma_extendable(grown.phdrs, offset, addr, page, 0);
    let l = grown.loading(offset, addr, end - offset + 1, end_addr - addr)->0;
    lemma_loading(grown, offset, addr, end - offset + 1, end_addr - addr);
    lemma_table_segments(l.phdrs, p.phdrs, p.phdrs.len() as int);
    let arranged = ElfState { phdrs: relocation::by_key(l.phdrs), ..l }.synced();
    let name = ".dynamic"@;
    lemma_prepared(s, name);
    lemma_prepared_shdrs(s);
    lemma_sorted(s);
    lemma_found(p.shdrs, p.shstrtab, name, 0);
    assert(arranged.find(name) == m.find(name));
    assert(m.find(name) == p.find(name));
    if let Some(h) = arranged.section(name) {
        if sections::lookup(p.replaced, name) is None {
            let i = p.find(name)->0;
            assert(s.name_of(s.sorting()[i] as int) == Some(name));
            state::lemma_named(s.shdrs, s.shstrtab, name, 0, s.sorting()[i] as int);
            assert forall|j: int| 0 <= j < p.replaced.len() implies p.find(
                (#[trigger] p.replaced[j]).0,
            ) != Some(i) by {
                lemma_found(p.shdrs, p.shstrtab, p.replaced[j].0, 0);
                lemma_lookup_present(p.replaced, j);
            }
            assert(m.shdrs[i] == p.shdrs[i]);
            assert(arranged.in_file(h));
        }
        assert(arranged.dyn_data(h) is Some);
    }
    let u = l.headers_updated()->0;
    let x = Stages { p, m, l, u, f: u, offset, addr, end, end_addr, len, align };
    assert(can_stage(s, x));
    lemma_room(s, x);
}

/// Whether what waits can take is in range behind the end of the file and behind all
/// segments.
pub open spec fn fits_behind(s: ElfState, p: ElfState) -> bool {
    let top = relocation::top_address(s.phdrs, s.phdrs.len() as int);
    let least = relocation::top_align(
        s.phdrs,
        relocation::page_size(s.header.e_machine),
        s.phdrs.len() as int,
    );
    let align = p.placing_align(least, p.replaced.len() as int);
    &&& s.contents.len() + align + p.reach_from(0) < isize::MAX
    &&& top + align + p.reach_from(0) <= u64::MAX
}

} // verus!
