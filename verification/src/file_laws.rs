//! What holds of files that are read, modified and written.

use crate::codec;
use crate::edits;
use crate::laws;
use crate::library_laws;
use crate::linking;
use crate::path_laws;
use crate::placement;
use crate::relocation;
use crate::renaming_laws;
use crate::reread;
use crate::roundtrip;
use crate::sections;
use crate::state;
use crate::state::ElfState;
use crate::text;
use crate::types::{
    ErrorView, ProgramHeader, SectionHeader, DT_RPATH, DT_RUNPATH, ET_DYN, ET_EXEC,
    SHT_NOBITS,
};
use vstd::prelude::*;
use vstd::utf8::*;

verus! {

/// The number of segments that the first `n` ones come to when note segments are split.
pub open spec fn piece_count(
    shdrs: Seq<SectionHeader>,
    phdrs: Seq<ProgramHeader>,
    n: int,
) -> int
    decreases n,
{
    if n <= 0 {
        0
    } else {
        piece_count(shdrs, phdrs, n - 1) + match relocation::split_segment(shdrs, phdrs[n - 1]) {
            Some(pieces) => pieces.len() as int,
            None => 1,
        }
    }
}

impl ElfState {
    /// The number of segments that the file may come to have.
    pub open spec fn most_segments(self) -> int {
        piece_count(self.shdrs, self.phdrs, self.phdrs.len() as int) + 1
    }

    /// Where the program header table may come to end.
    pub open spec fn most_phdrs_end(self) -> int {
        self.header.e_phoff + self.most_segments() * self.ctx.phdr_len()
    }

    /// Whether a range of the file holds no header and none can come to stand there.
    pub open spec fn stays_clear(self, from: int, to: int) -> bool {
        &&& self.ctx.ehdr_len() <= from
        &&& reread::apart(from, to, self.header.e_phoff as int, self.most_phdrs_end())
        &&& reread::apart(from, to, self.header.e_shoff as int, self.shdrs_end())
    }

    /// Whether nothing waits for a section, and it need not give way to the headers.
    pub open spec fn stays(self, i: int) -> bool {
        &&& self.name_of(i) matches Some(name) ==> sections::lookup(self.replaced, name) is None
        &&& !self.is_in_the_way(i, self.table_end())
    }

    /// Whether all sections of a name take bytes of the file, and none of them is the
    /// first one, which stands for no section.
    pub open spec fn takes_bytes(self, name: Seq<char>) -> bool {
        forall|i: int|
            0 <= i < self.shdrs.len() && #[trigger] self.name_of(i) == Some(name) ==> i != 0
                && self.shdrs[i].sh_type != SHT_NOBITS
    }

    /// Whether there is room for the headers: the tables lie inside the file and apart
    /// from each other, also where the one for segments grows, and apart from all sections
    /// that stay where they are and take bytes of the file.
    pub open spec fn is_roomy(self) -> bool {
        &&& self.ctx.ehdr_len() <= self.header.e_phoff
        &&& self.ctx.ehdr_len() <= self.header.e_shoff
        &&& self.most_phdrs_end() <= self.contents.len()
        &&& self.shdrs_end() <= self.contents.len()
        &&& reread::apart(
            self.header.e_phoff as int,
            self.most_phdrs_end(),
            self.header.e_shoff as int,
            self.shdrs_end(),
        )
        &&& forall|i: int|
            1 <= i < self.shdrs.len() && self.shdrs[i].sh_type != SHT_NOBITS
                && #[trigger] self.stays(i) ==> self.stays_clear(
                self.shdrs[i].sh_offset as int,
                self.shdrs[i].sh_offset + self.shdrs[i].sh_size,
            )
    }

    /// Whether the headers and the section names are no part of what can be modified.
    pub open spec fn names_untouched(self) -> bool {
        let n = self.header.e_shstrndx as int;
        let names = self.shdrs[n];
        &&& self.name_of(n) != Some(".interp"@)
        &&& self.name_of(n) != Some(".dynstr"@)
        &&& names.sh_type != SHT_NOBITS
        &&& self.takes_bytes(".interp"@)
        &&& self.takes_bytes(".dynstr"@)
        &&& self.takes_bytes(".dynamic"@)
        &&& self.section(".dynstr"@) matches Some(h) ==> self.can_change(h)
        &&& self.section(".dynamic"@) matches Some(h) ==> self.can_change(h)
    }

    /// Whether a section inside the file holds neither headers nor section names.
    pub open spec fn can_change(self, h: SectionHeader) -> bool {
        let names = self.shdrs[self.header.e_shstrndx as int];
        self.in_file(h) ==> self.is_clear(h.sh_offset as int, h.sh_offset + h.sh_size)
            && reread::apart(
            h.sh_offset as int,
            h.sh_offset + h.sh_size,
            names.sh_offset as int,
            names.sh_offset + names.sh_size,
        )
    }

    /// Whether a file is laid out as modification needs it: it is a library or an
    /// executable, counts its headers, has room for them, and the section names and the
    /// dynamic entries have places of their own, the strings a name of their own.
    pub open spec fn is_regular(self) -> bool {
        &&& self.header.e_type == ET_DYN || self.header.e_type == ET_EXEC
        &&& self.header.e_shnum == self.shdrs.len()
        &&& self.most_segments() <= u16::MAX
        &&& self.contents.len() <= usize::MAX
        &&& self.is_roomy()
        &&& self.names_safe()
        &&& self.names_untouched()
        &&& self.dynamic_settled()
        &&& self.section(".dynstr"@) is Some ==> self.sole(".dynstr"@)
    }

    /// Whether a file is regular and was read.
    pub open spec fn is_sound(self) -> bool {
        &&& self.is_regular()
        &&& sections::ordered(self.replaced)
        &&& reread::identified(self.header)
        &&& self.ctx == codec::announced_ctx(self.header.e_ident@)
        &&& self.header.e_phnum == self.phdrs.len()
        &&& roundtrip::header_fits(self.header)
        &&& forall|i: int|
            0 <= i < self.shdrs.len() ==> (#[trigger] self.shdrs[i]).sh_name <= u32::MAX
    }

    /// Whether the headers of the file that is written fit in the class, as they do in a
    /// 64-bit file.
    pub open spec fn fits_class(self) -> bool {
        let t = self.relocated()->0;
        self.ctx.container is Little ==> {
            &&& forall|i: int|
                0 <= i < t.phdrs.len() ==> roundtrip::phdr_fits(#[trigger] t.phdrs[i], t.ctx)
            &&& forall|i: int|
                0 <= i < t.shdrs.len() ==> roundtrip::shdr_fits(#[trigger] t.shdrs[i], t.ctx)
        }
    }
}

/// A regular file that was read is sound.
pub proof fn law_regular_files_are_sound(data: Seq<u8>, s: ElfState)
    requires
        state::is_parsed(data, s),
        s.is_regular(),
    ensures
        s.is_sound(),
{
    let w = s.ctx.word();
    roundtrip::lemma_capacities();
    assert(data.subrange(0, 16).subrange(0, 4) =~= data.subrange(0, 4));
    assert(data.subrange(0, 16)[4] == data[4] && data.subrange(0, 16)[5] == data[5]);
    roundtrip::lemma_field_bound(data, 24, w, s.ctx.le);
    roundtrip::lemma_field_bound(data, 24 + w, w, s.ctx.le);
    roundtrip::lemma_field_bound(data, 24 + 2 * w, w, s.ctx.le);
    let at = s.header.e_shoff as int;
    let size = s.ctx.shdr_len();
    let n = s.shdrs.len() as int;
    assert(at + n * size <= data.len());
    assert forall|i: int| 0 <= i < n implies (#[trigger] s.shdrs[i]).sh_name <= u32::MAX by {
        assert(i * size >= 0 && (i + 1) * size <= n * size && (i + 1) * size == i * size + size)
            by (nonlinear_arith)
            requires
                0 <= i < n,
                size >= 0,
        ;
        roundtrip::lemma_field_bound(data, at + i * size, 4, s.ctx.le);
        assert(s.shdrs[i] == codec::shdr_at(data, at + i * size, s.ctx));
    }
}

/// A file stays sound when more waits and none of its headers and section names change.
pub proof fn lemma_stays_sound(s: ElfState, a: ElfState)
    requires
        s.is_sound(),
        a == (ElfState { contents: a.contents, replaced: a.replaced, changed: a.changed, ..s }),
        a.contents.len() == s.contents.len(),
        sections::ordered(a.replaced),
        a.body(s.shdrs[s.header.e_shstrndx as int]) == s.body(
            s.shdrs[s.header.e_shstrndx as int],
        ),
        forall|name: Seq<char>|
            #[trigger] sections::lookup(a.replaced, name) is None ==> sections::lookup(
                s.replaced,
                name,
            ) is None,
        forall|name: Seq<char>|
            name != ".interp"@ && name != ".dynstr"@ && name != ".dynamic"@
                ==> #[trigger] sections::lookup(a.replaced, name) == sections::lookup(
                s.replaced,
                name,
            ),
    ensures
        a.is_sound(),
{
    assert(sections::lookup(a.replaced, ".dynamic"@) is None ==> sections::lookup(
        s.replaced,
        ".dynamic"@,
    ) is None);
    linking::lemma_settled(s, a);
    assert(a.most_segments() == s.most_segments());
    assert(a.table_end() == s.table_end());
    assert forall|i: int| 0 <= i < a.shdrs.len() implies #[trigger] a.name_of(i) == s.name_of(
        i,
    ) by {}
    assert forall|i: int|
        1 <= i < a.shdrs.len() && a.shdrs[i].sh_type != SHT_NOBITS && #[trigger] a.stays(
            i,
        ) implies a.stays_clear(
        a.shdrs[i].sh_offset as int,
        a.shdrs[i].sh_offset + a.shdrs[i].sh_size,
    ) by {
        if let Some(name) = s.name_of(i) {
            assert(sections::lookup(a.replaced, name) is None);
        }
        assert(s.stays(i));
    }
    let n = s.header.e_shstrndx as int;
    if let Some(name) = s.name_of(n) {
        assert(sections::lookup(a.replaced, name) == sections::lookup(s.replaced, name));
        assert(a.sole(name));
    }
    assert(a.section(".dynstr"@) == s.section(".dynstr"@));
    assert(a.section(".dynamic"@) == s.section(".dynamic"@));
    assert(a.beside_dynamic(s.shdrs[n]));
}

/// A segment is split into at least one.
proof fn lemma_piece_count(shdrs: Seq<SectionHeader>, phdrs: Seq<ProgramHeader>, n: int)
    requires
        0 <= n <= phdrs.len(),
    ensures
        n <= piece_count(shdrs, phdrs, n),
    decreases n,
{
    if n > 0 {
        lemma_piece_count(shdrs, phdrs, n - 1);
    }
}

/// Splitting gives all pieces.
proof fn lemma_split_len(
    shdrs: Seq<SectionHeader>,
    phdrs: Seq<ProgramHeader>,
    first: Seq<ProgramHeader>,
    others: Seq<ProgramHeader>,
    i: int,
)
    requires
        0 <= i <= phdrs.len(),
        relocation::split_from(shdrs, phdrs, first, others, i) is Some,
    ensures
        relocation::split_from(shdrs, phdrs, first, others, i)->0.len() == first.len()
            + others.len() + piece_count(shdrs, phdrs, phdrs.len() as int) - piece_count(
            shdrs,
            phdrs,
            i,
        ),
    decreases phdrs.len() - i,
{
    if i < phdrs.len() {
        let pieces = relocation::split_segment(shdrs, phdrs[i])->0;
        lemma_split_len(
            shdrs,
            phdrs,
            first.push(pieces[0]),
            others + pieces.drop_first(),
            i + 1,
        );
    }
}

/// A section that has to give way is listed.
proof fn lemma_obstacle_listed(s: ElfState, limit: int, n: int, i: int)
    requires
        1 <= i < n <= s.shdrs.len() <= usize::MAX,
        s.is_in_the_way(i, limit),
    ensures
        s.obstacles(limit, n).contains(i as usize),
    decreases n,
{
    let all = s.obstacles(limit, n);
    let before = s.obstacles(limit, n - 1);
    if i == n - 1 {
        assert(all == before.push(i as usize));
        assert(all.last() == i as usize);
    } else {
        lemma_obstacle_listed(s, limit, n - 1, i);
        let k = choose|k: int| 0 <= k < before.len() && before[k] == i as usize;
        assert(all[k] == i as usize);
    }
}

/// What waits goes on waiting when sections are lifted, and the content of each section
/// that is listed waits then.
proof fn lemma_lifted_waits(s: ElfState, list: Seq<usize>, k: int, name: Seq<char>)
    requires
        0 <= k,
        s.lifted_from(list, k) is Some,
        sections::lookup(s.replaced, name) is Some || exists|j: int|
            k <= j < list.len() && s.name_of((#[trigger] list[j]) as int) == Some(name),
    ensures
        sections::lookup(s.lifted_from(list, k)->0.replaced, name) is Some,
    decreases list.len() - k,
{
    if k < list.len() {
        let i = list[k] as int;
        let lifted = s.name_of(i)->0;
        let content = edits::resized(
            s.current(lifted, s.section(lifted)->0),
            s.shdrs[i].sh_size as int,
        );
        let next = s.with_section(lifted, content);
        sections::lemma_lookup_put(s.replaced, lifted, content, name);
        if sections::lookup(s.replaced, name) is None && s.name_of(i) != Some(name) {
            let j = choose|j: int|
                k <= j < list.len() && s.name_of((#[trigger] list[j]) as int) == Some(name);
            assert(next.name_of(list[j] as int) == Some(name));
        }
        lemma_lifted_waits(next, list, k + 1, name);
    }
}

/// A section in the way of the headers waits to be placed after preparation.
pub(crate) proof fn lemma_in_the_way_waits(s: ElfState, i: int, name: Seq<char>)
    requires
        s.prepared() is Some,
        s.shdrs.len() <= usize::MAX,
        1 <= i < s.shdrs.len(),
        s.name_of(i) == Some(name),
        s.is_in_the_way(i, s.table_end()),
    ensures
        sections::lookup(s.prepared()->0.replaced, name) is Some,
{
    let limit = s.table_end();
    let list = s.obstacles(limit, s.shdrs.len() as int);
    lemma_obstacle_listed(s, limit, s.shdrs.len() as int, i);
    let k = choose|k: int| 0 <= k < list.len() && list[k] == i as usize;
    assert(s.name_of(list[k] as int) == Some(name));
    lemma_lifted_waits(s, list, 0, name);
    placement::lemma_normalized(s.lifted_from(list, 0)->0);
}

/// The file does not come to have more segments than were counted.
proof fn lemma_segment_count(a: ElfState)
    requires
        a.relocated() is Some,
        sections::ordered(a.replaced),
        a.shdrs.len() <= usize::MAX,
    ensures
        a.relocated()->0.phdrs.len() <= a.most_segments(),
{
    let x = placement::lemma_stages(a);
    placement::lemma_staged(a, x);
    placement::lemma_can_stage(a, x);
    let limit = a.table_end();
    let list = a.obstacles(limit, a.shdrs.len() as int);
    placement::lemma_obstacles(a, limit, a.shdrs.len() as int);
    assert forall|j: int| 0 <= j < list.len() implies a.name_of((#[trigger] list[j]) as int) is Some
        by {
        assert(a.is_in_the_way(list[j] as int, limit));
    }
    placement::lemma_lifted(a, list, 0, Seq::empty());
    let l = a.lifted_from(list, 0)->0;
    let none = Seq::<ProgramHeader>::empty();
    lemma_piece_count(a.shdrs, a.phdrs, a.phdrs.len() as int);
    if l.moves_note() {
        lemma_split_len(a.shdrs, a.phdrs, none, none, 0);
    }
    assert(x.p.phdrs == l.normalized()->0.phdrs);
    let grown = x.m.with_contents(edits::resized(x.m.contents, x.len));
    let k = placement::lemma_covered(
        grown,
        x.offset,
        x.addr,
        x.end - x.offset + 1,
        x.end_addr - x.addr,
    );
}

/// A section that is found by its name lies apart from the headers in the file that is
/// written: it stays where there is none, or it is placed behind all of them.
proof fn lemma_sound_section(a: ElfState, name: Seq<char>)
    requires
        a.is_sound(),
        a.relocated() is Some,
        a.takes_bytes(name),
    ensures
        a.spares(name),
{
    let t = a.relocated()->0;
    placement::lemma_relocated(a);
    if t.section(name) is Some {
        let i = t.find(name)->0;
        placement::lemma_found(t.shdrs, t.shstrtab, name, 0);
        assert(t.find(name) == a.prepared()->0.find(name));
        placement::lemma_prepared_shdrs(a);
        placement::lemma_sorted(a);
        assert(t.shdrs[i].sh_name == a.prepared()->0.shdrs[i].sh_name);
        assert(a.prepared()->0.shdrs[i] == a.shdrs[a.sorting()[i] as int]);
        assert(a.name_of(a.sorting()[i] as int) == Some(name));
        lemma_sound_place(a, i);
    }
}

/// The `i`-th section lies apart from the headers in the file that is written, where it
/// is the first of its name, or has none.
proof fn lemma_sound_place(a: ElfState, i: int)
    requires
        a.is_sound(),
        a.relocated() is Some,
        0 <= i < a.relocated()->0.shdrs.len(),
        a.sorting()[i] != 0,
        a.shdrs[a.sorting()[i] as int].sh_type != SHT_NOBITS,
        a.relocated()->0.name_of(i) matches Some(name) ==> a.relocated()->0.find(name) == Some(i),
    ensures
        a.relocated()->0.is_clear(
            a.relocated()->0.shdrs[i].sh_offset as int,
            a.relocated()->0.shdrs[i].sh_offset + a.relocated()->0.shdrs[i].sh_size,
        ),
{
    let t = a.relocated()->0;
    let p = a.prepared()->0;
    placement::lemma_relocated(a);
    placement::lemma_prepared(a, Seq::empty());
    placement::lemma_prepared_shdrs(a);
    placement::lemma_sorted(a);
    lemma_segment_count(a);
    let n = t.phdrs.len() as int;
    let most = a.most_segments();
    let size = a.ctx.phdr_len();
    assert(n * size <= most * size) by (nonlinear_arith)
        requires
            n <= most,
            size >= 0,
    ;
    let h = t.shdrs[i];
    if exists|j: int|
        0 <= j < p.replaced.len() && p.find((#[trigger] p.replaced[j]).0) == Some(i) {
        let j = choose|j: int|
            0 <= j < p.replaced.len() && p.find((#[trigger] p.replaced[j]).0) == Some(i);
        assert(a.contents.len() <= h.sh_offset);
    } else {
        assert(h == p.shdrs[i]);
        let q = a.sorting()[i] as int;
        assert(h == a.shdrs[q]);
        match a.name_of(q) {
            Some(name) => {
                placement::lemma_prepared(a, name);
                assert(t.name_of(i) == Some(name));
                assert(t.find(name) == p.find(name));
                if sections::lookup(p.replaced, name) is Some {
                    let k = placement::lemma_lookup_position(p.replaced, name);
                    assert(p.find(p.replaced[k].0) == Some(i));
                }
                if a.is_in_the_way(q, a.table_end()) {
                    lemma_in_the_way_waits(a, q, name);
                }
            },
            None => {},
        }
        assert(a.stays(q));
        assert(a.stays_clear(h.sh_offset as int, h.sh_offset + h.sh_size));
    }
}

/// A sound file with contents that can be placed is written without an error, and each
/// section that is found by its name and takes bytes of the file lies apart from the
/// headers.
pub proof fn law_sound_files_can_be_written(a: ElfState, name: Seq<char>)
    requires
        a.is_sound(),
        a.replaced.len() > 0,
        a.relocated() is Some,
        a.takes_bytes(name),
    ensures
        a.is_placeable(),
        a.writing() is Some,
        a.writing()->0.error is None,
        a.spares(name),
{
    placement::lemma_relocated(a);
    lemma_sound_section(a, name);
}

/// A sound file whose new headers fit in the class can be read again after writing.
pub proof fn law_sound_files_write_well(a: ElfState)
    requires
        a.is_sound(),
        a.replaced.len() > 0,
        a.relocated() is Some,
        a.fits_class(),
    ensures
        a.writes_well(),
{
    let t = a.relocated()->0;
    let p = a.prepared()->0;
    placement::lemma_relocated(a);
    placement::lemma_prepared(a, Seq::empty());
    placement::lemma_prepared_shdrs(a);
    placement::lemma_sorted(a);
    placement::lemma_names_kept(a);
    lemma_segment_count(a);
    let n = t.phdrs.len() as int;
    let most = a.most_segments();
    let size = a.ctx.phdr_len();
    assert(n * size <= most * size) by (nonlinear_arith)
        requires
            n <= most,
            size >= 0,
    ;
    let i = t.header.e_shstrndx as int;
    assert(a.sorting()[i] == a.header.e_shstrndx);
    if let Some(name) = t.name_of(i) {
        let q = a.header.e_shstrndx as int;
        assert(p.shdrs[i] == a.shdrs[q]);
        assert(t.shdrs[i].sh_name == p.shdrs[i].sh_name);
        assert(a.name_of(q) == Some(name));
        placement::lemma_prepared(a, name);
        assert(t.find(name) == p.find(name));
        assert(p.name_of(i) == Some(name));
    }
    lemma_sound_place(a, i);
    assert forall|j: int| 0 <= j < t.shdrs.len() implies roundtrip::shdr_fits(
        #[trigger] t.shdrs[j],
        t.ctx,
    ) by {
        assert(t.shdrs[j].sh_name == p.shdrs[j].sh_name);
        assert(p.shdrs[j] == a.shdrs[a.sorting()[j] as int]);
    }
}

/// Whether `a` is the file `s` with nothing changed but what waits under the names of
/// the interpreter, the strings and the dynamic entries, and bytes of the latter two.
pub open spec fn is_modified(s: ElfState, a: ElfState) -> bool {
    &&& a == ElfState { contents: a.contents, replaced: a.replaced, changed: a.changed, ..s }
    &&& a.contents.len() == s.contents.len()
    &&& only_linking_waits(a)
    &&& forall|q: int|
        0 <= q < s.contents.len() && #[trigger] a.contents[q] != s.contents[q] ==> (s.section(
            ".dynstr"@,
        ) matches Some(h) && linking::inside(s, h, q)) || (s.section(".dynamic"@) matches Some(h)
            && linking::inside(s, h, q))
}

/// Whether nothing waits but for the interpreter, the strings and the dynamic entries.
pub open spec fn only_linking_waits(a: ElfState) -> bool {
    &&& sections::ordered(a.replaced)
    &&& forall|name: Seq<char>|
        name != ".interp"@ && name != ".dynstr"@ && name != ".dynamic"@
            ==> #[trigger] sections::lookup(a.replaced, name) is None
}

/// A regular file that was read and modified is sound, and its headers and section names
/// are as they were.
pub(crate) proof fn lemma_modified(data: Seq<u8>, s: ElfState, a: ElfState)
    requires
        state::is_parsed(data, s),
        s.is_regular(),
        is_modified(s, a),
    ensures
        a.is_sound(),
        reread::same_headers(s, a.contents),
{
    law_regular_files_are_sound(data, s);
    lemma_piece_count(s.shdrs, s.phdrs, s.phdrs.len() as int);
    let most = s.most_segments();
    let size = s.ctx.phdr_len();
    let count = s.shdrs.len() as int;
    let shsize = s.ctx.shdr_len();
    assert(most * size >= 0 && count * shsize >= 0) by (nonlinear_arith)
        requires
            most >= 0,
            size >= 0,
            count >= 0,
            shsize >= 0,
    ;
    let names = s.shdrs[s.header.e_shstrndx as int];
    assert forall|q: int|
        0 <= q < a.contents.len() && #[trigger] a.contents[q] != s.contents[q] implies s.is_clear(
        q,
        q + 1,
    ) && reread::apart(
        q,
        q + 1,
        names.sh_offset as int,
        names.sh_offset + names.sh_size,
    ) by {}
    assert(a.body(names) =~= s.body(names)) by {
        assert forall|q: int| 0 <= q < names.sh_size implies #[trigger] a.contents[names.sh_offset
            + q] == s.contents[names.sh_offset + q] by {
            let at = names.sh_offset + q;
            if a.contents[at] != s.contents[at] {
                assert(reread::apart(
                    at,
                    at + 1,
                    names.sh_offset as int,
                    names.sh_offset + names.sh_size,
                ));
            }
        }
    }
    assert forall|name: Seq<char>| #[trigger] sections::lookup(s.replaced, name) is None by {}
    lemma_stays_sound(s, a);
}

/// Values that the sections give fit in the class where the headers do.
proof fn lemma_fits(a: ElfState)
    requires
        a.fits_class(),
        a.relocated() is Some,
        sections::ordered(a.replaced),
        a.shdrs.len() <= usize::MAX,
    ensures
        a.relocated()->0.values_fit(),
{
    let t = a.relocated()->0;
    placement::lemma_relocated(a);
    assert forall|name: Seq<char>|
        a.ctx.container is Little && (#[trigger] t.section(
            name,
        )) is Some implies roundtrip::shdr_fits(t.section(name)->0, t.ctx) by {
        placement::lemma_found(t.shdrs, t.shstrtab, name, 0);
    }
}

impl ElfState {
    /// Whether a file can be written: what waits, if anything, can be placed, and the
    /// headers then fit in the class.
    pub open spec fn can_be_written(self) -> bool {
        self.writing() is Some && (self.replaced.len() > 0 ==> self.fits_class())
    }
}

/// A regular file that was modified and can be written is written without an error, and
/// can be read again.
pub proof fn law_modified_files_can_be_read(data: Seq<u8>, s: ElfState, a: ElfState)
    requires
        state::is_parsed(data, s),
        s.is_regular(),
        is_modified(s, a),
        a.can_be_written(),
    ensures
        a.writing()->0.error is None,
        state::parse_fault(a.written()) is None,
{
    lemma_modified(data, s, a);
    if a.replaced.len() > 0 {
        assert(a.relocated() is Some);
        law_sound_files_write_well(a);
        laws::law_written_files_can_be_read(a);
    } else {
        assert(a.written() == a.contents);
        reread::lemma_same_headers_read(data, s, a.contents);
    }
}

/// The interpreter that was set in a regular file is read after writing, also from the
/// file that was written where its headers fit in the class.
pub proof fn law_interpreter_of_a_file(data: Seq<u8>, s: ElfState, path: Seq<char>)
    requires
        state::is_parsed(data, s),
        s.is_regular(),
        s.setting_interpreter(path).error is None,
        s.setting_interpreter(path).state.writing() is Some,
    ensures
        ({
            let a = s.setting_interpreter(path).state;
            &&& a.writing()->0.error is None
            &&& a.writing()->0.state.interpreter() == Some(path)
            &&& a.can_be_written() ==> {
                &&& state::parse_fault(a.written()) is None
                &&& forall|r: ElfState| #[trigger]
                    state::is_parsed(a.written(), r) ==> r.interpreter() == Some(path)
            }
        }),
{
    let a = s.setting_interpreter(path).state;
    let content = edits::c_string(path);
    laws::law_last_interpreter_waits(s, path);
    sections::lemma_put_ordered(s.replaced, ".interp"@, content);
    assert forall|name: Seq<char>|
        name != ".interp"@ && name != ".dynstr"@ && name
            != ".dynamic"@ implies #[trigger] sections::lookup(a.replaced, name) is None by {
        sections::lemma_lookup_put(s.replaced, ".interp"@, content, name);
    }
    lemma_modified(data, s, a);
    if a.can_be_written() {
        law_modified_files_can_be_read(data, s, a);
    }
    if sections::lookup(a.replaced, ".interp"@) is Some {
        assert(a.replaced == sections::put(s.replaced, ".interp"@, content));
        assert(a.replaced.len() > 0);
        assert(a.relocated() is Some);
        assert(a.find(".interp"@) is Some);
        law_sound_files_can_be_written(a, ".interp"@);
        laws::law_pending_interpreter_is_read_after_writing(a, path);
        assert forall|r: ElfState| a.can_be_written() && #[trigger] state::is_parsed(
            a.written(),
            r,
        ) implies r.interpreter() == Some(path) by {
            law_sound_files_write_well(a);
            laws::law_pending_interpreter_is_read_again(a, path, r);
        }
    } else {
        assert forall|r: ElfState| #[trigger] state::is_parsed(
            a.written(),
            r,
        ) implies r.interpreter() == Some(path) by {
            laws::law_parsing_is_unambiguous(data, s, r);
        }
    }
}

/// Whether needed libraries are read after writing, also from the file that was written,
/// which can be read.
pub open spec fn reads_needed(a: ElfState, names: Seq<Seq<char>>) -> bool {
    let w = a.writing()->0.state;
    &&& a.writing()->0.error is None
    &&& w.readable()
    &&& w.needed() == Ok::<Seq<Seq<char>>, ErrorView>(names)
    &&& state::parse_fault(a.written()) is None
    &&& forall|r: ElfState| #[trigger]
        state::is_parsed(a.written(), r) ==> r.readable() && r.needed() == Ok::<
            Seq<Seq<char>>,
            ErrorView,
        >(names)
}

/// Whether search paths are read under a tag after writing, also from the file that was
/// written, which can be read.
pub open spec fn reads_paths(a: ElfState, tag: u64, paths: Seq<Seq<char>>) -> bool {
    let w = a.writing()->0.state;
    &&& a.writing()->0.error is None
    &&& w.readable()
    &&& w.search_paths(tag) == Ok::<Seq<Seq<char>>, ErrorView>(paths)
    &&& state::parse_fault(a.written()) is None
    &&& forall|r: ElfState| #[trigger]
        state::is_parsed(a.written(), r) ==> r.readable() && r.search_paths(tag) == Ok::<
            Seq<Seq<char>>,
            ErrorView,
        >(paths)
}

/// The needed libraries and the search paths that were to be written in a regular file
/// are read from the file that was written.
proof fn lemma_linking_reread(data: Seq<u8>, s: ElfState, a: ElfState, r: ElfState, tag: u64)
    requires
        state::is_parsed(data, s),
        s.is_regular(),
        is_modified(s, a),
        a.is_linked(),
        a.can_be_written(),
        state::is_parsed(a.written(), r),
        tag == DT_RPATH || tag == DT_RUNPATH,
    ensures
        r.readable(),
        r.needed() == Ok::<Seq<Seq<char>>, ErrorView>(a.next_needed()),
        r.search_paths(tag) == Ok::<Seq<Seq<char>>, ErrorView>(a.next_paths(tag)),
{
    lemma_modified(data, s, a);
    if a.replaced.len() > 0 {
        assert(a.relocated() is Some);
        law_sound_files_can_be_written(a, ".dynstr"@);
        law_sound_files_can_be_written(a, ".dynamic"@);
        law_sound_files_write_well(a);
        laws::law_linking_is_read_again(a, r, tag);
        laws::law_written_sections_are_readable(a, r);
    } else {
        assert(a.replaced =~= Seq::empty());
        linking::lemma_nothing_waits(a, tag);
        assert(a.written() == a.contents);
        reread::lemma_same_headers(data, s, a.contents, r);
        assert(r.replaced =~= Seq::empty());
        let g = a.section(".dynamic"@)->0;
        assert(r.section(".dynamic"@) == a.section(".dynamic"@));
        assert(r.section(".dynstr"@) == a.section(".dynstr"@));
        assert(r.pending(g) is None);
        assert(r.dyn_data(g) == a.dyn_data(g));
    }
}

/// The needed libraries and the search paths that were to be written in a regular file
/// are read after writing, also from the file that was written.
proof fn lemma_linking_of_a_file(data: Seq<u8>, s: ElfState, a: ElfState, tag: u64)
    requires
        state::is_parsed(data, s),
        s.is_regular(),
        is_modified(s, a),
        a.is_linked(),
        a.can_be_written(),
        tag == DT_RPATH || tag == DT_RUNPATH,
    ensures
        reads_needed(a, a.next_needed()),
        reads_paths(a, tag, a.next_paths(tag)),
{
    law_modified_files_can_be_read(data, s, a);
    lemma_modified(data, s, a);
    if a.replaced.len() > 0 {
        assert(a.relocated() is Some);
        law_sound_files_can_be_written(a, ".dynstr"@);
        law_sound_files_can_be_written(a, ".dynamic"@);
        lemma_fits(a);
        laws::law_linking_is_read_after_writing(a, tag);
    } else {
        assert(a.replaced =~= Seq::empty());
        linking::lemma_nothing_waits(a, tag);
    }
    assert forall|r: ElfState| #[trigger] state::is_parsed(a.written(), r) implies r.readable()
        && r.needed() == Ok::<Seq<Seq<char>>, ErrorView>(a.next_needed()) && r.search_paths(tag)
        == Ok::<Seq<Seq<char>>, ErrorView>(a.next_paths(tag)) by {
        lemma_linking_reread(data, s, a, r, tag);
    }
}

/// Search paths that were set in a regular file, longer than the present ones, as long or
/// shorter, or the first ones, are read after writing, also from the file that was
/// written.
pub proof fn law_search_paths_of_a_file(data: Seq<u8>, s: ElfState, path: Seq<char>, tag: u64)
    requires
        state::is_parsed(data, s),
        s.is_regular(),
        s.sets_path(path, tag),
        s.setting_path(path, tag)->0.state.can_be_written(),
    ensures
        s.setting_path(path, tag)->0.error is None,
        reads_paths(s.setting_path(path, tag)->0.state, tag, text::split(path, ':')),
{
    let a = s.setting_path(path, tag)->0.state;
    let none = Seq::empty();
    path_laws::law_search_paths_are_set(s, path, tag);
    if s.path_fits(path) {
        path_laws::lemma_path_in_place(s, path, tag);
    } else {
        path_laws::lemma_path_behind(s, path, tag);
    }
    laws::law_names_stay_in_order(s, path, tag, none, Seq::empty());
    assert forall|name: Seq<char>|
        name != ".interp"@ && name != ".dynstr"@ && name
            != ".dynamic"@ implies #[trigger] sections::lookup(a.replaced, name) is None by {
        laws::law_linking_leaves_other_contents(s, path, tag, none, Seq::empty(), name);
        assert(sections::lookup(s.replaced, name) is None);
    }
    assert(is_modified(s, a));
    lemma_linking_of_a_file(data, s, a, tag);
}

/// The libraries that a regular file needs and those that were added to it are read after
/// writing, also from the file that was written.
pub proof fn law_added_libraries_of_a_file(data: Seq<u8>, s: ElfState, libs: Seq<Seq<char>>)
    requires
        state::is_parsed(data, s),
        s.is_regular(),
        s.has_linking(),
        library_laws::adds_libraries(s, libs),
        forall|i: int| 0 <= i < libs.len() ==> !encode_utf8(#[trigger] libs[i]).contains(0),
        linking::strings_sound(s.next_entries(), s.next_strings()),
        s.adding_needed(libs)->0.state.can_be_written(),
    ensures
        s.needed() is Ok,
        reads_needed(s.adding_needed(libs)->0.state, s.needed()->Ok_0 + libs),
{
    let a = s.adding_needed(libs)->0.state;
    library_laws::law_added_libraries_are_needed(s, libs);
    assert(is_modified(s, a)) by {
        library_laws::lemma_adding(s, libs);
        lemma_libraries_modified(s, libs, Seq::empty());
    }
    linking::lemma_nothing_waits(s, DT_RPATH);
    lemma_linking_of_a_file(data, s, a, DT_RPATH);
}

/// The modifications of needed libraries let nothing wait but strings and entries.
proof fn lemma_libraries_modified(
    s: ElfState,
    libs: Seq<Seq<char>>,
    replacements: Seq<(Seq<char>, Seq<char>)>,
)
    requires
        s.replaced.len() == 0,
        s.shdrs.len() <= usize::MAX,
    ensures
        s.adding_needed(libs) matches Some(step) ==> only_linking_waits(step.state),
        s.removing_needed(libs) matches Some(step) ==> only_linking_waits(step.state),
        s.replacing_needed(replacements) matches Some(step) ==> only_linking_waits(step.state),
{
    let none = Seq::empty();
    laws::law_names_stay_in_order(s, none, DT_RPATH, libs, replacements);
    let added = s.adding_needed(libs)->0.state;
    let removed = s.removing_needed(libs)->0.state;
    let replaced = s.replacing_needed(replacements)->0.state;
    assert forall|name: Seq<char>|
        s.adding_needed(libs) is Some && name != ".interp"@ && name != ".dynstr"@ && name
            != ".dynamic"@ implies #[trigger] sections::lookup(added.replaced, name) is None by {
        laws::law_linking_leaves_other_contents(s, none, DT_RPATH, libs, replacements, name);
    }
    assert forall|name: Seq<char>|
        s.removing_needed(libs) is Some && name != ".interp"@ && name != ".dynstr"@ && name
            != ".dynamic"@ implies #[trigger] sections::lookup(removed.replaced, name) is None by {
        laws::law_linking_leaves_other_contents(s, none, DT_RPATH, libs, replacements, name);
    }
    assert forall|name: Seq<char>|
        s.replacing_needed(replacements) is Some && name != ".interp"@ && name != ".dynstr"@ && name
            != ".dynamic"@ implies #[trigger] sections::lookup(replaced.replaced, name) is None by {
        laws::law_linking_leaves_other_contents(s, none, DT_RPATH, libs, replacements, name);
    }
}

/// The libraries that a regular file needs but those that were removed from it are read
/// after writing, also from the file that was written.
pub proof fn law_removed_libraries_of_a_file(data: Seq<u8>, s: ElfState, libs: Seq<Seq<char>>)
    requires
        state::is_parsed(data, s),
        s.is_regular(),
        s.has_linking(),
        libs.len() > 0,
        s.removing_needed(libs)->0.state.can_be_written(),
    ensures
        s.needed() is Ok,
        s.removing_needed(libs) is Some,
        s.removing_needed(libs)->0.error is None,
        reads_needed(
            s.removing_needed(libs)->0.state,
            library_laws::remaining(s.needed()->Ok_0, libs),
        ),
{
    let a = s.removing_needed(libs)->0.state;
    library_laws::law_removed_libraries_are_not_needed(s, libs);
    assert(is_modified(s, a)) by {
        library_laws::lemma_removing(s, libs);
        lemma_libraries_modified(s, libs, Seq::empty());
    }
    linking::lemma_nothing_waits(s, DT_RPATH);
    lemma_linking_of_a_file(data, s, a, DT_RPATH);
}

/// The libraries that a regular file needs are read after writing, also from the file
/// that was written, under the names that they were given by replacements.
pub proof fn law_replaced_libraries_of_a_file(
    data: Seq<u8>,
    s: ElfState,
    replacements: Seq<(Seq<char>, Seq<char>)>,
)
    requires
        state::is_parsed(data, s),
        s.is_regular(),
        s.replaces_libraries(replacements),
        s.replacing_needed(replacements)->0.state.can_be_written(),
    ensures
        s.needed() is Ok,
        s.replacing_needed(replacements)->0.error is None,
        reads_needed(
            s.replacing_needed(replacements)->0.state,
            renaming_laws::replaced_names(replacements, s.needed()->Ok_0),
        ),
{
    let a = s.replacing_needed(replacements)->0.state;
    renaming_laws::lemma_replacing(s, replacements);
    lemma_libraries_modified(s, Seq::empty(), replacements);
    assert(is_modified(s, a));
    linking::lemma_nothing_waits(s, DT_RPATH);
    lemma_linking_of_a_file(data, s, a, DT_RPATH);
}

/// In a regular file that was modified and written every dynamic entry has the value that
/// the sections of the file give to its tag.
pub proof fn law_entries_of_a_file(data: Seq<u8>, s: ElfState, a: ElfState)
    requires
        state::is_parsed(data, s),
        s.is_regular(),
        is_modified(s, a),
        a.replaced.len() > 0,
        a.can_be_written(),
        s.section(".dynamic"@) is Some,
    ensures
        state::parse_fault(a.written()) is None,
        forall|r: ElfState| #[trigger]
            state::is_parsed(a.written(), r) ==> r.section(".dynamic"@) is Some
                && laws::entries_follow_sections(r),
{
    law_modified_files_can_be_read(data, s, a);
    lemma_modified(data, s, a);
    assert(a.relocated() is Some);
    assert(a.section(".dynamic"@) == s.section(".dynamic"@));
    law_sound_files_can_be_written(a, ".dynamic"@);
    law_sound_files_write_well(a);
    assert forall|r: ElfState| #[trigger] state::is_parsed(a.written(), r) implies r.section(
        ".dynamic"@,
    ) is Some && laws::entries_follow_sections(r) by {
        laws::law_written_entries_follow_sections(a, r);
    }
}

} // verus!
