//! What holds of modification, writing and reading together.

use crate::codec;
use crate::edits;
use crate::linking;
use crate::order;
use crate::placement;
use crate::relocation;
use crate::reread;
use crate::roundtrip;
use crate::sections;
use crate::state;
use crate::state::ElfState;
use crate::types::{
    Dyn, ErrorView, Header, SectionHeader, DT_NULL, DT_RPATH, DT_RUNPATH, ET_DYN, ET_EXEC,
    PT_DYNAMIC, PT_INTERP, PT_NOTE, PT_PHDR,
};
use vstd::prelude::*;
use vstd::utf8::*;

verus! {

impl ElfState {
    /// Whether contents wait and can be placed.
    pub open spec fn is_placeable(self) -> bool {
        &&& self.replaced.len() > 0
        &&& sections::ordered(self.replaced)
        &&& self.shdrs.len() <= usize::MAX
        &&& self.header.e_type == ET_DYN || self.header.e_type == ET_EXEC
        &&& self.ctx == codec::announced_ctx(self.header.e_ident@)
        &&& self.relocated() is Some
        &&& self.dynamic_settled()
    }

    /// Whether the file that is written can be read again: contents wait and can be
    /// placed, the headers are then apart from each other and from the section names,
    /// and all their fields fit in the class.
    pub open spec fn writes_well(self) -> bool {
        let t = self.relocated()->0;
        let names = t.shdrs[t.header.e_shstrndx as int];
        &&& self.is_placeable()
        &&& t.is_encodable()
        &&& t.tables_apart()
        &&& self.names_safe()
        &&& t.is_clear(names.sh_offset as int, names.sh_offset + names.sh_size)
    }

    /// Whether a section of the file that is written lies apart from the headers.
    pub open spec fn spares(self, name: Seq<char>) -> bool {
        let t = self.relocated()->0;
        t.section(name) matches Some(h) ==> t.is_clear(
            h.sh_offset as int,
            h.sh_offset + h.sh_size,
        )
    }

    /// Whether the dynamic entries and their strings lie apart from the headers in the
    /// file that is written, and the strings are not another section of their name.
    pub open spec fn spares_linking(self) -> bool {
        &&& self.spares(".dynstr"@)
        &&& self.spares(".dynamic"@)
        &&& sections::lookup(self.replaced, ".dynstr"@) is None ==> self.sole(".dynstr"@)
    }

    /// The bytes of the file that is written.
    pub open spec fn written(self) -> Seq<u8> {
        self.writing()->0.state.contents
    }
}

/// Whether two file headers are the same.
pub open spec fn same_header(h: Header, g: Header) -> bool {
    &&& h.e_ident@ == g.e_ident@
    &&& h.e_type == g.e_type
    &&& h.e_machine == g.e_machine
    &&& h.e_version == g.e_version
    &&& h.e_entry == g.e_entry
    &&& h.e_phoff == g.e_phoff
    &&& h.e_shoff == g.e_shoff
    &&& h.e_flags == g.e_flags
    &&& h.e_ehsize == g.e_ehsize
    &&& h.e_phentsize == g.e_phentsize
    &&& h.e_phnum == g.e_phnum
    &&& h.e_shentsize == g.e_shentsize
    &&& h.e_shnum == g.e_shnum
    &&& h.e_shstrndx == g.e_shstrndx
}

/// Two readings of one file give the same state.
pub proof fn law_parsing_is_unambiguous(data: Seq<u8>, u: ElfState, r: ElfState)
    requires
        state::is_parsed(data, u),
        state::is_parsed(data, r),
    ensures
        r.contents == u.contents,
        r.phdrs == u.phdrs,
        r.shdrs == u.shdrs,
        r.shstrtab == u.shstrtab,
        r.replaced == u.replaced,
        r.ctx == u.ctx,
        r.changed == u.changed,
        r.index_map == u.index_map,
        same_header(r.header, u.header),
{
}

/// A file that was written is read with the headers that were written.
pub proof fn law_headers_are_read_again(a: ElfState, r: ElfState)
    requires
        a.writes_well(),
        state::is_parsed(a.written(), r),
    ensures
        a.writing()->0.error is None,
        r.phdrs == a.relocated()->0.phdrs,
        r.shdrs == a.relocated()->0.shdrs,
        r.shstrtab == a.shstrtab,
        r.ctx == a.ctx,
        r.replaced.len() == 0,
{
    let t = a.relocated()->0;
    let w = t.headers_written().state;
    reread::lemma_headers_written(t);
    reread::lemma_reread(t);
    law_parsing_is_unambiguous(w.contents, w.as_read(), r);
    placement::lemma_relocated(a);
    placement::lemma_names_kept(a);
    let h = t.shdrs[t.header.e_shstrndx as int];
    assert(r.shstrtab =~= a.shstrtab) by {
        let from = h.sh_offset as int;
        assert forall|q: int| 0 <= q < h.sh_size implies #[trigger] w.contents[from + q]
            == t.contents[from + q] by {
            assert(t.is_clear(from + q, from + q + 1));
        }
        assert(w.contents.subrange(from, from + h.sh_size) =~= t.body(h));
    }
}

/// A file that was written can be read again.
pub proof fn law_written_files_can_be_read(a: ElfState)
    requires
        a.writes_well(),
    ensures
        a.writing()->0.error is None,
        state::parse_fault(a.written()) is None,
{
    let t = a.relocated()->0;
    reread::lemma_headers_written(t);
    reread::lemma_reread(t);
}

/// Headers that are written at their places, inside the file and apart from each other,
/// are read again, and the other bytes stay.
pub proof fn law_headers_are_written(t: ElfState)
    requires
        t.is_encodable(),
        t.tables_apart(),
    ensures
        ({
            let w = t.headers_written().state;
            &&& t.headers_written().error is None
            &&& w == t.with_contents(w.contents)
            &&& w.contents.len() == t.contents.len()
            &&& forall|q: int|
                0 <= q < w.contents.len() && t.is_clear(q, q + 1) ==> #[trigger] w.contents[q]
                    == t.contents[q]
            &&& state::parse_fault(w.contents) is None
            &&& forall|r: ElfState| #[trigger]
                state::is_parsed(w.contents, r) ==> {
                    &&& same_header(r.header, t.header)
                    &&& r.phdrs == t.phdrs
                    &&& r.shdrs == t.shdrs
                    &&& r.ctx == t.ctx
                }
        }),
{
    let w = t.headers_written().state;
    reread::lemma_headers_written(t);
    reread::lemma_reread(t);
    assert forall|r: ElfState| #[trigger] state::is_parsed(w.contents, r) implies {
        &&& same_header(r.header, t.header)
        &&& r.phdrs == t.phdrs
        &&& r.shdrs == t.shdrs
        &&& r.ctx == t.ctx
    } by {
        law_parsing_is_unambiguous(w.contents, w.as_read(), r);
    }
}

/// Dynamic entries that fit in the class, of which only the last may be a null entry, are
/// read back when they were made to wait.
pub proof fn law_waiting_entries_are_read_back(s: ElfState, entries: Seq<Dyn>)
    requires
        s.section(".dynamic"@) is Some,
        forall|i: int|
            0 <= i < entries.len() ==> roundtrip::dyn_fits(#[trigger] entries[i], s.ctx),
        forall|i: int| 0 <= i < entries.len() - 1 ==> (#[trigger] entries[i]).d_tag != DT_NULL,
    ensures
        s.with_dyns(entries).section(".dynamic"@) == s.section(".dynamic"@),
        s.with_dyns(entries).dyns(s.section(".dynamic"@)->0) == entries,
{
    linking::lemma_with_section(s, ".dynamic"@, state::dyns_bytes(entries, s.ctx));
    roundtrip::lemma_dyns_roundtrip(entries, s.ctx);
}

/// A section of the file that is written, apart from the headers, is read with the
/// bytes that it had when the headers were written.
pub proof fn lemma_section_read(a: ElfState, r: ElfState, name: Seq<char>)
    requires
        a.writes_well(),
        state::is_parsed(a.written(), r),
        a.spares(name),
        a.relocated()->0.section(name) is Some,
        a.relocated()->0.in_file(a.relocated()->0.section(name)->0),
    ensures
        r.section(name) == a.relocated()->0.section(name),
        r.in_file(r.section(name)->0),
        r.body(r.section(name)->0) == a.relocated()->0.body(r.section(name)->0),
{
    let t = a.relocated()->0;
    let w = t.headers_written().state;
    law_headers_are_read_again(a, r);
    reread::lemma_headers_written(t);
    placement::lemma_relocated(a);
    let h = t.section(name)->0;
    let from = h.sh_offset as int;
    assert forall|q: int| 0 <= q < h.sh_size implies #[trigger] w.contents[from + q]
        == t.contents[from + q] by {
        assert(t.is_clear(from + q, from + q + 1));
    }
    assert(r.body(h) =~= t.body(h));
}

/// After writing, a section apart from the headers holds the bytes that it had when the
/// headers were written.
proof fn lemma_section_after(a: ElfState, h: SectionHeader)
    requires
        a.is_placeable(),
        a.writing()->0.error is None,
        a.relocated()->0.is_clear(h.sh_offset as int, h.sh_offset + h.sh_size),
        a.relocated()->0.in_file(h),
    ensures
        ({
            let w = a.writing()->0.state;
            let t = a.relocated()->0;
            &&& w == t.with_contents(w.contents)
            &&& w.contents.len() == t.contents.len()
            &&& w.body(h) == t.body(h)
        }),
{
    let t = a.relocated()->0;
    placement::lemma_relocated(a);
    reread::lemma_headers_elsewhere(t, h.sh_offset as int, h.sh_offset + h.sh_size);
}

/// A content that waited is read again: it is the content of its section in the file
/// that was written. Dynamic entries are another matter, for their values change.
pub proof fn law_pending_content_is_read_again(a: ElfState, r: ElfState, name: Seq<char>)
    requires
        a.writes_well(),
        state::is_parsed(a.written(), r),
        a.find(name) is Some,
        sections::lookup(a.replaced, name) is Some,
        name != ".dynamic"@,
        a.spares(name),
    ensures
        r.section(name) is Some,
        r.in_file(r.section(name)->0),
        r.body(r.section(name)->0) == sections::lookup(a.replaced, name)->0,
        r.section(name)->0.sh_offset >= a.contents.len(),
{
    placement::lemma_pending_placed(a, name);
    lemma_section_read(a, r, name);
}

/// A section that nothing was done to is read again with the same content.
pub proof fn law_other_sections_are_read_again(a: ElfState, r: ElfState, name: Seq<char>)
    requires
        a.writes_well(),
        state::is_parsed(a.written(), r),
        a.sole(name),
        a.in_file(a.section(name)->0),
        sections::lookup(a.replaced, name) is None,
        name != ".dynamic"@,
        a.beside_dynamic(a.section(name)->0),
        a.spares(name),
    ensures
        r.section(name) is Some,
        r.in_file(r.section(name)->0),
        r.body(r.section(name)->0) == a.body(a.section(name)->0),
{
    placement::lemma_section_kept(a, name);
    lemma_section_read(a, r, name);
}

/// A file to which nothing was done is written as it was.
pub proof fn law_writing_without_changes(data: Seq<u8>, s: ElfState)
    requires
        state::is_parsed(data, s),
    ensures
        s.writing() == edits::done(s),
        s.written() == data,
{
}

/// The bytes that a file had stay where they were, but for those that hold headers or
/// dynamic entries that do not wait.
pub proof fn law_old_bytes_stay(a: ElfState, i: int)
    requires
        a.is_placeable(),
        a.writing()->0.error is None,
        a.relocated()->0.is_clear(i, i + 1),
        0 <= i < a.contents.len(),
        a.section(".dynamic"@) matches Some(h) ==> sections::lookup(
            a.replaced,
            ".dynamic"@,
        ) is Some || reread::apart(i, i + 1, h.sh_offset as int, h.sh_offset + h.sh_size),
    ensures
        a.written().len() > a.contents.len(),
        a.written()[i] == a.contents[i],
{
    let t = a.relocated()->0;
    placement::lemma_relocated(a);
    placement::lemma_old_bytes(a, i, i + 1);
    reread::lemma_headers_elsewhere(t, i, i + 1);
    assert(t.contents.subrange(i, i + 1)[0] == t.contents[i]);
    assert(a.contents.subrange(i, i + 1)[0] == a.contents[i]);
    assert(a.written().subrange(i, i + 1)[0] == a.written()[i]);
}

/// The interpreter that was set last is the one that waits, if one does.
pub proof fn law_last_interpreter_waits(s: ElfState, path: Seq<char>)
    requires
        s.setting_interpreter(path).error is None,
    ensures
        ({
            let a = s.setting_interpreter(path).state;
            match sections::lookup(a.replaced, ".interp"@) {
                Some(content) => content == edits::c_string(path),
                None => a == s && s.interpreter() == Some(path),
            }
        }),
{
    sections::lemma_lookup_put(s.replaced, ".interp"@, edits::c_string(path), ".interp"@);
}

/// An interpreter that waits is read from the file that is written, whatever else was
/// modified.
pub proof fn law_pending_interpreter_is_read_again(a: ElfState, path: Seq<char>, r: ElfState)
    requires
        a.find(".interp"@) is Some,
        sections::lookup(a.replaced, ".interp"@) == Some(edits::c_string(path)),
        a.writes_well(),
        a.spares(".interp"@),
        state::is_parsed(a.written(), r),
    ensures
        r.interpreter() == Some(path),
{
    reveal_strlit(".interp");
    reveal_strlit(".dynamic");
    assert(".interp"@[1] != ".dynamic"@[1]);
    law_pending_content_is_read_again(a, r, ".interp"@);
    let h = r.section(".interp"@)->0;
    assert(r.body(h).drop_last() =~= encode_utf8(path));
    encode_utf8_valid_utf8(path);
    encode_utf8_decode_utf8(path);
}

/// An interpreter that waits is the one that is read after writing.
pub proof fn law_pending_interpreter_is_read_after_writing(a: ElfState, path: Seq<char>)
    requires
        a.find(".interp"@) is Some,
        sections::lookup(a.replaced, ".interp"@) == Some(edits::c_string(path)),
        a.is_placeable(),
        a.writing()->0.error is None,
        a.spares(".interp"@),
    ensures
        a.writing()->0.state.interpreter() == Some(path),
{
    reveal_strlit(".interp");
    reveal_strlit(".dynamic");
    assert(".interp"@[1] != ".dynamic"@[1]);
    placement::lemma_pending_placed(a, ".interp"@);
    let t = a.relocated()->0;
    let h = t.section(".interp"@)->0;
    lemma_section_after(a, h);
    let w = a.writing()->0.state;
    assert(w.section(".interp"@) == t.section(".interp"@));
    assert(w.body(h).drop_last() =~= encode_utf8(path));
    encode_utf8_valid_utf8(path);
    encode_utf8_decode_utf8(path);
}

/// The modifications of search paths and needed libraries leave the sections as they
/// are and what waits under other names, such as the interpreter.
pub proof fn law_linking_leaves_other_contents(
    s: ElfState,
    path: Seq<char>,
    tag: u64,
    libs: Seq<Seq<char>>,
    replacements: Seq<(Seq<char>, Seq<char>)>,
    name: Seq<char>,
)
    requires
        name != ".dynstr"@,
        name != ".dynamic"@,
    ensures
        s.setting_path(path, tag) matches Some(step) ==> step.state.shdrs == s.shdrs
            && step.state.shstrtab == s.shstrtab && sections::lookup(step.state.replaced, name)
            == sections::lookup(s.replaced, name),
        s.adding_needed(libs) matches Some(step) ==> step.state.shdrs == s.shdrs
            && step.state.shstrtab == s.shstrtab && sections::lookup(step.state.replaced, name)
            == sections::lookup(s.replaced, name),
        s.removing_needed(libs) matches Some(step) ==> step.state.shdrs == s.shdrs
            && step.state.shstrtab == s.shstrtab && sections::lookup(step.state.replaced, name)
            == sections::lookup(s.replaced, name),
        s.replacing_needed(replacements) matches Some(step) ==> step.state.shdrs == s.shdrs
            && step.state.shstrtab == s.shstrtab && sections::lookup(step.state.replaced, name)
            == sections::lookup(s.replaced, name),
{
    assert forall|m: Seq<(Seq<char>, Seq<u8>)>, content: Seq<u8>|
        sections::lookup(#[trigger] sections::put(m, ".dynstr"@, content), name)
            == sections::lookup(m, name) by {
        sections::lemma_lookup_put(m, ".dynstr"@, content, name);
    }
    assert forall|m: Seq<(Seq<char>, Seq<u8>)>, content: Seq<u8>|
        sections::lookup(#[trigger] sections::put(m, ".dynamic"@, content), name)
            == sections::lookup(m, name) by {
        sections::lemma_lookup_put(m, ".dynamic"@, content, name);
    }
    if replacements.len() > 0 {
        if let (Some(strings), Some(dynamic)) = (s.section(".dynstr"@), s.section(".dynamic"@)) {
            let entries = s.dyns(dynamic);
            let names = s.strings(strings)->0;
            let added = edits::longer_names(entries, names, replacements, entries.len() as int);
            let tail = edits::c_strings(added, added.len() as int);
            lemma_renaming_leaves(s, strings, entries, names, replacements, added, 0, name);
            lemma_renaming_leaves(
                s.with_strings(strings, tail),
                strings,
                entries,
                names,
                replacements,
                added,
                0,
                name,
            );
        }
    }
}

/// Writing new names over old ones leaves the sections, what waits under other names and
/// the order of these.
proof fn lemma_renaming_leaves(
    s: ElfState,
    h: SectionHeader,
    entries: Seq<Dyn>,
    names: Seq<u8>,
    replacements: Seq<(Seq<char>, Seq<char>)>,
    added: Seq<Seq<char>>,
    i: int,
    name: Seq<char>,
)
    ensures
        s.renamed_from(h, entries, names, replacements, added, i) matches Some(w) ==> {
            &&& w.shdrs == s.shdrs
            &&& w.shstrtab == s.shstrtab
            &&& name != ".dynstr"@ ==> sections::lookup(w.replaced, name) == sections::lookup(
                s.replaced,
                name,
            )
            &&& sections::ordered(s.replaced) ==> sections::ordered(w.replaced)
        },
    decreases entries.len() - i,
{
    if i < entries.len() {
        if edits::renamed_in_place(entries[i], names, replacements, added) {
            let at = entries[i].d_val as int;
            let part = edits::padded_name(entries[i], names, replacements);
            if let Some(next) = s.with_string(h, at, part) {
                if let Some(content) = sections::lookup(s.replaced, ".dynstr"@) {
                    let patched = edits::overlaid(content, at, part);
                    sections::lemma_lookup_put(s.replaced, ".dynstr"@, patched, name);
                    if sections::ordered(s.replaced) {
                        sections::lemma_put_ordered(s.replaced, ".dynstr"@, patched);
                    }
                }
                lemma_renaming_leaves(
                    next,
                    h,
                    entries,
                    names,
                    replacements,
                    added,
                    i + 1,
                    name,
                );
            }
        } else {
            lemma_renaming_leaves(s, h, entries, names, replacements, added, i + 1, name);
        }
    }
}

/// The interpreter is read again where nothing was done to it.
pub proof fn law_interpreter_stays(a: ElfState, r: ElfState)
    requires
        a.writes_well(),
        state::is_parsed(a.written(), r),
        a.sole(".interp"@),
        a.in_file(a.section(".interp"@)->0),
        a.beside_dynamic(a.section(".interp"@)->0),
        sections::lookup(a.replaced, ".interp"@) is None,
        a.spares(".interp"@),
    ensures
        r.interpreter() == a.interpreter(),
{
    reveal_strlit(".interp");
    reveal_strlit(".dynamic");
    assert(".interp"@[1] != ".dynamic"@[1]);
    law_other_sections_are_read_again(a, r, ".interp"@);
    let h = a.section(".interp"@)->0;
    assert(a.body(h).len() == h.sh_size);
    assert(r.body(r.section(".interp"@)->0).len() == r.section(".interp"@)->0.sh_size);
}

/// Setting the interpreter that a file has changes nothing, where none waits.
pub proof fn law_same_interpreter(s: ElfState, path: Seq<char>)
    requires
        s.interpreter() == Some(path),
        sections::lookup(s.replaced, ".interp"@) is None,
    ensures
        s.setting_interpreter(path).state == s,
        s.setting_interpreter(path).error is None,
{
}

/// Adding, removing and replacing no libraries changes nothing.
pub proof fn law_no_libraries(s: ElfState)
    ensures
        s.adding_needed(Seq::empty()) == edits::done(s),
        s.removing_needed(Seq::empty()) == edits::done(s),
        s.replacing_needed(Seq::empty()) == edits::done(s),
{
}

/// Every operation keeps the names of the contents that wait in order, each once.
pub proof fn law_names_stay_in_order(
    s: ElfState,
    path: Seq<char>,
    tag: u64,
    libs: Seq<Seq<char>>,
    replacements: Seq<(Seq<char>, Seq<char>)>,
)
    requires
        sections::ordered(s.replaced),
        s.shdrs.len() <= usize::MAX,
    ensures
        sections::ordered(s.setting_interpreter(path).state.replaced),
        s.setting_path(path, tag) matches Some(step) ==> sections::ordered(step.state.replaced),
        s.adding_needed(libs) matches Some(step) ==> sections::ordered(step.state.replaced),
        s.removing_needed(libs) matches Some(step) ==> sections::ordered(step.state.replaced),
        s.replacing_needed(replacements) matches Some(step) ==> sections::ordered(
            step.state.replaced,
        ),
        s.writing() matches Some(step) ==> sections::ordered(step.state.replaced),
{
    assert forall|m: Seq<(Seq<char>, Seq<u8>)>, name: Seq<char>, content: Seq<u8>|
        sections::ordered(m) implies sections::ordered(
        #[trigger] sections::put(m, name, content),
    ) by {
        sections::lemma_put_ordered(m, name, content);
    }
    if s.relocated() is Some {
        placement::lemma_relocated_ordered(s);
    }
    if replacements.len() > 0 {
        if let (Some(strings), Some(dynamic)) = (s.section(".dynstr"@), s.section(".dynamic"@)) {
            let entries = s.dyns(dynamic);
            let names = s.strings(strings)->0;
            let added = edits::longer_names(entries, names, replacements, entries.len() as int);
            let tail = edits::c_strings(added, added.len() as int);
            let none = Seq::<char>::empty();
            lemma_renaming_leaves(s, strings, entries, names, replacements, added, 0, none);
            lemma_renaming_leaves(
                s.with_strings(strings, tail),
                strings,
                entries,
                names,
                replacements,
                added,
                0,
                none,
            );
        }
    }
}

/// New bytes are covered by a loaded segment, which loads them to the addresses that
/// were asked for. At most one segment is changed or put behind the others.
pub proof fn law_new_bytes_are_loaded(
    m: ElfState,
    offset: int,
    addr: int,
    file_size: int,
    mem_size: int,
) -> (k: int)
    requires
        m.loading(offset, addr, file_size, mem_size) is Some,
        0 <= offset,
        0 <= addr,
        0 <= file_size,
        0 <= mem_size,
        offset + file_size <= u64::MAX,
        addr + mem_size <= u64::MAX,
    ensures
        ({
            let l = m.loading(offset, addr, file_size, mem_size)->0;
            &&& 0 <= k < l.phdrs.len()
            &&& placement::covers_bytes(l.phdrs[k], offset, addr, file_size, mem_size)
            &&& m.phdrs.len() <= l.phdrs.len() <= m.phdrs.len() + 1
            &&& forall|i: int|
                0 <= i < m.phdrs.len() && i != k ==> #[trigger] l.phdrs[i] == m.phdrs[i]
        }),
{
    placement::lemma_covered(m, offset, addr, file_size, mem_size)
}

/// The contents that wait can be placed: where they can take nothing out of range behind
/// the file and the segments, and the headers can follow, there is room for all of them.
pub proof fn law_contents_find_room(s: ElfState)
    requires
        sections::ordered(s.replaced),
        s.shdrs.len() <= usize::MAX,
        s.dynamic_settled(),
        s.prepared() matches Some(p) && p.segments_in_range() && placement::fits_behind(s, p),
    ensures
        s.relocated() is Some,
{
    placement::lemma_can_relocate(s);
}

/// A section whose content waited is given an aligned place, in the file and in memory,
/// that a loaded segment covers.
pub proof fn law_placed_sections_are_loaded(a: ElfState, name: Seq<char>)
    requires
        a.relocated() is Some,
        sections::ordered(a.replaced),
        a.shdrs.len() <= usize::MAX,
        a.find(name) is Some,
        sections::lookup(a.replaced, name) is Some,
        a.relocated()->0.phdrs.len() <= usize::MAX,
    ensures
        ({
            let t = a.relocated()->0;
            let h = t.section(name)->0;
            &&& t.section(name) is Some
            &&& h.sh_offset as int % relocation::alignment(h) == 0
            &&& h.sh_addr as int % relocation::alignment(h) == 0
            &&& exists|i: int|
                0 <= i < t.phdrs.len() && placement::loads(#[trigger] t.phdrs[i], h)
        }),
{
    placement::lemma_placed_loaded(a, name);
}

/// What waits for sections is found at their places, which have nothing in common. Of
/// these, all but that of dynamic entries which did not wait lie behind the old end of
/// the file.
pub proof fn law_contents_are_placed_apart(a: ElfState, name: Seq<char>, other: Seq<char>)
    requires
        a.is_placeable(),
        name != other,
        a.relocated()->0.section(name) is Some,
        a.relocated()->0.section(other) is Some,
        sections::lookup(a.relocated()->0.replaced, name) is Some,
        sections::lookup(a.relocated()->0.replaced, other) is Some,
    ensures
        ({
            let t = a.relocated()->0;
            let h = t.section(name)->0;
            let g = t.section(other)->0;
            &&& t.in_file(h)
            &&& name != ".dynamic"@ ==> t.body(h) == sections::lookup(t.replaced, name)->0
            &&& name != ".dynamic"@ ==> a.contents.len() <= h.sh_offset
            &&& name != ".dynamic"@ && sections::lookup(a.replaced, name) is Some
                ==> sections::lookup(t.replaced, name) == sections::lookup(a.replaced, name)
            &&& reread::apart(
                h.sh_offset as int,
                h.sh_offset + h.sh_size,
                g.sh_offset as int,
                g.sh_offset + g.sh_size,
            )
        }),
{
    placement::lemma_contents(a, name);
    placement::lemma_contents(a, other);
    placement::lemma_contents_apart(a, name, other);
}

/// The segment for the interpreter and the one for the dynamic section cover these in
/// the file that was written, and the one for the program header table covers that.
pub proof fn law_segments_follow_sections(a: ElfState, i: int)
    requires
        a.relocated() is Some,
        a.shdrs.len() <= usize::MAX,
        0 <= i < a.relocated()->0.phdrs.len(),
    ensures
        ({
            let t = a.relocated()->0;
            let p = t.phdrs[i];
            &&& p.p_type == PT_INTERP ==> (t.section(".interp"@) matches Some(h)
                ==> placement::covers(p, h))
            &&& p.p_type == PT_DYNAMIC ==> (t.section(".dynamic"@) matches Some(h)
                ==> placement::covers(p, h))
            &&& p.p_type == PT_PHDR ==> p.p_offset == t.header.e_phoff && p.p_filesz == (
            t.phdrs.len() * t.ctx.phdr_len()) as u64
        }),
{
    placement::lemma_segments(a, i);
}

/// After writing, the interpreter is the one that the file that was written has.
pub proof fn law_interpreter_after_writing(a: ElfState, r: ElfState)
    requires
        a.writes_well(),
        state::is_parsed(a.written(), r),
    ensures
        a.writing()->0.state.interpreter() == r.interpreter(),
{
    law_headers_are_read_again(a, r);
    placement::lemma_relocated(a);
    reread::lemma_headers_written(a.relocated()->0);
    let w = a.writing()->0.state;
    assert(w.section(".interp"@) == r.section(".interp"@));
}

/// Sorting the section headers moves each of them to one place, by its place in the
/// file, and notes where. The file header then names the section names where they came
/// to stand.
pub proof fn law_sorting_keeps_sections(l: ElfState)
    requires
        l.shdrs.len() <= usize::MAX,
    ensures
        ({
            let p = l.sorted();
            let to = p.index_map;
            &&& to.len() == l.shdrs.len()
            &&& p.shdrs.len() == l.shdrs.len()
            &&& forall|i: int|
                0 <= i < l.shdrs.len() ==> (#[trigger] to[i]) < p.shdrs.len()
                    && p.shdrs[to[i] as int] == l.shdrs[i]
            &&& forall|i: int, j: int|
                0 <= i < j < l.shdrs.len() ==> (#[trigger] to[i]) != (#[trigger] to[j])
            &&& forall|i: int, j: int|
                0 <= i < j < p.shdrs.len() ==> (#[trigger] p.shdrs[i]).sh_offset <= (
                #[trigger] p.shdrs[j]).sh_offset
            &&& l.header.e_shstrndx < l.shdrs.len() <= u16::MAX + 1 ==> p.header.e_shstrndx
                == to[l.header.e_shstrndx as int]
        }),
{
    placement::lemma_sorted(l);
    let p = l.sorted();
    let o = l.sorting();
    assert forall|i: int, j: int| 0 <= i < j < p.shdrs.len() implies (
    #[trigger] p.shdrs[i]).sh_offset <= (#[trigger] p.shdrs[j]).sh_offset by {
        assert(order::stands_before(relocation::offsets(l.shdrs), o[i], o[j]));
        assert(p.shdrs[i] == l.shdrs[o[i] as int]);
        assert(p.shdrs[j] == l.shdrs[o[j] as int]);
    }
    if l.header.e_shstrndx < l.shdrs.len() && l.shdrs.len() <= u16::MAX + 1 {
        let n = l.header.e_shstrndx as int;
        let a = p.header.e_shstrndx as int;
        let b = p.index_map[n] as int;
        assert(o[a] == n && o[b] == n);
        if a < b {
            assert(order::stands_before(relocation::offsets(l.shdrs), o[a], o[b]));
        } else if b < a {
            assert(order::stands_before(relocation::offsets(l.shdrs), o[b], o[a]));
        }
    }
}

/// The dynamic entries and strings in the file are those that were to be written, the
/// entries with the values that the sections give them.
proof fn lemma_linking_placed(a: ElfState)
    requires
        a.is_placeable(),
        a.is_linked(),
        sections::lookup(a.replaced, ".dynstr"@) is None ==> a.sole(".dynstr"@),
        a.relocated()->0.values_fit(),
    ensures
        ({
            let t = a.relocated()->0;
            let h = t.section(".dynstr"@)->0;
            let g = t.section(".dynamic"@)->0;
            &&& t.section(".dynstr"@) is Some
            &&& t.section(".dynamic"@) is Some
            &&& t.in_file(h)
            &&& t.in_file(g)
            &&& t.body(h) == a.next_strings()
            &&& state::dyns_from(t.body(g), a.ctx, 0) == placement::updated(t, a.next_entries())
            &&& t.dyn_data(g) is Some
            &&& t.dyns(g) == placement::updated(t, a.next_entries())
        }),
{
    linking::lemma_names_differ();
    linking::lemma_dyn_data(a);
    placement::lemma_dynamic_placed(a);
    if sections::lookup(a.replaced, ".dynstr"@) is Some {
        placement::lemma_pending_placed(a, ".dynstr"@);
    } else {
        placement::lemma_section_kept(a, ".dynstr"@);
    }
}

/// Bringing entries in line with the sections leaves what they name.
proof fn lemma_updated_libraries(f: ElfState, entries: Seq<Dyn>, strings: Seq<u8>, n: int)
    requires
        0 <= n <= entries.len(),
    ensures
        state::libraries(placement::updated(f, entries), strings, n) == state::libraries(
            entries,
            strings,
            n,
        ),
    decreases n,
{
    if n > 0 {
        lemma_updated_libraries(f, entries, strings, n - 1);
        assert(placement::updated(f, entries)[n - 1] == f.updated_entry(entries[n - 1]));
    }
}

proof fn lemma_updated_paths(f: ElfState, entries: Seq<Dyn>, strings: Seq<u8>, tag: u64, i: int)
    requires
        0 <= i,
        tag == DT_RPATH || tag == DT_RUNPATH,
    ensures
        state::paths_from(placement::updated(f, entries), strings, tag, i) == state::paths_from(
            entries,
            strings,
            tag,
            i,
        ),
    decreases entries.len() - i,
{
    if i < entries.len() {
        lemma_updated_paths(f, entries, strings, tag, i + 1);
        assert(placement::updated(f, entries)[i] == f.updated_entry(entries[i]));
    }
}

/// The needed libraries and the search paths that were to be written are read from the
/// file that was written.
pub proof fn law_linking_is_read_again(a: ElfState, r: ElfState, tag: u64)
    requires
        a.writes_well(),
        a.is_linked(),
        a.spares_linking(),
        state::is_parsed(a.written(), r),
        tag == DT_RPATH || tag == DT_RUNPATH,
    ensures
        r.needed() == Ok::<Seq<Seq<char>>, ErrorView>(a.next_needed()),
        r.search_paths(tag) == Ok::<Seq<Seq<char>>, ErrorView>(a.next_paths(tag)),
{
    let t = a.relocated()->0;
    lemma_values_fit(t);
    lemma_linking_placed(a);
    lemma_section_read(a, r, ".dynstr"@);
    lemma_section_read(a, r, ".dynamic"@);
    law_headers_are_read_again(a, r);
    let g = r.section(".dynamic"@)->0;
    assert(r.replaced =~= Seq::empty());
    assert(r.pending(g) is None);
    let entries = a.next_entries();
    lemma_updated_libraries(t, entries, a.next_strings(), entries.len() as int);
    lemma_updated_paths(t, entries, a.next_strings(), tag, 0);
}

/// In the file that was written the dynamic entries can be read.
pub proof fn law_written_sections_are_readable(a: ElfState, r: ElfState)
    requires
        a.writes_well(),
        a.is_linked(),
        a.spares_linking(),
        state::is_parsed(a.written(), r),
    ensures
        r.readable(),
{
    lemma_values_fit(a.relocated()->0);
    lemma_linking_placed(a);
    lemma_section_read(a, r, ".dynamic"@);
}

/// The needed libraries and the search paths that were to be written are those that are
/// read after writing.
pub proof fn law_linking_is_read_after_writing(a: ElfState, tag: u64)
    requires
        a.is_placeable(),
        a.writing()->0.error is None,
        a.is_linked(),
        a.spares_linking(),
        a.relocated()->0.values_fit(),
        tag == DT_RPATH || tag == DT_RUNPATH,
    ensures
        a.writing()->0.state.readable(),
        a.writing()->0.state.needed() == Ok::<Seq<Seq<char>>, ErrorView>(a.next_needed()),
        a.writing()->0.state.search_paths(tag) == Ok::<Seq<Seq<char>>, ErrorView>(
            a.next_paths(tag),
        ),
{
    let t = a.relocated()->0;
    let w = a.writing()->0.state;
    lemma_linking_placed(a);
    placement::lemma_relocated(a);
    let h = t.section(".dynstr"@)->0;
    let g = t.section(".dynamic"@)->0;
    lemma_section_after(a, h);
    lemma_section_after(a, g);
    assert(w.section(".dynstr"@) == Some(h));
    assert(w.section(".dynamic"@) == Some(g));
    assert(w.owner(g) == t.owner(g));
    assert(w.dyn_data(g) == t.dyn_data(g));
    let entries = a.next_entries();
    lemma_updated_libraries(t, entries, a.next_strings(), entries.len() as int);
    lemma_updated_paths(t, entries, a.next_strings(), tag, 0);
}

/// Values that the sections give fit in the class where the section headers do.
pub(crate) proof fn lemma_values_fit(t: ElfState)
    requires
        t.is_encodable(),
    ensures
        t.values_fit(),
{
    assert forall|name: Seq<char>|
        (#[trigger] t.section(name)) is Some implies roundtrip::shdr_fits(
        t.section(name)->0,
        t.ctx,
    ) by {
        placement::lemma_found(t.shdrs, t.shstrtab, name, 0);
    }
}

/// Whether every dynamic entry of a file has the value that the sections give to its tag.
pub open spec fn entries_follow_sections(r: ElfState) -> bool {
    let entries = r.dyns(r.section(".dynamic"@)->0);
    forall|i: int|
        0 <= i < entries.len() ==> (r.value_for((#[trigger] entries[i]).d_tag) matches Some(v)
            ==> entries[i].d_val == v)
}

/// In the file that was written every dynamic entry has the value that the sections of
/// that file give to its tag, such as the address and the size of the strings.
pub proof fn law_written_entries_follow_sections(a: ElfState, r: ElfState)
    requires
        a.writes_well(),
        a.section(".dynamic"@) is Some,
        a.spares(".dynamic"@),
        state::is_parsed(a.written(), r),
    ensures
        r.section(".dynamic"@) is Some,
        entries_follow_sections(r),
{
    let t = a.relocated()->0;
    lemma_values_fit(t);
    placement::lemma_dynamic_placed(a);
    lemma_section_read(a, r, ".dynamic"@);
    law_headers_are_read_again(a, r);
    placement::lemma_relocated(a);
    let g = r.section(".dynamic"@)->0;
    let entries = r.dyns(g);
    assert(r.replaced =~= Seq::empty());
    assert(r.pending(g) is None);
    assert forall|i: int| 0 <= i < entries.len() implies (r.value_for(
        (#[trigger] entries[i]).d_tag,
    ) matches Some(v) ==> entries[i].d_val == v) by {
        placement::lemma_same_values(t, r, entries[i].d_tag);
    }
}

/// Where a note section is to be placed, each note section of a note segment with
/// several of them gets a segment of its own, at the addresses it had.
pub proof fn law_note_segments_are_split(l: ElfState, i: int, k: int)
    requires
        l.normalized() is Some,
        l.moves_note(),
        0 <= i < l.phdrs.len(),
        l.phdrs[i].p_type == PT_NOTE,
        l.shdrs.len() <= usize::MAX,
        relocation::notes_inside(l.shdrs, l.phdrs[i], l.shdrs.len() as int).len() > 1,
        0 <= k < relocation::notes_inside(l.shdrs, l.phdrs[i], l.shdrs.len() as int).len(),
    ensures
        l.normalized()->0.phdrs.contains(
            relocation::note_piece(
                l.phdrs[i],
                relocation::notes_inside(l.shdrs, l.phdrs[i], l.shdrs.len() as int)[k],
            ),
        ),
{
    placement::lemma_note_split(l, i, k);
}

/// In the file that is written the first note segment covers the first note section,
/// the second the second, and so on.
pub proof fn law_note_segments_follow_sections(a: ElfState, i: int)
    requires
        a.relocated() is Some,
        a.shdrs.len() <= usize::MAX,
        0 <= i < a.relocated()->0.phdrs.len(),
        a.relocated()->0.phdrs[i].p_type == PT_NOTE,
    ensures
        ({
            let t = a.relocated()->0;
            let listed = relocation::notes(t.shdrs, t.shdrs.len() as int);
            let rank = relocation::note_segments(t.phdrs, i);
            rank < listed.len() ==> placement::covers(t.phdrs[i], listed[rank])
                && t.phdrs[i].p_align == listed[rank].sh_addralign
        }),
{
    placement::lemma_note_segments(a, i);
}

} // verus!
