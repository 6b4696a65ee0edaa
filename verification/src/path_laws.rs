//! What the modifications make of search paths, and what they leave.

use crate::codec;
use crate::edits;
use crate::linking;
use crate::reread;
use crate::roundtrip;
use crate::sections;
use crate::state;
use crate::state::ElfState;
use crate::text;
use crate::types::{Ctx, Dyn, ErrorView, DT_NEEDED, DT_NULL, DT_RPATH, DT_RUNPATH};
use vstd::prelude::*;
use vstd::utf8::*;

verus! {

impl ElfState {
    /// Whether the present search paths, if there are any, end inside of the strings.
    pub open spec fn paths_end(self) -> bool {
        let entries = self.next_entries();
        edits::path_slot(entries, 0) matches Some(k) ==> entries[k].d_val + edits::name_bytes(
            entries[k],
            self.next_strings(),
        ).len() < self.next_strings().len()
    }

    /// Whether search paths can be set under a tag: there is an entry for them, or a null
    /// entry that one can be put before. Where they fit in the place of the present ones
    /// they can be written there.
    pub open spec fn takes_path(self, path: Seq<char>, tag: u64) -> bool {
        &&& self.has_linking()
        &&& self.contents.len() <= usize::MAX
        &&& tag == DT_RPATH || tag == DT_RUNPATH
        &&& self.path_fits(path) ==> self.is_writable_in_place()
        &&& edits::path_slot(self.next_entries(), 0) is Some || state::tag_from(
            self.next_entries(),
            DT_NULL,
            0,
        ) is Some
        &&& self.setting_path(path, tag) is Some
    }

    /// Whether other search paths can be written over the present ones: these end inside of
    /// the strings, which have nothing in common with the entries, and nothing but entries
    /// waits for the place of these.
    pub open spec fn is_writable_in_place(self) -> bool {
        &&& self.is_linked()
        &&& self.paths_end()
        &&& self.pending(self.section(".dynamic"@)->0) is Some ==> sections::lookup(
            self.replaced,
            ".dynamic"@,
        ) is Some
    }

    /// Whether search paths that are set can be read: no byte of them is zero, and they are
    /// set to strings that entries can point into.
    pub open spec fn sets_path(self, path: Seq<char>, tag: u64) -> bool {
        &&& self.takes_path(path, tag)
        &&& !encode_utf8(path).contains(0)
        &&& self.setting_path(path, tag)->0.state.strings_fit()
    }

    /// Whether the present search paths are long enough for others to take their place.
    pub open spec fn path_fits(self, path: Seq<char>) -> bool {
        let entries = self.next_entries();
        edits::path_slot(entries, 0) matches Some(k) && encode_utf8(path).len()
            <= edits::name_bytes(entries[k], self.next_strings()).len()
    }

    /// Whether the names of all needed libraries end inside of the strings and have
    /// nothing in common with the search paths.
    pub open spec fn libraries_beside_path(self) -> bool {
        let entries = self.next_entries();
        let strings = self.next_strings();
        edits::path_slot(entries, 0) matches Some(k) ==> forall|i: int|
            0 <= i < entries.len() && (#[trigger] entries[i]).d_tag == DT_NEEDED
                ==> linking::name_ends(entries[i], strings) && reread::apart(
                entries[k].d_val as int,
                entries[k].d_val + edits::name_bytes(entries[k], strings).len() + 1,
                entries[i].d_val as int,
                entries[i].d_val + edits::name_bytes(entries[i], strings).len() + 1,
            )
    }
}

/// Whether at most one entry names search paths.
pub open spec fn one_path_entry(entries: Seq<Dyn>) -> bool {
    forall|i: int, j: int|
        0 <= i < j < entries.len() ==> !((#[trigger] entries[i]).d_tag == DT_RPATH
            || entries[i].d_tag == DT_RUNPATH) || !((#[trigger] entries[j]).d_tag == DT_RPATH
            || entries[j].d_tag == DT_RUNPATH)
}

/// The first entry that names search paths does, and none before it.
pub(crate) proof fn lemma_slot(entries: Seq<Dyn>, i: int)
    requires
        0 <= i,
    ensures
        match edits::path_slot(entries, i) {
            Some(k) => i <= k < entries.len() && (entries[k].d_tag == DT_RPATH || entries[k].d_tag
                == DT_RUNPATH) && forall|j: int|
                i <= j < k ==> (#[trigger] entries[j]).d_tag != DT_RPATH && entries[j].d_tag
                    != DT_RUNPATH,
            None => forall|j: int|
                i <= j < entries.len() ==> (#[trigger] entries[j]).d_tag != DT_RPATH
                    && entries[j].d_tag != DT_RUNPATH,
        },
    decreases entries.len() - i,
{
    if i < entries.len() && entries[i].d_tag != DT_RPATH && entries[i].d_tag != DT_RUNPATH {
        lemma_slot(entries, i + 1);
    }
}

/// The paths under a tag are those of the first entry with the tag, where that points
/// into the strings.
proof fn lemma_paths(entries: Seq<Dyn>, strings: Seq<u8>, tag: u64, i: int, k: int)
    requires
        0 <= i <= k < entries.len(),
        entries[k].d_tag == tag,
        entries[k].d_val < strings.len(),
        forall|j: int| i <= j < k ==> (#[trigger] entries[j]).d_tag != tag,
    ensures
        state::paths_from(entries, strings, tag, i) == text::split(
            text::string_at(strings, entries[k].d_val as int),
            ':',
        ),
    decreases k - i,
{
    if i < k {
        lemma_paths(entries, strings, tag, i + 1, k);
    }
}

/// Entries with one for search paths fit in the class, as far as that one does, and end
/// as before. The first of them with the tag is the new one.
proof fn lemma_with_path_entry(entries: Seq<Dyn>, d: Dyn, ctx: Ctx) -> (at: int)
    requires
        d.d_tag == DT_RPATH || d.d_tag == DT_RUNPATH,
        forall|i: int| 0 <= i < entries.len() ==> roundtrip::dyn_fits(#[trigger] entries[i], ctx),
        forall|i: int| 0 <= i < entries.len() - 1 ==> (#[trigger] entries[i]).d_tag != DT_NULL,
        edits::path_slot(entries, 0) is Some || state::tag_from(entries, DT_NULL, 0) is Some,
    ensures
        ({
            let all = edits::with_path_entry(entries, edits::path_slot(entries, 0), d);
            &&& 0 <= at < all.len()
            &&& all[at] == d
            &&& forall|i: int| 0 <= i < at ==> (#[trigger] all[i]).d_tag != d.d_tag
            &&& forall|i: int|
                0 <= i < all.len() ==> (#[trigger] all[i]) == d || roundtrip::dyn_fits(all[i], ctx)
            &&& forall|i: int| 0 <= i < all.len() - 1 ==> (#[trigger] all[i]).d_tag != DT_NULL
        }),
{
    let all = edits::with_path_entry(entries, edits::path_slot(entries, 0), d);
    lemma_slot(entries, 0);
    linking::lemma_tag(entries, DT_NULL, 0);
    match edits::path_slot(entries, 0) {
        Some(k) => {
            assert forall|i: int| 0 <= i < all.len() implies (#[trigger] all[i]) == d || all[i]
                == entries[i] by {}
            k
        },
        None => {
            let z = state::tag_from(entries, DT_NULL, 0)->0;
            assert forall|i: int| 0 <= i < all.len() implies (#[trigger] all[i]) == (if i < z {
                entries[i]
            } else if i == z {
                d
            } else {
                entries[i - 1]
            }) by {}
            z
        },
    }
}

/// A path and zeros written over a string inside of others are read as the path.
proof fn lemma_string_overwritten(strings: Seq<u8>, at: int, path: Seq<char>, old_len: int)
    requires
        0 <= at,
        encode_utf8(path).len() <= old_len,
        at + old_len < strings.len(),
        !encode_utf8(path).contains(0),
    ensures
        text::string_at(
            edits::overlaid(strings, at, edits::resized(encode_utf8(path), old_len + 1)),
            at,
        ) == path,
{
    let bytes = encode_utf8(path);
    let n = bytes.len() as int;
    let before = strings.subrange(0, at);
    let after = Seq::new((old_len - n) as nat, |i: int| 0u8) + strings.subrange(
        at + old_len + 1,
        strings.len() as int,
    );
    text::lemma_string_written(before, path, after);
    assert(edits::overlaid(strings, at, edits::resized(bytes, old_len + 1)) =~= before + (bytes.push(
        0,
    ) + after));
}

/// An entry for search paths does not change the needed libraries.
proof fn lemma_path_entry_libraries(
    entries: Seq<Dyn>,
    strings: Seq<u8>,
    tail: Seq<u8>,
    d: Dyn,
    n: int,
)
    requires
        n == entries.len(),
        d.d_tag == DT_RPATH || d.d_tag == DT_RUNPATH,
        linking::strings_sound(entries, strings),
    ensures
        ({
            let all = edits::with_path_entry(entries, edits::path_slot(entries, 0), d);
            state::libraries(all, strings + tail, all.len() as int) == state::libraries(
                entries,
                strings,
                n,
            )
        }),
{
    let slot = edits::path_slot(entries, 0);
    let all = edits::with_path_entry(entries, slot, d);
    lemma_slot(entries, 0);
    linking::lemma_tag(entries, DT_NULL, 0);
    match slot {
        Some(k) => {
            linking::lemma_libraries_extended(entries, all, strings, tail, k);
            lemma_libraries_shifted(entries, all, strings, tail, k + 1, 0, n);
        },
        None => match state::tag_from(entries, DT_NULL, 0) {
            Some(z) => {
                linking::lemma_libraries_extended(entries, all, strings, tail, z);
                lemma_libraries_shifted(entries, all, strings, tail, z, 1, n);
            },
            None => {
                linking::lemma_libraries_extended(entries, all, strings, tail, n);
            },
        },
    }
}

/// Equal entries from a position on add equal libraries.
proof fn lemma_libraries_shifted(
    entries: Seq<Dyn>,
    all: Seq<Dyn>,
    strings: Seq<u8>,
    tail: Seq<u8>,
    from: int,
    shift: int,
    n: int,
)
    requires
        0 <= from <= n <= entries.len(),
        0 <= shift,
        all.len() == entries.len() + shift,
        linking::strings_sound(entries, strings),
        state::libraries(all, strings + tail, from + shift) == state::libraries(
            entries,
            strings,
            from,
        ),
        forall|i: int| from <= i < entries.len() ==> (#[trigger] entries[i]) == all[i + shift],
    ensures
        state::libraries(all, strings + tail, n + shift) == state::libraries(entries, strings, n),
    decreases n,
{
    if from < n {
        lemma_libraries_shifted(entries, all, strings, tail, from, shift, n - 1);
        let d = entries[n - 1];
        assert(all[n - 1 + shift] == d);
        if d.d_tag == DT_NEEDED {
            text::lemma_string_extended(strings, tail, d.d_val as int);
        }
    }
}

/// The libraries are the same in strings that differ in none of their names.
proof fn lemma_libraries_kept(
    entries: Seq<Dyn>,
    other: Seq<Dyn>,
    strings: Seq<u8>,
    changed: Seq<u8>,
    from: int,
    to: int,
    n: int,
)
    requires
        0 <= n <= entries.len(),
        entries.len() == other.len(),
        strings.len() == changed.len(),
        forall|q: int|
            0 <= q < strings.len() && !(from <= q < to) ==> #[trigger] strings[q] == changed[q],
        forall|i: int|
            0 <= i < entries.len() ==> (#[trigger] entries[i]) == other[i] || (entries[i].d_tag
                != DT_NEEDED && other[i].d_tag != DT_NEEDED),
        forall|i: int|
            0 <= i < entries.len() && (#[trigger] entries[i]).d_tag == DT_NEEDED ==> linking::name_ends(
                entries[i],
                strings,
            ) && reread::apart(
                from,
                to,
                entries[i].d_val as int,
                entries[i].d_val + edits::name_bytes(entries[i], strings).len() + 1,
            ),
    ensures
        state::libraries(other, changed, n) == state::libraries(entries, strings, n),
    decreases n,
{
    if n > 0 {
        lemma_libraries_kept(entries, other, strings, changed, from, to, n - 1);
        let d = entries[n - 1];
        if d.d_tag == DT_NEEDED {
            let v = d.d_val as int;
            let len = edits::name_bytes(d, strings).len() as int;
            assert(linking::name_ends(d, strings));
            assert(other[n - 1] == d);
            assert(strings.subrange(v, v + len) =~= changed.subrange(v, v + len));
            linking::lemma_same_string(strings, changed, v, len);
        }
    }
}

/// What will be written after search paths were put behind the strings.
pub(crate) proof fn lemma_path_behind(s: ElfState, path: Seq<char>, tag: u64)
    requires
        s.takes_path(path, tag),
        !s.path_fits(path),
    ensures
        ({
            let step = s.setting_path(path, tag);
            let a = step->0.state;
            let entries = s.next_entries();
            let d = Dyn { d_tag: tag, d_val: s.next_strings().len() as u64 };
            let cut = roundtrip::cut_dyn(d, s.ctx);
            &&& step->0.error is None
            &&& a == ElfState { replaced: a.replaced, changed: true, ..s }
            &&& a.is_linked()
            &&& s.next_strings().len() + edits::c_string(path).len() <= isize::MAX
            &&& a.next_strings() == s.next_strings() + edits::c_string(path)
            &&& cut.d_tag == tag
            &&& a.strings_fit() ==> cut == d
            &&& a.next_entries() == edits::with_path_entry(
                entries,
                edits::path_slot(entries, 0),
                cut,
            )
        }),
{
    let strings = s.section(".dynstr"@)->0;
    let tail = edits::c_string(path);
    let a = s.setting_path(path, tag)->0.state;
    let entries = s.next_entries();
    let slot = edits::path_slot(entries, 0);
    let size = s.next_strings().len();
    let d = Dyn { d_tag: tag, d_val: size as u64 };
    let cut = roundtrip::cut_dyn(d, s.ctx);
    let all = edits::with_path_entry(entries, slot, d);
    let read = edits::with_path_entry(entries, slot, cut);
    let extended = s.with_strings(strings, tail);
    let bytes = state::dyns_bytes(all, s.ctx);
    linking::lemma_names_differ();
    linking::lemma_with_section(s, ".dynstr"@, s.next_strings() + tail);
    linking::lemma_with_section(extended, ".dynamic"@, bytes);
    assert(a == extended.with_dyns(all).marked());
    assert(a.section(".dynstr"@) == s.section(".dynstr"@));
    assert(a.section(".dynamic"@) == s.section(".dynamic"@));
    linking::lemma_entries_wait(a, bytes);
    roundtrip::lemma_dyns_from_shape(s.next_dyn_data(), s.ctx, 0);
    roundtrip::lemma_cut_dyn(d, s.ctx);
    let at = lemma_with_path_entry(entries, cut, s.ctx);
    lemma_slot(entries, 0);
    linking::lemma_tag(entries, DT_NULL, 0);
    assert forall|i: int| 0 <= i < all.len() implies codec::dyn_bytes(#[trigger] all[i], s.ctx)
        == codec::dyn_bytes(read[i], s.ctx) by {}
    roundtrip::lemma_same_dyns_bytes(all, read, s.ctx);
    assert forall|i: int| 0 <= i < read.len() implies roundtrip::dyn_fits(
        #[trigger] read[i],
        s.ctx,
    ) by {
        assert(read[i] == cut || roundtrip::dyn_fits(read[i], s.ctx));
    }
    roundtrip::lemma_dyns_roundtrip(read, s.ctx);
}

/// What will be written after search paths were written over others.
pub(crate) proof fn lemma_path_in_place(s: ElfState, path: Seq<char>, tag: u64)
    requires
        s.is_writable_in_place(),
        s.contents.len() <= usize::MAX,
        tag == DT_RPATH || tag == DT_RUNPATH,
        s.path_fits(path),
    ensures
        ({
            let step = s.setting_path(path, tag);
            let a = step->0.state;
            let entries = s.next_entries();
            let k = edits::path_slot(entries, 0)->0;
            let d = entries[k];
            let old_len = edits::name_bytes(d, s.next_strings()).len() as int;
            &&& step is Some
            &&& step->0.error is None
            &&& a == ElfState { contents: a.contents, replaced: a.replaced, changed: true, ..s }
            &&& a.contents.len() == s.contents.len()
            &&& a.is_linked()
            &&& a.next_strings() == edits::overlaid(
                s.next_strings(),
                d.d_val as int,
                edits::resized(encode_utf8(path), old_len + 1),
            )
            &&& a.next_entries() == entries.update(k, Dyn { d_tag: tag, d_val: d.d_val })
            &&& sections::ordered(s.replaced) ==> sections::ordered(a.replaced)
            &&& (a.replaced.len() == 0) == (s.replaced.len() == 0)
            &&& forall|q: int|
                0 <= q < s.contents.len() && #[trigger] a.contents[q] != s.contents[q]
                    ==> linking::inside(s, s.section(".dynstr"@)->0, q) || linking::inside(
                    s,
                    s.section(".dynamic"@)->0,
                    q,
                )
        }),
{
    let h = s.section(".dynstr"@)->0;
    let g = s.section(".dynamic"@)->0;
    let entries = s.next_entries();
    let names = s.next_strings();
    let data = s.next_dyn_data();
    let k = edits::path_slot(entries, 0)->0;
    let d = entries[k];
    let old_len = edits::name_bytes(d, names).len() as int;
    let part = edits::resized(encode_utf8(path), old_len + 1);
    let tagged = entries.update(k, Dyn { d_tag: tag, d_val: d.d_val });
    let a = s.setting_path(path, tag)->0.state;
    let w = s.with_string(h, d.d_val as int, part)->0;
    lemma_slot(entries, 0);
    linking::lemma_names_differ();
    linking::lemma_with_string(s, d.d_val as int, part);
    roundtrip::lemma_dyns_from_shape(data, s.ctx, 0);
    assert forall|j: int| 0 <= j < tagged.len() implies roundtrip::dyn_fits(
        #[trigger] tagged[j],
        s.ctx,
    ) && (tagged[j].d_tag == entries[j].d_tag || tagged[j].d_tag != DT_NULL && entries[j].d_tag
        != DT_NULL) by {
        assert(roundtrip::dyn_fits(entries[j], s.ctx));
        assert(roundtrip::dyn_fits(entries[k], s.ctx));
    }
    assert(a.section(".dynstr"@) == s.section(".dynstr"@));
    assert(a.section(".dynamic"@) == s.section(".dynamic"@));
    assert(a.owner(g) == s.owner(g));
    if d.d_tag == tag {
        assert(tagged =~= entries);
        assert(a == w.marked());
        assert(a.dyn_data(g) == w.dyn_data(g));
        assert(a.beside_dynamic(h));
    } else if sections::lookup(s.replaced, ".dynamic"@) is Some {
        let content = edits::overlaid(data, 0, state::dyns_bytes(tagged, s.ctx));
        linking::lemma_with_section(w, ".dynamic"@, content);
        roundtrip::lemma_dyns_overlaid(data, tagged, s.ctx);
        if sections::ordered(s.replaced) {
            sections::lemma_put_ordered(w.replaced, ".dynamic"@, content);
        }
        assert(s.replaced.len() > 0);
        assert(a.replaced == sections::put(w.replaced, ".dynamic"@, content));
        linking::lemma_entries_wait(a, content);
    } else {
        assert(w.owner(g) == s.owner(g));
        assert(w.pending(g) is None);
        assert(s.body(g).len() == g.sh_size);
        roundtrip::lemma_dyns_written(w.contents, tagged, g.sh_offset as int, s.ctx, 0);
        lemma_tag_in_file(s, w, a, tagged);
    }
}

/// Entries with another tag that are written into the file are read from there.
proof fn lemma_tag_in_file(s: ElfState, w: ElfState, a: ElfState, tagged: Seq<Dyn>)
    requires
        s.is_linked(),
        s.contents.len() <= usize::MAX,
        sections::lookup(s.replaced, ".dynamic"@) is None,
        s.pending(s.section(".dynamic"@)->0) is None,
        w == (ElfState { contents: w.contents, replaced: w.replaced, ..s }),
        w.contents.len() == s.contents.len(),
        w.is_linked(),
        w.next_dyn_data() == s.next_dyn_data(),
        sections::lookup(w.replaced, ".dynamic"@) is None,
        w.pending(s.section(".dynamic"@)->0) is None,
        a == w.with_contents(
            edits::dyns_written(
                w.contents,
                tagged,
                s.section(".dynamic"@)->0.sh_offset as usize as int,
                s.ctx,
                0,
            ).0,
        ).marked(),
        tagged.len() == s.next_entries().len(),
        forall|j: int|
            0 <= j < tagged.len() ==> roundtrip::dyn_fits(#[trigger] tagged[j], s.ctx) && (
            tagged[j].d_tag == s.next_entries()[j].d_tag || tagged[j].d_tag != DT_NULL
                && s.next_entries()[j].d_tag != DT_NULL),
    ensures
        a.contents.len() == s.contents.len(),
        a.is_linked(),
        a.next_strings() == w.next_strings(),
        a.next_entries() == tagged,
        forall|q: int|
            0 <= q < s.contents.len() && #[trigger] a.contents[q] != w.contents[q]
                ==> linking::inside(s, s.section(".dynamic"@)->0, q),
{
    let h = s.section(".dynstr"@)->0;
    let g = s.section(".dynamic"@)->0;
    let at = g.sh_offset as int;
    let size = s.ctx.dyn_len();
    let entries = s.next_entries();
    let n = entries.len() as int;
    roundtrip::lemma_dyns_from_shape(s.next_dyn_data(), s.ctx, 0);
    assert(s.in_file(g));
    assert(s.body(g).len() == g.sh_size);
    assert(n * size <= g.sh_size);
    roundtrip::lemma_dyns_written(w.contents, tagged, at, s.ctx, 0);
    assert(a.section(".dynstr"@) == s.section(".dynstr"@));
    assert(a.section(".dynamic"@) == s.section(".dynamic"@));
    assert(w.section(".dynstr"@) == s.section(".dynstr"@));
    assert(w.section(".dynamic"@) == s.section(".dynamic"@));
    assert(a.owner(g) == s.owner(g));
    assert(a.pending(g) is None);
    let out = a.body(g);
    assert forall|j: int| 0 <= j < tagged.len() implies #[trigger] out.subrange(
        j * size,
        (j + 1) * size,
    ) == codec::dyn_bytes(tagged[j], s.ctx) by {
        assert((j + 1) * size <= n * size && j * size >= 0) by (nonlinear_arith)
            requires
                0 <= j < n,
                size >= 0,
        ;
        assert(j * size + size == (j + 1) * size) by (nonlinear_arith);
        assert(a.contents.subrange(at + j * size, at + (j + 1) * size) == codec::dyn_bytes(
            tagged[j],
            s.ctx,
        ));
        assert(out.subrange(j * size, (j + 1) * size) =~= a.contents.subrange(
            at + j * size,
            at + (j + 1) * size,
        ));
    }
    assert(roundtrip::dyns_end(out, tagged, s.ctx)) by {
        if entries.len() > 0 {
            assert(tagged.last() == tagged[n - 1] && entries.last() == entries[n - 1]);
        }
    }
    assert forall|j: int| 0 <= j < tagged.len() - 1 implies (#[trigger] tagged[j]).d_tag
        != DT_NULL by {
        assert(entries[j].d_tag != DT_NULL);
    }
    roundtrip::lemma_dyns_reread(out, tagged, s.ctx, 0);
    assert(tagged.skip(0) =~= tagged);
    assert(a.next_dyn_data() == out);
    assert(a.beside_dynamic(h));
    if sections::lookup(w.replaced, ".dynstr"@) is None {
        assert(a.body(h) =~= w.body(h));
    }
}

/// Search paths that are set, whether they are longer than the present ones, as long or
/// shorter, or there are none, are those under their tag.
pub proof fn law_search_paths_are_set(s: ElfState, path: Seq<char>, tag: u64)
    requires
        s.sets_path(path, tag),
    ensures
        s.setting_path(path, tag)->0.error is None,
        s.setting_path(path, tag)->0.state.is_linked(),
        s.setting_path(path, tag)->0.state.next_paths(tag) == text::split(path, ':'),
{
    let a = s.setting_path(path, tag)->0.state;
    let entries = s.next_entries();
    let names = s.next_strings();
    if s.path_fits(path) {
        let k = edits::path_slot(entries, 0)->0;
        let d = entries[k];
        let old_len = edits::name_bytes(d, names).len() as int;
        lemma_path_in_place(s, path, tag);
        lemma_slot(entries, 0);
        lemma_string_overwritten(names, d.d_val as int, path, old_len);
        lemma_paths(a.next_entries(), a.next_strings(), tag, 0, k);
    } else {
        let d = Dyn { d_tag: tag, d_val: names.len() as u64 };
        let tail = edits::c_string(path);
        lemma_path_behind(s, path, tag);
        roundtrip::lemma_dyns_from_shape(s.next_dyn_data(), s.ctx, 0);
        let k = lemma_with_path_entry(entries, d, s.ctx);
        lemma_paths(a.next_entries(), names + tail, tag, 0, k);
        text::lemma_string_written(names, path, Seq::empty());
        assert(names + (encode_utf8(path).push(0) + Seq::<u8>::empty()) =~= names + tail);
    }
}

/// Where at most one entry names search paths, one does after they were set, under the
/// tag, and the other entries are as before. It stands where the present one did, or else
/// before the null entry. Under the other tag there are then no paths.
pub proof fn law_one_entry_names_the_paths(s: ElfState, path: Seq<char>, tag: u64) -> (k: int)
    requires
        s.takes_path(path, tag),
        one_path_entry(s.next_entries()),
    ensures
        ({
            let entries = s.next_entries();
            let a = s.setting_path(path, tag)->0.state;
            let all = a.next_entries();
            &&& s.setting_path(path, tag)->0.error is None
            &&& a.is_linked()
            &&& 0 <= k < all.len()
            &&& all[k].d_tag == tag
            &&& forall|i: int|
                0 <= i < all.len() && i != k ==> (#[trigger] all[i]).d_tag != DT_RPATH
                    && all[i].d_tag != DT_RUNPATH
            &&& match edits::path_slot(entries, 0) {
                Some(slot) => k == slot && all.remove(k) == entries.remove(slot),
                None => state::tag_from(entries, DT_NULL, 0) == Some(k) && all.remove(k)
                    == entries,
            }
            &&& forall|other: u64|
                (other == DT_RPATH || other == DT_RUNPATH) && other != tag
                    ==> #[trigger] a.search_paths(other) == Ok::<Seq<Seq<char>>, ErrorView>(
                    Seq::empty(),
                )
        }),
{
    let entries = s.next_entries();
    let a = s.setting_path(path, tag)->0.state;
    let all = a.next_entries();
    lemma_slot(entries, 0);
    linking::lemma_tag(entries, DT_NULL, 0);
    if s.path_fits(path) {
        lemma_path_in_place(s, path, tag);
    } else {
        lemma_path_behind(s, path, tag);
    }
    let k = match edits::path_slot(entries, 0) {
        Some(k) => {
            assert forall|i: int| 0 <= i < all.len() && i != k implies (
            #[trigger] all[i]).d_tag != DT_RPATH && all[i].d_tag != DT_RUNPATH by {
                assert(all[i] == entries[i]);
                if i < k {
                    assert(entries[k].d_tag == DT_RPATH || entries[k].d_tag == DT_RUNPATH);
                } else {
                    assert(entries[k].d_tag == DT_RPATH || entries[k].d_tag == DT_RUNPATH);
                }
            }
            assert(all.remove(k) =~= entries.remove(k));
            k
        },
        None => {
            let z = state::tag_from(entries, DT_NULL, 0)->0;
            assert forall|i: int| 0 <= i < all.len() && i != z implies (
            #[trigger] all[i]).d_tag != DT_RPATH && all[i].d_tag != DT_RUNPATH by {
                if i < z {
                    assert(all[i] == entries[i]);
                } else {
                    assert(all[i] == entries[i - 1]);
                }
            }
            assert(all.remove(z) =~= entries);
            z
        },
    };
    assert forall|other: u64|
        (other == DT_RPATH || other == DT_RUNPATH) && other != tag implies #[trigger] a.search_paths(
        other,
    ) == Ok::<Seq<Seq<char>>, ErrorView>(Seq::empty()) by {
        let strings = a.section(".dynstr"@)->0;
        lemma_no_paths(all, a.body(strings), other, 0);
    }
    k
}

/// Where no entry has a tag there are no paths under it.
pub(crate) proof fn lemma_no_paths(entries: Seq<Dyn>, strings: Seq<u8>, tag: u64, i: int)
    requires
        0 <= i,
        forall|j: int| 0 <= j < entries.len() ==> (#[trigger] entries[j]).d_tag != tag,
    ensures
        state::paths_from(entries, strings, tag, i) == Seq::<Seq<char>>::empty(),
    decreases entries.len() - i,
{
    if i < entries.len() {
        lemma_no_paths(entries, strings, tag, i + 1);
    }
}

/// Setting search paths leaves the needed libraries whose names have nothing in common
/// with them.
pub proof fn law_paths_leave_libraries(s: ElfState, path: Seq<char>, tag: u64)
    requires
        s.sets_path(path, tag),
        linking::strings_sound(s.next_entries(), s.next_strings()),
        s.libraries_beside_path(),
    ensures
        s.setting_path(path, tag)->0.state.next_needed() == s.next_needed(),
{
    let a = s.setting_path(path, tag)->0.state;
    let entries = s.next_entries();
    let names = s.next_strings();
    if s.path_fits(path) {
        let k = edits::path_slot(entries, 0)->0;
        let d = entries[k];
        let old_len = edits::name_bytes(d, names).len() as int;
        lemma_path_in_place(s, path, tag);
        lemma_slot(entries, 0);
        lemma_libraries_kept(
            entries,
            a.next_entries(),
            names,
            a.next_strings(),
            d.d_val as int,
            d.d_val + old_len + 1,
            entries.len() as int,
        );
    } else {
        let d = Dyn { d_tag: tag, d_val: names.len() as u64 };
        lemma_path_behind(s, path, tag);
        lemma_path_entry_libraries(
            entries,
            names,
            edits::c_string(path),
            d,
            entries.len() as int,
        );
    }
}

} // verus!
