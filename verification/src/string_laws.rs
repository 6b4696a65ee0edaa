//! Which bytes the modifications write into the strings, and what they leave.

use crate::edits;
use crate::entry_laws;
use crate::library_laws;
use crate::linking;
use crate::path_laws;
use crate::renaming_laws;
use crate::sections;
use crate::state::ElfState;
use crate::text;
use crate::types::{Dyn, SectionHeader, DT_NEEDED, DT_NULL, DT_RPATH, DT_RUNPATH};
use vstd::prelude::*;
use vstd::utf8::*;

verus! {

/// Whether a state has the headers and the section names of another.
pub open spec fn same_layout(a: ElfState, s: ElfState) -> bool {
    &&& a.header == s.header
    &&& a.phdrs == s.phdrs
    &&& a.shdrs == s.shdrs
    &&& a.shstrtab == s.shstrtab
    &&& a.ctx == s.ctx
    &&& a.index_map == s.index_map
}

/// Modifications leave all headers until the file is written. Those that change something
/// mark the file as changed.
pub proof fn law_modifications_leave_the_headers(
    s: ElfState,
    text: Seq<char>,
    tag: u64,
    libs: Seq<Seq<char>>,
    replacements: Seq<(Seq<char>, Seq<char>)>,
)
    ensures
        same_layout(s.setting_interpreter(text).state, s),
        s.setting_interpreter(text).error is None && s.interpreter() != Some(text)
            ==> s.setting_interpreter(text).state.changed,
        s.setting_path(text, tag) matches Some(step) ==> same_layout(step.state, s) && (
        step.error is None ==> step.state.changed),
        s.adding_needed(libs) matches Some(step) ==> same_layout(step.state, s) && (step.error is None
            && libs.len() > 0 ==> step.state.changed),
        s.removing_needed(libs) matches Some(step) ==> same_layout(step.state, s) && (
        step.error is None && libs.len() > 0 ==> step.state.changed),
        s.replacing_needed(replacements) matches Some(step) ==> same_layout(step.state, s) && (
        step.error is None && replacements.len() > 0 ==> step.state.changed),
        s.adding_needed(Seq::empty()) matches Some(step) && step.state == s && step.error is None,
        s.removing_needed(Seq::empty()) matches Some(step) && step.state == s && step.error is None,
        s.replacing_needed(Seq::empty()) matches Some(step) && step.state == s
            && step.error is None,
{
    if replacements.len() > 0 && s.section(".dynstr"@) is Some && s.section(".dynamic"@) is Some
        && s.strings(s.section(".dynstr"@)->0) is Some {
        let strings = s.section(".dynstr"@)->0;
        let names = s.strings(strings)->0;
        let entries = s.dyns(s.section(".dynamic"@)->0);
        let added = edits::longer_names(entries, names, replacements, entries.len() as int);
        let tail = edits::c_strings(added, added.len() as int);
        lemma_renamed_layout(s, strings, entries, names, replacements, added, 0);
        lemma_renamed_layout(
            s.with_strings(strings, tail),
            strings,
            entries,
            names,
            replacements,
            added,
            0,
        );
    }
}

proof fn lemma_renamed_layout(
    s: ElfState,
    h: SectionHeader,
    entries: Seq<Dyn>,
    names: Seq<u8>,
    replacements: Seq<(Seq<char>, Seq<char>)>,
    added: Seq<Seq<char>>,
    i: int,
)
    ensures
        s.renamed_from(h, entries, names, replacements, added, i) matches Some(a) ==> same_layout(
            a,
            s,
        ),
    decreases entries.len() - i,
{
    if i < entries.len() {
        if edits::renamed_in_place(entries[i], names, replacements, added) {
            let next = s.with_string(
                h,
                entries[i].d_val as int,
                edits::padded_name(entries[i], names, replacements),
            );
            if next is Some {
                lemma_renamed_layout(next->0, h, entries, names, replacements, added, i + 1);
            }
        } else {
            lemma_renamed_layout(s, h, entries, names, replacements, added, i + 1);
        }
    }
}

/// Search paths that are not longer than the present ones stand in their place, and zeros
/// fill up what is left of it. The entry for the paths keeps its value and gets the tag. For
/// longer ones the entry points behind the strings.
pub proof fn law_paths_fill_their_place(s: ElfState, path: Seq<char>, tag: u64, k: int)
    requires
        s.takes_path(path, tag),
        0 <= k < s.next_entries().len(),
        s.next_entries()[k].d_tag == DT_RPATH || s.next_entries()[k].d_tag == DT_RUNPATH,
        forall|i: int|
            0 <= i < k ==> (#[trigger] s.next_entries()[i]).d_tag != DT_RPATH
                && s.next_entries()[i].d_tag != DT_RUNPATH,
    ensures
        ({
            let a = s.setting_path(path, tag)->0.state;
            let entries = s.next_entries();
            let strings = s.next_strings();
            let at = entries[k].d_val as int;
            let len = encode_utf8(text::string_at(strings, at)).len();
            let new = encode_utf8(path);
            &&& s.setting_path(path, tag)->0.error is None
            &&& a.next_entries().len() == entries.len()
            &&& a.next_entries()[k].d_tag == tag
            &&& forall|i: int|
                0 <= i < entries.len() && i != k ==> #[trigger] a.next_entries()[i] == entries[i]
            &&& if new.len() <= len {
                &&& a.next_entries()[k].d_val == at
                &&& forall|q: int|
                    0 <= q < new.len() ==> #[trigger] a.next_strings()[at + q] == new[q]
                &&& forall|q: int| at + new.len() <= q <= at + len ==> #[trigger] a.next_strings()[q]
                    == 0
            } else {
                a.strings_fit() ==> a.next_entries()[k].d_val == strings.len()
            }
        }),
{
    let entries = s.next_entries();
    path_laws::lemma_slot(entries, 0);
    assert(entries[k].d_tag == DT_RPATH || entries[k].d_tag == DT_RUNPATH);
    assert(edits::path_slot(entries, 0) == Some(k)) by {
        let f = edits::path_slot(entries, 0)->0;
        if f < k {
            assert(entries[f].d_tag != DT_RPATH);
        }
    }
    if s.path_fits(path) {
        path_laws::lemma_path_in_place(s, path, tag);
    } else {
        path_laws::lemma_path_behind(s, path, tag);
    }
}

/// Search paths that are written in the place of the present ones are written into the
/// strings in the file as well where these reach as far, also where other strings wait.
pub proof fn law_paths_are_written_into_the_file(s: ElfState, path: Seq<char>, tag: u64, k: int)
    requires
        s.takes_path(path, tag),
        0 <= k < s.next_entries().len(),
        s.next_entries()[k].d_tag == tag,
        forall|i: int|
            0 <= i < k ==> (#[trigger] s.next_entries()[i]).d_tag != DT_RPATH
                && s.next_entries()[i].d_tag != DT_RUNPATH,
        encode_utf8(path).len() <= encode_utf8(
            text::string_at(s.next_strings(), s.next_entries()[k].d_val as int),
        ).len(),
        ({
            let h = s.section(".dynstr"@)->0;
            let at = s.next_entries()[k].d_val as int;
            let len = encode_utf8(text::string_at(s.next_strings(), at)).len();
            h.sh_offset + h.sh_size <= s.contents.len() && at + len < h.sh_size
        }),
    ensures
        ({
            let a = s.setting_path(path, tag)->0.state;
            let h = s.section(".dynstr"@)->0;
            let at = s.next_entries()[k].d_val as int;
            let len = encode_utf8(text::string_at(s.next_strings(), at)).len();
            let new = encode_utf8(path);
            &&& a.contents.len() == s.contents.len()
            &&& forall|q: int|
                0 <= q <= len ==> #[trigger] a.contents[h.sh_offset + at + q] == (if q < new.len() {
                    new[q]
                } else {
                    0
                })
            &&& forall|q: int|
                0 <= q < s.contents.len() && !(h.sh_offset + at <= q <= h.sh_offset + at + len)
                    ==> #[trigger] a.contents[q] == s.contents[q]
        }),
{
    let entries = s.next_entries();
    path_laws::lemma_slot(entries, 0);
    assert(entries[k].d_tag == DT_RPATH || entries[k].d_tag == DT_RUNPATH);
    assert(edits::path_slot(entries, 0) == Some(k)) by {
        let f = edits::path_slot(entries, 0)->0;
        if f < k {
            assert(entries[f].d_tag != DT_RPATH);
        }
    }
    path_laws::lemma_path_in_place(s, path, tag);
}

/// The names of libraries that are added stand in a row behind the strings, each with the
/// zero byte that ends it, and their entries point there.
pub proof fn law_added_names_stand_in_a_row(
    s: ElfState,
    libs: Seq<Seq<char>>,
    most: int,
    i: int,
)
    requires
        s.has_linking(),
        s.is_shared_by(".dynstr"@) ==> sections::lookup(s.replaced, ".dynamic"@) is Some,
        s.next_entries().len() > 0,
        s.next_entries().last().d_tag == DT_NULL,
        0 <= i < libs.len(),
        forall|j: int| 0 <= j < libs.len() ==> encode_utf8(#[trigger] libs[j]).len() < most,
        s.next_strings().len() + libs.len() * most <= isize::MAX,
        s.ctx.container is Little ==> s.next_strings().len() + libs.len() * most <= u32::MAX,
        (s.next_entries().len() + libs.len()) * s.ctx.dyn_len() <= isize::MAX,
    ensures
        ({
            let a = s.adding_needed(libs)->0.state;
            let n = s.next_entries().len() as int;
            let d = a.next_entries()[n - 1 + i];
            let end = if i + 1 < libs.len() {
                a.next_entries()[n + i].d_val as int
            } else {
                a.next_strings().len() as int
            };
            &&& a.next_entries()[n - 1].d_val == s.next_strings().len()
            &&& d.d_tag == DT_NEEDED
            &&& end == d.d_val + encode_utf8(libs[i]).len() + 1
            &&& a.next_strings().subrange(d.d_val as int, end) == encode_utf8(libs[i]).push(0)
        }),
{
    entry_laws::law_libraries_can_be_added(s, libs, most);
    library_laws::lemma_adding(s, libs);
    let a = s.adding_needed(libs)->0.state;
    let n = s.next_entries().len() as int;
    let size = s.next_strings().len() as int;
    let count = libs.len() as int;
    let row = edits::needed_entries(libs, size);
    let all = a.next_entries();
    assert(all[n - 1] == row[0]);
    assert(edits::c_strings(libs, 0).len() == 0);
    assert(all[n - 1 + i] == row[i]);
    let rest = linking::lemma_c_strings_split(libs, i, count);
    let tail = edits::c_strings(libs, count);
    let place = edits::c_strings(libs, i).len() as int;
    assert(edits::c_strings(libs, i + 1).len() == place + encode_utf8(libs[i]).len() + 1);
    if i + 1 < count {
        assert(all[n + i] == row[i + 1]);
        let more = linking::lemma_c_strings_split(libs, i + 1, count);
    } else {
        assert(tail == edits::c_strings(libs, i + 1));
    }
    let to = size + place + encode_utf8(libs[i]).len() + 1;
    assert(a.next_strings().subrange(size + place, to) =~= encode_utf8(libs[i]).push(0));
}

/// Replacing libraries leaves the entries of all others. Where no new name is longer than
/// the old one all entries stay, and the strings keep their length.
pub proof fn law_replacing_leaves_other_entries(
    s: ElfState,
    replacements: Seq<(Seq<char>, Seq<char>)>,
    i: int,
)
    requires
        s.replaces_libraries(replacements),
        0 <= i < s.next_entries().len(),
    ensures
        ({
            let a = s.replacing_needed(replacements)->0.state;
            let d = s.next_entries()[i];
            let name = text::string_at(s.next_strings(), d.d_val as int);
            &&& a.next_entries().len() == s.next_entries().len()
            &&& a.next_entries()[i].d_tag == d.d_tag
            &&& d.d_tag != DT_NEEDED ==> a.next_entries()[i] == d
            &&& (forall|k: int|
                0 <= k < replacements.len() ==> (#[trigger] replacements[k]).0 != name)
                ==> a.next_entries()[i] == d
            &&& (forall|k: int|
                0 <= k < replacements.len() ==> encode_utf8((#[trigger] replacements[k]).1).len()
                    <= encode_utf8(replacements[k].0).len()) ==> a.next_entries()[i] == d
                && a.next_strings().len() == s.next_strings().len()
        }),
{
    let entries = s.next_entries();
    let names = s.next_strings();
    let d = entries[i];
    let name = text::string_at(names, d.d_val as int);
    renaming_laws::lemma_replacing(s, replacements);
    let added = edits::longer_names(entries, names, replacements, entries.len() as int);
    let tail = edits::c_strings(added, added.len() as int);
    assert(s.replacing_needed(replacements)->0.state.next_entries()[i] == edits::renamed_entry(
        d,
        names,
        replacements,
        added,
        names.len() as int,
    ));
    if forall|k: int| 0 <= k < replacements.len() ==> (#[trigger] replacements[k]).0 != name {
        lemma_no_new_name(replacements, name, replacements.len() as int);
    }
    if forall|k: int|
        0 <= k < replacements.len() ==> encode_utf8((#[trigger] replacements[k]).1).len()
            <= encode_utf8(replacements[k].0).len() {
        lemma_none_longer(entries, names, replacements, entries.len() as int);
        assert(added.len() == 0);
        assert(tail.len() == 0);
        lemma_renamed_len(names + tail, entries, names, replacements, added, 0);
    }
}

proof fn lemma_no_new_name(replacements: Seq<(Seq<char>, Seq<char>)>, name: Seq<char>, n: int)
    requires
        0 <= n <= replacements.len(),
        forall|k: int| 0 <= k < replacements.len() ==> (#[trigger] replacements[k]).0 != name,
    ensures
        edits::new_name(replacements, name, n) is None,
    decreases n,
{
    if n > 0 {
        assert(replacements[n - 1].0 != name);
        lemma_no_new_name(replacements, name, n - 1);
    }
}

proof fn lemma_new_name_listed(
    replacements: Seq<(Seq<char>, Seq<char>)>,
    name: Seq<char>,
    n: int,
) -> (k: int)
    requires
        0 <= n <= replacements.len(),
        edits::new_name(replacements, name, n) is Some,
    ensures
        0 <= k < n,
        replacements[k].0 == name,
        replacements[k].1 == edits::new_name(replacements, name, n)->0,
    decreases n,
{
    if replacements[n - 1].0 == name {
        n - 1
    } else {
        lemma_new_name_listed(replacements, name, n - 1)
    }
}

proof fn lemma_none_longer(
    entries: Seq<Dyn>,
    names: Seq<u8>,
    replacements: Seq<(Seq<char>, Seq<char>)>,
    n: int,
)
    requires
        0 <= n <= entries.len(),
        forall|k: int|
            0 <= k < replacements.len() ==> encode_utf8((#[trigger] replacements[k]).1).len()
                <= encode_utf8(replacements[k].0).len(),
    ensures
        edits::longer_names(entries, names, replacements, n).len() == 0,
    decreases n,
{
    if n > 0 {
        lemma_none_longer(entries, names, replacements, n - 1);
        let d = entries[n - 1];
        if edits::renaming(d, names, replacements) is Some {
            let k = lemma_new_name_listed(
                replacements,
                text::string_at(names, d.d_val as int),
                replacements.len() as int,
            );
            assert(encode_utf8(replacements[k].1).len() <= encode_utf8(replacements[k].0).len());
        }
    }
}

proof fn lemma_renamed_len(
    b: Seq<u8>,
    entries: Seq<Dyn>,
    names: Seq<u8>,
    replacements: Seq<(Seq<char>, Seq<char>)>,
    added: Seq<Seq<char>>,
    i: int,
)
    ensures
        renaming_laws::renamed_strings(b, entries, names, replacements, added, i).len() == b.len(),
    decreases entries.len() - i,
{
    if i < entries.len() {
        if edits::renamed_in_place(entries[i], names, replacements, added) {
            let next = edits::overlaid(
                b,
                entries[i].d_val as int,
                edits::padded_name(entries[i], names, replacements),
            );
            lemma_renamed_len(next, entries, names, replacements, added, i + 1);
        } else {
            lemma_renamed_len(b, entries, names, replacements, added, i + 1);
        }
    }
}

/// Where no new name is longer than the old one, a new name stands in the place of the old
/// one, and zeros fill up what is left of it.
pub proof fn law_shorter_names_fill_their_place(
    s: ElfState,
    replacements: Seq<(Seq<char>, Seq<char>)>,
    i: int,
    k: int,
)
    requires
        s.replaces_libraries(replacements),
        0 <= i < s.next_entries().len(),
        s.next_entries()[i].d_tag == DT_NEEDED,
        0 <= k < replacements.len(),
        replacements[k].0 == text::string_at(
            s.next_strings(),
            s.next_entries()[i].d_val as int,
        ),
        forall|j: int|
            k < j < replacements.len() ==> (#[trigger] replacements[j]).0 != replacements[k].0,
        forall|j: int|
            0 <= j < replacements.len() ==> encode_utf8((#[trigger] replacements[j]).1).len()
                <= encode_utf8(replacements[j].0).len(),
    ensures
        ({
            let a = s.replacing_needed(replacements)->0.state;
            let at = s.next_entries()[i].d_val as int;
            let old = encode_utf8(replacements[k].0);
            let new = encode_utf8(replacements[k].1);
            &&& a.next_strings().len() == s.next_strings().len()
            &&& forall|q: int|
                0 <= q < new.len() ==> #[trigger] a.next_strings()[at + q] == new[q]
            &&& forall|q: int|
                at + new.len() <= q < at + old.len() ==> #[trigger] a.next_strings()[q] == 0
        }),
{
    let entries = s.next_entries();
    let names = s.next_strings();
    let d = entries[i];
    let at = d.d_val as int;
    renaming_laws::lemma_replacing(s, replacements);
    lemma_none_longer(entries, names, replacements, entries.len() as int);
    let added = edits::longer_names(entries, names, replacements, entries.len() as int);
    let tail = edits::c_strings(added, added.len() as int);
    assert(added.len() == 0);
    assert(names + tail =~= names);
    lemma_renamed_len(names, entries, names, replacements, added, 0);
    entry_laws::law_the_last_replacement_counts(replacements, replacements[k].0, k);
    let padded = edits::padded_name(d, names, replacements);
    assert(linking::name_ends(d, names));
    lemma_last_new_name(replacements, replacements[k].0, k, replacements.len() as int);
    assert(edits::renamed_in_place(d, names, replacements, added));
    assert forall|q: int| at <= q < at + padded.len() implies #[trigger] renaming_laws::renamed_strings(
        names,
        entries,
        names,
        replacements,
        added,
        0,
    )[q] == padded[q - at] by {
        lemma_renamed_place(names, entries, names, replacements, added, 0, i, q);
    }
}

proof fn lemma_last_new_name(
    replacements: Seq<(Seq<char>, Seq<char>)>,
    name: Seq<char>,
    k: int,
    n: int,
)
    requires
        0 <= k < n <= replacements.len(),
        replacements[k].0 == name,
        forall|j: int| k < j < replacements.len() ==> (#[trigger] replacements[j]).0 != name,
    ensures
        edits::new_name(replacements, name, n) == Some(replacements[k].1),
    decreases n,
{
    if k < n - 1 {
        assert(replacements[n - 1].0 != name);
        lemma_last_new_name(replacements, name, k, n - 1);
    }
}

/// A byte in the place of a name that is written over is that of the new name.
proof fn lemma_renamed_place(
    b: Seq<u8>,
    entries: Seq<Dyn>,
    names: Seq<u8>,
    replacements: Seq<(Seq<char>, Seq<char>)>,
    added: Seq<Seq<char>>,
    j: int,
    i: int,
    q: int,
)
    requires
        0 <= j,
        0 <= i < entries.len(),
        b.len() == names.len(),
        renaming_laws::names_separate(entries, names),
        edits::renamed_in_place(entries[i], names, replacements, added),
        entries[i].d_val <= q < entries[i].d_val + edits::name_bytes(entries[i], names).len(),
        j <= i || b[q] == edits::padded_name(entries[i], names, replacements)[q
            - entries[i].d_val],
    ensures
        renaming_laws::renamed_strings(b, entries, names, replacements, added, j)[q]
            == edits::padded_name(entries[i], names, replacements)[q - entries[i].d_val],
    decreases entries.len() - j,
{
    if j < entries.len() {
        assert(entries[i].d_tag == DT_NEEDED);
        assert(linking::name_ends(entries[i], names));
        if edits::renamed_in_place(entries[j], names, replacements, added) {
            let next = edits::overlaid(
                b,
                entries[j].d_val as int,
                edits::padded_name(entries[j], names, replacements),
            );
            assert(entries[j].d_tag == DT_NEEDED);
            assert(renaming_laws::names_apart(entries[i], entries[j], names));
            lemma_renamed_place(next, entries, names, replacements, added, j + 1, i, q);
        } else {
            lemma_renamed_place(b, entries, names, replacements, added, j + 1, i, q);
        }
    }
}

} // verus!
