//! What the modifications make of dynamic entries and strings, told by positions, and when
//! they succeed.

use crate::edits;
use crate::library_laws;
use crate::linking;
use crate::path_laws;
use crate::reading_laws;
use crate::renaming_laws;
use crate::roundtrip;
use crate::sections;
use crate::state;
use crate::state::ElfState;
use crate::text;
use crate::types::{Dyn, ErrorView, DT_NEEDED, DT_NULL, DT_RPATH, DT_RUNPATH};
use vstd::prelude::*;
use vstd::utf8::*;

verus! {

/// A file whose dynamic entries and strings lie inside of it has both.
pub proof fn law_sections_in_the_file_are_linked(s: ElfState)
    requires
        s.replaced.len() == 0,
        s.section(".dynstr"@) matches Some(h) && h.sh_offset + h.sh_size <= s.contents.len(),
        s.section(".dynamic"@) matches Some(g) && g.sh_offset + g.sh_size <= s.contents.len(),
    ensures
        ({
            let h = s.section(".dynstr"@)->0;
            let g = s.section(".dynamic"@)->0;
            &&& s.has_linking()
            &&& s.next_strings() == s.contents.subrange(
                h.sh_offset as int,
                h.sh_offset + h.sh_size,
            )
            &&& s.next_entries() == state::dyns_from(
                s.contents.subrange(g.sh_offset as int, g.sh_offset + g.sh_size),
                s.ctx,
                0,
            )
        }),
{
}

/// The entries that do not name libraries, told by a filter.
proof fn lemma_without_libraries_filtered(
    entries: Seq<Dyn>,
    strings: Seq<u8>,
    libs: Seq<Seq<char>>,
    n: int,
)
    requires
        0 <= n <= entries.len(),
    ensures
        edits::without_libraries(entries, strings, libs, n) == entries.take(n).filter(
            |d: Dyn|
                !(d.d_tag == DT_NEEDED && d.d_val < strings.len() && libs.contains(
                    text::string_at(strings, d.d_val as int),
                )),
        ),
    decreases n,
{
    reveal(Seq::filter);
    if n > 0 {
        lemma_without_libraries_filtered(entries, strings, libs, n - 1);
        assert(entries.take(n).drop_last() =~= entries.take(n - 1));
        assert(entries.take(n).last() == entries[n - 1]);
    }
}

/// Removing libraries takes away the entries that name them and no others: all entries with
/// other tags stay, with their values and in their order. The strings stay as well.
pub proof fn law_only_entries_of_removed_libraries_go(s: ElfState, libs: Seq<Seq<char>>)
    requires
        s.has_linking(),
        libs.len() > 0,
        s.next_entries().len() > 0,
        s.next_entries().last().d_tag == DT_NULL,
    ensures
        ({
            let a = s.removing_needed(libs)->0.state;
            let strings = s.next_strings();
            &&& s.removing_needed(libs) is Some
            &&& s.removing_needed(libs)->0.error is None
            &&& a.next_strings() == strings
            &&& a.contents == s.contents
            &&& a.header == s.header
            &&& a.phdrs == s.phdrs
            &&& a.shdrs == s.shdrs
            &&& a.next_entries() == s.next_entries().filter(
                |d: Dyn|
                    !(d.d_tag == DT_NEEDED && d.d_val < strings.len() && libs.contains(
                        text::string_at(strings, d.d_val as int),
                    )),
            )
        }),
{
    let entries = s.next_entries();
    let n = entries.len() as int;
    library_laws::lemma_removing(s, libs);
    lemma_without_libraries_filtered(entries, s.next_strings(), libs, n);
    assert(entries.take(n) =~= entries);
    linking::lemma_tag(entries, DT_NULL, 0);
    assert(entries[n - 1].d_tag == DT_NULL);
}

/// Every entry with another tag than that of needed libraries is among the entries after
/// their removal.
pub proof fn law_other_entries_survive_removal(s: ElfState, libs: Seq<Seq<char>>, i: int)
    requires
        s.has_linking(),
        libs.len() > 0,
        0 <= i < s.next_entries().len(),
        s.next_entries()[i].d_tag != DT_NEEDED,
    ensures
        s.removing_needed(libs)->0.state.next_entries().contains(s.next_entries()[i]),
{
    let entries = s.next_entries();
    let n = entries.len() as int;
    let strings = s.next_strings();
    let left = edits::without_libraries(entries, strings, libs, n);
    library_laws::lemma_removing(s, libs);
    lemma_kept(entries, strings, libs, n, i);
    let k = choose|k: int| 0 <= k < left.len() && left[k] == entries[i];
    assert(s.removing_needed(libs)->0.state.next_entries()[k] == entries[i]);
}

proof fn lemma_kept(entries: Seq<Dyn>, strings: Seq<u8>, libs: Seq<Seq<char>>, n: int, i: int)
    requires
        0 <= i < n <= entries.len(),
        entries[i].d_tag != DT_NEEDED,
    ensures
        edits::without_libraries(entries, strings, libs, n).contains(entries[i]),
    decreases n,
{
    let all = edits::without_libraries(entries, strings, libs, n);
    let before = edits::without_libraries(entries, strings, libs, n - 1);
    if i < n - 1 {
        lemma_kept(entries, strings, libs, n - 1, i);
        let k = choose|k: int| 0 <= k < before.len() && before[k] == entries[i];
        assert(all[k] == entries[i]);
    } else {
        assert(all[before.len() as int] == entries[i]);
    }
}

/// Removing libraries and then others is removing all of them, as far as what is needed
/// goes.
pub proof fn law_removing_twice_is_removing_all(
    s: ElfState,
    libs: Seq<Seq<char>>,
    more: Seq<Seq<char>>,
)
    requires
        s.has_linking(),
        libs.len() > 0,
        more.len() > 0,
    ensures
        s.removing_needed(libs)->0.state.removing_needed(more)->0.state.next_needed()
            == s.removing_needed(libs + more)->0.state.next_needed(),
{
    let a = s.removing_needed(libs)->0.state;
    library_laws::law_removed_libraries_are_not_needed(s, libs);
    library_laws::law_removed_libraries_are_not_needed(a, more);
    library_laws::law_removed_libraries_are_not_needed(s, libs + more);
    lemma_remaining_twice(s.next_needed(), libs, more);
}

proof fn lemma_remaining_twice(
    names: Seq<Seq<char>>,
    libs: Seq<Seq<char>>,
    more: Seq<Seq<char>>,
)
    ensures
        library_laws::remaining(library_laws::remaining(names, libs), more)
            == library_laws::remaining(names, libs + more),
    decreases names.len(),
{
    reveal(Seq::filter);
    if names.len() > 0 {
        let name = names.last();
        let front = names.drop_last();
        lemma_remaining_twice(front, libs, more);
        assert((libs + more).contains(name) == (libs.contains(name) || more.contains(name))) by {
            if libs.contains(name) {
                let k = choose|k: int| 0 <= k < libs.len() && libs[k] == name;
                assert((libs + more)[k] == name);
            }
            if more.contains(name) {
                let k = choose|k: int| 0 <= k < more.len() && more[k] == name;
                assert((libs + more)[libs.len() + k] == name);
            }
            if (libs + more).contains(name) {
                let k = choose|k: int| 0 <= k < (libs + more).len() && (libs + more)[k] == name;
                if k < libs.len() {
                    assert(libs[k] == name);
                } else {
                    assert(more[k - libs.len()] == name);
                }
            }
        }
        let once = library_laws::remaining(front, libs);
        assert(once.push(name).drop_last() =~= once);
    }
}

/// A name is replaced by the last replacement for it; where there is none it stays.
pub proof fn law_the_last_replacement_counts(
    replacements: Seq<(Seq<char>, Seq<char>)>,
    name: Seq<char>,
    k: int,
)
    requires
        -1 <= k < replacements.len(),
        k >= 0 ==> replacements[k].0 == name,
        forall|j: int| k < j < replacements.len() ==> (#[trigger] replacements[j]).0 != name,
    ensures
        k >= 0 ==> renaming_laws::replaced_name(replacements, name) == replacements[k].1,
        k == -1 ==> renaming_laws::replaced_name(replacements, name) == name,
{
    lemma_new_name_at(replacements, name, k, replacements.len() as int);
}

proof fn lemma_new_name_at(
    replacements: Seq<(Seq<char>, Seq<char>)>,
    name: Seq<char>,
    k: int,
    n: int,
)
    requires
        -1 <= k < n <= replacements.len(),
        k >= 0 ==> replacements[k].0 == name,
        forall|j: int| k < j < n ==> (#[trigger] replacements[j]).0 != name,
    ensures
        edits::new_name(replacements, name, n) == (if k >= 0 {
            Some(replacements[k].1)
        } else {
            None
        }),
    decreases n,
{
    if k < n - 1 {
        assert(replacements[n - 1].0 != name);
        lemma_new_name_at(replacements, name, k, n - 1);
    }
}

/// After the replacement of libraries as many are needed, in the same order. Each has the
/// new name that the last replacement for its old one gives; one that is not to be replaced
/// keeps its name.
pub proof fn law_every_replacement_is_made(
    s: ElfState,
    replacements: Seq<(Seq<char>, Seq<char>)>,
    i: int,
    k: int,
)
    requires
        s.replaces_libraries(replacements),
        0 <= i < s.next_needed().len(),
        -1 <= k < replacements.len(),
        k >= 0 ==> replacements[k].0 == s.next_needed()[i],
        forall|j: int|
            k < j < replacements.len() ==> (#[trigger] replacements[j]).0 != s.next_needed()[i],
    ensures
        ({
            let names = s.replacing_needed(replacements)->0.state.next_needed();
            &&& names.len() == s.next_needed().len()
            &&& k >= 0 ==> names[i] == replacements[k].1
            &&& k == -1 ==> names[i] == s.next_needed()[i]
        }),
{
    renaming_laws::law_replaced_libraries_are_needed(s, replacements);
    law_the_last_replacement_counts(replacements, s.next_needed()[i], k);
}

/// Replacing libraries changes no byte of the strings but those of the names that are
/// replaced. New names that are longer stand behind the strings.
pub proof fn law_replacing_leaves_other_strings(
    s: ElfState,
    replacements: Seq<(Seq<char>, Seq<char>)>,
    q: int,
)
    requires
        s.replaces_libraries(replacements),
        0 <= q < s.next_strings().len(),
        forall|i: int|
            0 <= i < s.next_entries().len() && (#[trigger] s.next_entries()[i]).d_tag == DT_NEEDED
                && (exists|k: int|
                0 <= k < replacements.len() && (#[trigger] replacements[k]).0 == text::string_at(
                    s.next_strings(),
                    s.next_entries()[i].d_val as int,
                )) ==> !(s.next_entries()[i].d_val <= q < s.next_entries()[i].d_val + encode_utf8(
                text::string_at(s.next_strings(), s.next_entries()[i].d_val as int),
            ).len()),
    ensures
        s.next_strings().len() <= s.replacing_needed(
            replacements,
        )->0.state.next_strings().len(),
        s.replacing_needed(replacements)->0.state.next_strings()[q] == s.next_strings()[q],
{
    let entries = s.next_entries();
    let names = s.next_strings();
    let added = edits::longer_names(entries, names, replacements, entries.len() as int);
    let tail = edits::c_strings(added, added.len() as int);
    renaming_laws::lemma_replacing(s, replacements);
    assert forall|i: int|
        0 <= i < entries.len() && #[trigger] edits::renamed_in_place(
            entries[i],
            names,
            replacements,
            added,
        ) implies !(entries[i].d_val <= q < entries[i].d_val + edits::name_bytes(
        entries[i],
        names,
    ).len()) by {
        let d = entries[i];
        let name = text::string_at(names, d.d_val as int);
        lemma_renamed_is_listed(replacements, name, replacements.len() as int);
    }
    lemma_renamed_byte(names + tail, entries, names, replacements, added, 0, q);
}

proof fn lemma_renamed_is_listed(
    replacements: Seq<(Seq<char>, Seq<char>)>,
    name: Seq<char>,
    n: int,
)
    requires
        0 <= n <= replacements.len(),
    ensures
        edits::new_name(replacements, name, n) is Some ==> exists|k: int|
            0 <= k < replacements.len() && (#[trigger] replacements[k]).0 == name,
    decreases n,
{
    if n > 0 {
        lemma_renamed_is_listed(replacements, name, n - 1);
        assert(replacements[n - 1].0 == name || replacements[n - 1].0 != name);
    }
}

proof fn lemma_renamed_byte(
    b: Seq<u8>,
    entries: Seq<Dyn>,
    names: Seq<u8>,
    replacements: Seq<(Seq<char>, Seq<char>)>,
    added: Seq<Seq<char>>,
    i: int,
    q: int,
)
    requires
        0 <= i,
        0 <= q < b.len(),
        forall|j: int|
            0 <= j < entries.len() && #[trigger] edits::renamed_in_place(
                entries[j],
                names,
                replacements,
                added,
            ) ==> !(entries[j].d_val <= q < entries[j].d_val + edits::name_bytes(
                entries[j],
                names,
            ).len()),
    ensures
        renaming_laws::renamed_strings(b, entries, names, replacements, added, i).len() == b.len(),
        renaming_laws::renamed_strings(b, entries, names, replacements, added, i)[q] == b[q],
    decreases entries.len() - i,
{
    if i < entries.len() {
        if edits::renamed_in_place(entries[i], names, replacements, added) {
            let next = edits::overlaid(
                b,
                entries[i].d_val as int,
                edits::padded_name(entries[i], names, replacements),
            );
            lemma_renamed_byte(next, entries, names, replacements, added, i + 1, q);
        } else {
            lemma_renamed_byte(b, entries, names, replacements, added, i + 1, q);
        }
    }
}

/// The bytes that texts take with the zero bytes that end them.
proof fn lemma_c_strings_bound(texts: Seq<Seq<char>>, most: int, n: int)
    requires
        0 <= n <= texts.len(),
        forall|i: int| 0 <= i < texts.len() ==> encode_utf8(#[trigger] texts[i]).len() < most,
    ensures
        edits::c_strings(texts, n).len() <= n * most,
    decreases n,
{
    if n > 0 {
        lemma_c_strings_bound(texts, most, n - 1);
        assert(n * most == (n - 1) * most + most) by (nonlinear_arith);
        assert(encode_utf8(texts[n - 1]).len() < most);
    }
}

/// Libraries can be added to a file with strings and with entries that end in a null entry,
/// as long as all of it can be addressed. The strings then begin with those that there
/// were, and the entries but the null entry stay where they are.
pub proof fn law_libraries_can_be_added(s: ElfState, libs: Seq<Seq<char>>, most: int)
    requires
        s.has_linking(),
        s.is_shared_by(".dynstr"@) ==> sections::lookup(s.replaced, ".dynamic"@) is Some,
        s.next_entries().len() > 0,
        s.next_entries().last().d_tag == DT_NULL,
        libs.len() > 0,
        forall|i: int| 0 <= i < libs.len() ==> encode_utf8(#[trigger] libs[i]).len() < most,
        s.next_strings().len() + libs.len() * most <= isize::MAX,
        s.ctx.container is Little ==> s.next_strings().len() + libs.len() * most <= u32::MAX,
        (s.next_entries().len() + libs.len()) * s.ctx.dyn_len() <= isize::MAX,
    ensures
        ({
            let a = s.adding_needed(libs)->0.state;
            let entries = s.next_entries();
            let n = entries.len() as int;
            &&& s.adding_needed(libs) is Some
            &&& s.adding_needed(libs)->0.error is None
            &&& library_laws::adds_libraries(s, libs)
            &&& a.contents == s.contents
            &&& a.header == s.header
            &&& a.phdrs == s.phdrs
            &&& a.shdrs == s.shdrs
            &&& s.next_strings() == a.next_strings().take(s.next_strings().len() as int)
            &&& a.next_entries().len() == n + libs.len()
            &&& a.next_entries().take(n - 1) == entries.drop_last()
            &&& a.next_entries().last() == entries.last()
            &&& forall|i: int|
                n - 1 <= i < n - 1 + libs.len() ==> (#[trigger] a.next_entries()[i]).d_tag
                    == DT_NEEDED
        }),
{
    let a = s.adding_needed(libs)->0.state;
    let entries = s.next_entries();
    let n = entries.len() as int;
    let count = libs.len() as int;
    let tail = edits::c_strings(libs, count);
    lemma_c_strings_bound(libs, most, count);
    linking::lemma_tag(entries, DT_NULL, 0);
    assert(entries[n - 1].d_tag == DT_NULL);
    assert(library_laws::takes_libraries(s));
    library_laws::lemma_more_strings(s, tail);
    let h = s.section(".dynstr"@)->0;
    let extended = s.with_strings(h, tail);
    assert(s.adding_needed(libs) is Some);
    assert(s.adding_needed(libs)->0.error is None);
    linking::lemma_names_differ();
    linking::lemma_with_section(s, ".dynstr"@, s.next_strings() + tail);
    linking::lemma_with_section(
        extended,
        ".dynamic"@,
        state::dyns_bytes(
            library_laws::with_libraries(entries, libs, s.next_strings().len() as int),
            s.ctx,
        ),
    );
    assert(a.section(".dynstr"@) == s.section(".dynstr"@));
    assert(a.next_strings() == s.next_strings() + tail);
    library_laws::lemma_adding(s, libs);
    let all = library_laws::with_libraries(entries, libs, s.next_strings().len() as int);
    assert(s.next_strings() =~= a.next_strings().take(s.next_strings().len() as int));
    assert(all.take(n - 1) =~= entries.drop_last());
    assert(all.last() == all[all.len() - 1]);
    assert(all[all.len() - 1] == entries[n - 1]);
    assert forall|i: int| n - 1 <= i < n - 1 + count implies (#[trigger] all[i]).d_tag
        == DT_NEEDED by {
        assert(all[i] == edits::needed_entries(libs, s.next_strings().len() as int)[i - (n - 1)]);
    }
}

/// No libraries can be added to entries without a null entry.
pub proof fn law_libraries_need_a_null_entry(s: ElfState, libs: Seq<Seq<char>>, most: int)
    requires
        s.has_linking(),
        !s.is_shared_by(".dynstr"@),
        forall|i: int|
            0 <= i < s.next_entries().len() ==> (#[trigger] s.next_entries()[i]).d_tag != DT_NULL,
        libs.len() > 0,
        forall|i: int| 0 <= i < libs.len() ==> encode_utf8(#[trigger] libs[i]).len() < most,
        s.next_strings().len() + libs.len() * most <= isize::MAX,
    ensures
        s.adding_needed(libs) is Some,
        s.adding_needed(libs)->0.error == Some(
            ErrorView::Malformed("No DT_NULL in dynamic section"@),
        ),
{
    let h = s.section(".dynstr"@)->0;
    let g = s.section(".dynamic"@)->0;
    let tail = edits::c_strings(libs, libs.len() as int);
    let e = s.with_strings(h, tail);
    lemma_c_strings_bound(libs, most, libs.len() as int);
    linking::lemma_names_differ();
    linking::lemma_with_section(s, ".dynstr"@, s.next_strings() + tail);
    assert(e.owner(g) == s.owner(g));
    assert(e.dyn_data(g) == s.dyn_data(g));
    linking::lemma_tag(s.next_entries(), DT_NULL, 0);
}

/// Libraries are neither removed nor replaced where the strings lie outside of the file.
pub proof fn law_strings_must_lie_in_the_file(
    s: ElfState,
    libs: Seq<Seq<char>>,
    replacements: Seq<(Seq<char>, Seq<char>)>,
)
    requires
        s.section(".dynstr"@) matches Some(h) && h.sh_offset + h.sh_size > s.contents.len(),
        sections::lookup(s.replaced, ".dynstr"@) is None,
        libs.len() > 0,
        replacements.len() > 0,
    ensures
        s.removing_needed(libs) == edits::failed(
            s,
            ErrorView::Malformed("Invalid dynstr section"@),
        ),
        s.replacing_needed(replacements) == edits::failed(
            s,
            ErrorView::Malformed("Invalid dynstr section"@),
        ),
        s.needed() == Ok::<Seq<Seq<char>>, ErrorView>(Seq::empty()),
        forall|tag: u64| #[trigger]
            s.search_paths(tag) == Ok::<Seq<Seq<char>>, ErrorView>(Seq::empty()),
{
}

/// Libraries can be replaced where their names are strings of their own, as long as all of
/// it can be addressed.
pub proof fn law_libraries_can_be_replaced(
    s: ElfState,
    replacements: Seq<(Seq<char>, Seq<char>)>,
    most: int,
)
    requires
        s.has_linking(),
        replacements.len() > 0,
        renaming_laws::names_separate(s.next_entries(), s.next_strings()),
        most > 0,
        forall|i: int|
            0 <= i < replacements.len() ==> encode_utf8((#[trigger] replacements[i]).1).len()
                < most && !encode_utf8(replacements[i].1).contains(0),
        s.next_strings().len() + s.next_entries().len() * most <= isize::MAX,
        s.ctx.container is Little ==> s.next_strings().len() + s.next_entries().len() * most
            <= u32::MAX,
    ensures
        s.replacing_needed(replacements) is Some,
        s.replacing_needed(replacements)->0.error is None,
        s.replaces_libraries(replacements),
{
    let strings = s.section(".dynstr"@)->0;
    let entries = s.next_entries();
    let names = s.next_strings();
    let n = entries.len() as int;
    let added = edits::longer_names(entries, names, replacements, n);
    let tail = edits::c_strings(added, added.len() as int);
    lemma_longer_bound(entries, names, replacements, most, n);
    lemma_c_strings_bound(added, most, added.len() as int);
    assert(added.len() * most <= n * most) by (nonlinear_arith)
        requires
            added.len() <= n,
            most >= 0,
    ;
    let extended = if added.len() > 0 {
        s.with_strings(strings, tail)
    } else {
        s
    };
    linking::lemma_names_differ();
    linking::lemma_with_section(s, ".dynstr"@, names + tail);
    if added.len() == 0 {
        assert(names + tail =~= names);
    }
    assert(extended.section(".dynstr"@) == s.section(".dynstr"@));
    assert(extended.next_strings() == names + tail);
    renaming_laws::lemma_renamed_from(extended, entries, names, replacements, added, 0);
    let w = extended.renamed_from(strings, entries, names, replacements, added, 0)->0;
    let renamed = renaming_laws::renamed_entries(entries, names, replacements);
    linking::lemma_with_section(w, ".dynamic"@, state::dyns_bytes(renamed, s.ctx));
    let a = s.replacing_needed(replacements)->0.state;
    assert(a == w.with_dyns(renamed).marked());
    assert(a.section(".dynstr"@) == s.section(".dynstr"@));
    assert(a.next_strings() == w.next_strings());
}

proof fn lemma_longer_bound(
    entries: Seq<Dyn>,
    names: Seq<u8>,
    replacements: Seq<(Seq<char>, Seq<char>)>,
    most: int,
    n: int,
)
    requires
        0 <= n <= entries.len(),
        forall|i: int|
            0 <= i < replacements.len() ==> encode_utf8((#[trigger] replacements[i]).1).len()
                < most,
    ensures
        ({
            let added = edits::longer_names(entries, names, replacements, n);
            &&& added.len() <= n
            &&& forall|i: int| 0 <= i < added.len() ==> encode_utf8(#[trigger] added[i]).len()
                < most
        }),
    decreases n,
{
    if n > 0 {
        lemma_longer_bound(entries, names, replacements, most, n - 1);
        let d = entries[n - 1];
        let name = text::string_at(names, d.d_val as int);
        lemma_new_name_bound(replacements, name, most, replacements.len() as int);
        let before = edits::longer_names(entries, names, replacements, n - 1);
        let added = edits::longer_names(entries, names, replacements, n);
        assert forall|i: int| 0 <= i < added.len() implies encode_utf8(#[trigger] added[i]).len()
            < most by {
            if i < before.len() {
                assert(added[i] == before[i]);
            }
        }
    }
}

proof fn lemma_new_name_bound(
    replacements: Seq<(Seq<char>, Seq<char>)>,
    name: Seq<char>,
    most: int,
    n: int,
)
    requires
        0 <= n <= replacements.len(),
        forall|i: int|
            0 <= i < replacements.len() ==> encode_utf8((#[trigger] replacements[i]).1).len()
                < most,
    ensures
        edits::new_name(replacements, name, n) matches Some(new) ==> encode_utf8(new).len() < most,
    decreases n,
{
    if n > 0 {
        assert(encode_utf8(replacements[n - 1].1).len() < most);
        lemma_new_name_bound(replacements, name, most, n - 1);
    }
}

/// Search paths can be set where there is a null entry or one for them, as long as all of
/// it can be addressed.
pub proof fn law_search_paths_can_be_set(s: ElfState, path: Seq<char>, tag: u64)
    requires
        s.is_writable_in_place(),
        s.contents.len() <= usize::MAX,
        tag == DT_RPATH || tag == DT_RUNPATH,
        exists|i: int|
            0 <= i < s.next_entries().len() && ((#[trigger] s.next_entries()[i]).d_tag == DT_NULL
                || s.next_entries()[i].d_tag == DT_RPATH || s.next_entries()[i].d_tag
                == DT_RUNPATH),
        s.next_strings().len() + encode_utf8(path).len() < isize::MAX,
        (s.next_entries().len() + 1) * s.ctx.dyn_len() <= isize::MAX,
    ensures
        s.setting_path(path, tag) is Some,
        s.setting_path(path, tag)->0.error is None,
        s.takes_path(path, tag),
{
    let entries = s.next_entries();
    let i = choose|i: int|
        0 <= i < entries.len() && ((#[trigger] entries[i]).d_tag == DT_NULL || entries[i].d_tag
            == DT_RPATH || entries[i].d_tag == DT_RUNPATH);
    path_laws::lemma_slot(entries, 0);
    linking::lemma_tag(entries, DT_NULL, 0);
    assert(entries[i].d_tag == DT_NULL || entries[i].d_tag == DT_RPATH || entries[i].d_tag
        == DT_RUNPATH);
    if s.path_fits(path) {
        path_laws::lemma_path_in_place(s, path, tag);
    } else {
        let d = Dyn { d_tag: tag, d_val: s.next_strings().len() as u64 };
        let changed = edits::with_path_entry(entries, edits::path_slot(entries, 0), d);
        let size = s.ctx.dyn_len();
        let n = entries.len() as int;
        let m = changed.len() as int;
        assert(n * size <= (n + 1) * size) by (nonlinear_arith)
            requires
                size >= 0,
        ;
        assert(m == n || m == n + 1);
        path_laws::lemma_path_behind(s, path, tag);
    }
}

/// Search paths that are not longer than the present ones are written over these: no other
/// byte of the strings changes, and where nothing waited nothing waits. Longer ones stand
/// behind the strings, which stay.
pub proof fn law_paths_change_no_other_string(s: ElfState, path: Seq<char>, tag: u64, k: int)
    requires
        s.takes_path(path, tag),
        0 <= k < s.next_entries().len(),
        s.next_entries()[k].d_tag == DT_RPATH || s.next_entries()[k].d_tag == DT_RUNPATH,
        forall|i: int|
            0 <= i < k ==> (#[trigger] s.next_entries()[i]).d_tag != DT_RPATH
                && s.next_entries()[i].d_tag != DT_RUNPATH,
    ensures
        ({
            let a = s.setting_path(path, tag)->0.state;
            let strings = s.next_strings();
            let at = s.next_entries()[k].d_val as int;
            let len = encode_utf8(text::string_at(strings, at)).len();
            if encode_utf8(path).len() <= len {
                &&& a.next_strings().len() == strings.len()
                &&& forall|q: int|
                    0 <= q < strings.len() && !(at <= q <= at + len) ==> #[trigger] a.next_strings()[q]
                        == strings[q]
                &&& a.contents.len() == s.contents.len()
                &&& s.replaced.len() == 0 ==> a.replaced.len() == 0
            } else {
                a.next_strings() == strings + encode_utf8(path).push(0)
            }
        }),
{
    let entries = s.next_entries();
    path_laws::lemma_slot(entries, 0);
    assert(entries[k].d_tag == DT_RPATH || entries[k].d_tag == DT_RUNPATH);
    assert(edits::path_slot(entries, 0) == Some(k)) by {
        let f = edits::path_slot(entries, 0)->0;
        if f < k {
            assert(entries[f].d_tag != DT_RPATH);
        }
    }
    if s.path_fits(path) {
        path_laws::lemma_path_in_place(s, path, tag);
    } else {
        path_laws::lemma_path_behind(s, path, tag);
    }
}

/// The first search paths of a file stand behind the strings, which stay, and their entry
/// before the null entry.
pub proof fn law_first_paths_stand_behind_the_strings(s: ElfState, path: Seq<char>, tag: u64)
    requires
        s.takes_path(path, tag),
        forall|i: int|
            0 <= i < s.next_entries().len() ==> (#[trigger] s.next_entries()[i]).d_tag != DT_RPATH
                && s.next_entries()[i].d_tag != DT_RUNPATH,
    ensures
        ({
            let a = s.setting_path(path, tag)->0.state;
            let n = s.next_entries().len() as int;
            &&& s.setting_path(path, tag)->0.error is None
            &&& a.next_strings() == s.next_strings() + encode_utf8(path).push(0)
            &&& a.next_entries().len() == n + 1
            &&& a.next_entries().take(n - 1) == s.next_entries().take(n - 1)
            &&& a.next_entries()[n - 1].d_tag == tag
            &&& a.next_entries()[n].d_tag == DT_NULL
        }),
{
    let entries = s.next_entries();
    let n = entries.len() as int;
    path_laws::lemma_slot(entries, 0);
    linking::lemma_tag(entries, DT_NULL, 0);
    roundtrip::lemma_dyns_from_shape(s.next_dyn_data(), s.ctx, 0);
    path_laws::lemma_path_behind(s, path, tag);
    let a = s.setting_path(path, tag)->0.state;
    assert(state::tag_from(entries, DT_NULL, 0) == Some(n - 1));
    assert(a.next_entries().take(n - 1) =~= entries.take(n - 1));
}

/// What is set last counts: the search paths are those of the last call, under its tag.
pub proof fn law_the_last_paths_count(
    s: ElfState,
    first: Seq<char>,
    path: Seq<char>,
    old: u64,
    tag: u64,
)
    requires
        s.sets_path(first, old),
        s.setting_path(first, old)->0.state.sets_path(path, tag),
    ensures
        s.setting_path(first, old)->0.state.setting_path(path, tag)->0.state.next_paths(tag)
            == text::split(path, ':'),
{
    path_laws::law_search_paths_are_set(s.setting_path(first, old)->0.state, path, tag);
}

/// The interpreter that is set waits with the zero byte that ends it, and nothing else of
/// the file changes.
pub proof fn law_setting_the_interpreter_changes_nothing_else(s: ElfState, path: Seq<char>)
    requires
        s.section(".interp"@) is Some,
    ensures
        ({
            let a = s.setting_interpreter(path).state;
            &&& s.setting_interpreter(path).error is None
            &&& a.contents == s.contents
            &&& a.header == s.header
            &&& a.phdrs == s.phdrs
            &&& a.shdrs == s.shdrs
            &&& s.interpreter() != Some(path) ==> sections::lookup(a.replaced, ".interp"@) == Some(
                encode_utf8(path).push(0),
            )
            &&& sections::lookup(a.replaced, ".interp"@) matches Some(content) ==> content
                == encode_utf8(path).push(0)
            &&& forall|name: Seq<char>|
                name != ".interp"@ ==> #[trigger] sections::lookup(a.replaced, name)
                    == sections::lookup(s.replaced, name)
        }),
{
    linking::lemma_with_section(s, ".interp"@, edits::c_string(path));
}

/// What the needed libraries and the search paths are in the file that will be written,
/// told by its entries and strings.
pub proof fn law_next_names_are_told_by_entries(s: ElfState, tag: u64)
    ensures
        ({
            let entries = s.next_entries();
            let strings = s.next_strings();
            &&& s.next_needed() == entries.filter(
                |d: Dyn| d.d_tag == DT_NEEDED && d.d_val < strings.len(),
            ).map_values(|d: Dyn| text::string_at(strings, d.d_val as int))
            &&& (forall|i: int|
                0 <= i < entries.len() ==> (#[trigger] entries[i]).d_tag != tag)
                ==> s.next_paths(tag) == Seq::<Seq<char>>::empty()
        }),
{
    let entries = s.next_entries();
    reading_laws::lemma_libraries(entries, s.next_strings(), entries.len() as int);
    assert(entries.take(entries.len() as int) =~= entries);
    if forall|i: int| 0 <= i < entries.len() ==> (#[trigger] entries[i]).d_tag != tag {
        path_laws::lemma_no_paths(entries, s.next_strings(), tag, 0);
    }
}

} // verus!
