//! What is read from a file, told by its bytes and by positions.

use crate::codec;
use crate::edits;
use crate::placement;
use crate::sections;
use crate::state;
use crate::state::ElfState;
use crate::text;
use crate::types::{Ctx, Dyn, ErrorView, SectionHeader, DT_NEEDED, DT_NULL};
use vstd::prelude::*;
use vstd::utf8::*;

verus! {

/// A string ends before the first zero byte, or with the bytes.
pub proof fn law_strings_end_at_the_first_zero(data: Seq<u8>, at: int, end: int)
    requires
        0 <= at <= end <= data.len(),
        at < data.len(),
        end < data.len() ==> data[end] == 0,
        forall|i: int| at <= i < end ==> data[i] != 0,
    ensures
        valid_utf8(data.subrange(at, end)) ==> text::string_at(data, at) == decode_utf8(
            data.subrange(at, end),
        ),
        !valid_utf8(data.subrange(at, end)) ==> text::string_at(data, at) == text::repaired_text(
            data.subrange(at, end),
        ),
{
    text::lemma_nul_from(data, at);
    let n = text::nul_from(data, at);
    if n < end {
        assert(data[n] != 0);
    }
    if end < n {
        assert(data[end] != 0);
    }
}

/// A section is named by the bytes that its header points to in the table of names.
pub proof fn law_sections_are_named_by_the_table(data: Seq<u8>, s: ElfState, i: int)
    requires
        state::is_parsed(data, s),
        0 <= i < s.shdrs.len(),
        0 < s.header.e_shstrndx < s.shdrs.len(),
    ensures
        ({
            let table = s.shdrs[s.header.e_shstrndx as int];
            let at = table.sh_offset + s.shdrs[i].sh_name;
            let end = table.sh_offset + table.sh_size;
            &&& end <= data.len() && at < end ==> s.name_of(i) == Some(
                text::string_at(data.take(end), at),
            )
            &&& end > data.len() || at >= end ==> s.name_of(i) is None
        }),
{
    let table = s.shdrs[s.header.e_shstrndx as int];
    let from = table.sh_offset as int;
    let end = table.sh_offset + table.sh_size;
    let at = s.shdrs[i].sh_name as int;
    if end <= data.len() && from + at < end {
        let names = data.subrange(from, end);
        let whole = data.take(end);
        text::lemma_nul_from(names, at);
        text::lemma_nul_from(whole, from + at);
        let n = text::nul_from(names, at);
        let m = text::nul_from(whole, from + at);
        if n < m - from {
            assert(whole[from + n] == names[n]);
        }
        if m - from < n {
            assert(whole[m] == names[m - from]);
        }
        assert(names.subrange(at, n) =~= whole.subrange(from + at, m));
    }
}

/// The section of a name is the first one that has it.
pub proof fn law_sections_are_found_by_name(s: ElfState, name: Seq<char>)
    ensures
        match s.section(name) {
            Some(h) => exists|i: int|
                0 <= i < s.shdrs.len() && s.shdrs[i] == h && #[trigger] s.name_of(i) == Some(name)
                    && forall|j: int| 0 <= j < i ==> #[trigger] s.name_of(j) != Some(name),
            None => forall|i: int|
                0 <= i < s.shdrs.len() ==> #[trigger] s.name_of(i) != Some(name),
        },
{
    placement::lemma_found(s.shdrs, s.shstrtab, name, 0);
    match s.find(name) {
        Some(i) => {
            assert(s.name_of(i) == Some(name));
            assert forall|j: int| 0 <= j < i implies #[trigger] s.name_of(j) != Some(name) by {
                assert(state::section_name(s.shdrs, s.shstrtab, j) != Some(name));
            }
        },
        None => {
            assert forall|i: int| 0 <= i < s.shdrs.len() implies #[trigger] s.name_of(i) != Some(
                name,
            ) by {
                if s.name_of(i) == Some(name) {
                    state::lemma_named(s.shdrs, s.shstrtab, name, 0, i);
                }
            }
        },
    }
}

/// Dynamic entries stand one behind the other, from the first byte on. The first null
/// entry is the last one that is read, or else they are read as long as one fits.
pub proof fn law_entries_stand_one_behind_the_other(data: Seq<u8>, ctx: Ctx)
    ensures
        ({
            let entries = state::dyns_from(data, ctx, 0);
            let n = entries.len() as int;
            &&& n * ctx.dyn_len() <= data.len()
            &&& forall|i: int|
                0 <= i < n ==> #[trigger] entries[i] == codec::dyn_at(data, i * ctx.dyn_len(), ctx)
            &&& forall|i: int| 0 <= i < n - 1 ==> (#[trigger] entries[i]).d_tag != DT_NULL
            &&& n > 0 && entries[n - 1].d_tag == DT_NULL || data.len() < (n + 1) * ctx.dyn_len()
        }),
{
    lemma_entries(data, ctx, 0);
}

proof fn lemma_entries(data: Seq<u8>, ctx: Ctx, k: int)
    requires
        0 <= k,
        k * ctx.dyn_len() <= data.len(),
    ensures
        ({
            let entries = state::dyns_from(data, ctx, k);
            let n = entries.len() as int;
            &&& (k + n) * ctx.dyn_len() <= data.len()
            &&& forall|i: int|
                0 <= i < n ==> #[trigger] entries[i] == codec::dyn_at(
                    data,
                    (k + i) * ctx.dyn_len(),
                    ctx,
                )
            &&& forall|i: int| 0 <= i < n - 1 ==> (#[trigger] entries[i]).d_tag != DT_NULL
            &&& n > 0 && entries[n - 1].d_tag == DT_NULL || data.len() < (k + n + 1)
                * ctx.dyn_len()
        }),
    decreases data.len() - k * ctx.dyn_len(),
{
    let size = ctx.dyn_len();
    assert((k + 1) * size == k * size + size) by (nonlinear_arith);
    if (k + 1) * size <= data.len() {
        let d = codec::dyn_at(data, k * size, ctx);
        let entries = state::dyns_from(data, ctx, k);
        if d.d_tag != DT_NULL {
            let rest = state::dyns_from(data, ctx, k + 1);
            lemma_entries(data, ctx, k + 1);
            assert forall|i: int| 0 <= i < entries.len() implies #[trigger] entries[i]
                == codec::dyn_at(data, (k + i) * size, ctx) by {
                if i > 0 {
                    assert(entries[i] == rest[i - 1]);
                }
            }
            assert forall|i: int| 0 <= i < entries.len() - 1 implies (
            #[trigger] entries[i]).d_tag != DT_NULL by {
                if i > 0 {
                    assert(entries[i] == rest[i - 1]);
                }
            }
            if rest.len() > 0 {
                assert(entries[entries.len() - 1] == rest[rest.len() - 1]);
            }
        }
    }
}

/// Dynamic entries that wait are the ones that count. Where nothing waits they are read
/// from the bytes of their section.
pub proof fn law_waiting_entries_count(s: ElfState)
    requires
        s.section(".dynamic"@) is Some,
    ensures
        ({
            let h = s.section(".dynamic"@)->0;
            let from = h.sh_offset as int;
            let to = h.sh_offset + h.sh_size;
            &&& sections::lookup(s.replaced, ".dynamic"@) matches Some(content) ==> s.dyn_data(h)
                == Some(content)
            &&& s.replaced.len() == 0 && to <= s.contents.len() ==> s.dyn_data(h) == Some(
                s.contents.subrange(from, to),
            )
            &&& s.replaced.len() == 0 && to > s.contents.len() ==> s.dyn_data(h) is None
        }),
{
}

/// The strings that wait are the ones that will be written, or else those of the section.
pub proof fn law_waiting_strings_count(s: ElfState)
    requires
        s.section(".dynstr"@) is Some,
    ensures
        ({
            let h = s.section(".dynstr"@)->0;
            let from = h.sh_offset as int;
            let to = h.sh_offset + h.sh_size;
            &&& sections::lookup(s.replaced, ".dynstr"@) matches Some(content) ==> s.strings(h)
                == Some(content) && s.next_strings() == content
            &&& sections::lookup(s.replaced, ".dynstr"@) is None && to <= s.contents.len()
                ==> s.strings(h) == Some(s.contents.subrange(from, to)) && s.next_strings()
                == s.contents.subrange(from, to)
            &&& sections::lookup(s.replaced, ".dynstr"@) is None && to > s.contents.len()
                ==> s.strings(h) is None
        }),
{
}

/// A content is found under a name if and only if one stands there; the first one counts.
pub proof fn law_contents_are_found_by_name(m: Seq<(Seq<char>, Seq<u8>)>, name: Seq<char>)
    ensures
        match sections::lookup(m, name) {
            Some(content) => exists|i: int|
                0 <= i < m.len() && #[trigger] m[i] == (name, content) && forall|j: int|
                    0 <= j < i ==> (#[trigger] m[j]).0 != name,
            None => forall|i: int| 0 <= i < m.len() ==> (#[trigger] m[i]).0 != name,
        },
    decreases m.len(),
{
    if m.len() > 0 {
        let rest = m.drop_first();
        if m[0].0 != name {
            law_contents_are_found_by_name(rest, name);
            match sections::lookup(rest, name) {
                Some(content) => {
                    let i = choose|i: int|
                        0 <= i < rest.len() && #[trigger] rest[i] == (name, content) && forall|
                            j: int,
                        |
                            0 <= j < i ==> (#[trigger] rest[j]).0 != name;
                    assert(m[i + 1] == (name, content));
                    assert forall|j: int| 0 <= j < i + 1 implies (#[trigger] m[j]).0 != name by {
                        if j > 0 {
                            assert(rest[j - 1] == m[j]);
                        }
                    }
                },
                None => {
                    assert forall|i: int| 0 <= i < m.len() implies (#[trigger] m[i]).0 != name by {
                        if i > 0 {
                            assert(rest[i - 1] == m[i]);
                        }
                    }
                },
            }
        } else {
            assert(m[0] == (name, m[0].1));
        }
    }
}

/// The needed libraries are the strings that the entries for them point to, in the order
/// of the entries. Those that point behind the strings do not count.
pub proof fn law_entries_name_the_needed_libraries(s: ElfState)
    requires
        s.section(".dynstr"@) matches Some(h) && h.sh_offset + h.sh_size <= s.contents.len(),
        s.section(".dynamic"@) is Some,
    ensures
        ({
            let h = s.section(".dynstr"@)->0;
            let strings = s.contents.subrange(h.sh_offset as int, h.sh_offset + h.sh_size);
            let entries = s.dyns(s.section(".dynamic"@)->0);
            s.needed() == Ok::<Seq<Seq<char>>, ErrorView>(
                entries.filter(
                    |d: Dyn| d.d_tag == DT_NEEDED && d.d_val < strings.len(),
                ).map_values(|d: Dyn| text::string_at(strings, d.d_val as int)),
            )
        }),
{
    let h = s.section(".dynstr"@)->0;
    let entries = s.dyns(s.section(".dynamic"@)->0);
    lemma_libraries(entries, s.body(h), entries.len() as int);
    assert(entries.take(entries.len() as int) =~= entries);
}

/// The names that entries give to needed libraries, told by a filter.
pub(crate) proof fn lemma_libraries(entries: Seq<Dyn>, strings: Seq<u8>, n: int)
    requires
        0 <= n <= entries.len(),
    ensures
        state::libraries(entries, strings, n) == entries.take(n).filter(
            |d: Dyn| d.d_tag == DT_NEEDED && d.d_val < strings.len(),
        ).map_values(|d: Dyn| text::string_at(strings, d.d_val as int)),
    decreases n,
{
    let named = |d: Dyn| d.d_tag == DT_NEEDED && d.d_val < strings.len();
    let name = |d: Dyn| text::string_at(strings, d.d_val as int);
    reveal(Seq::filter);
    if n <= 0 {
        assert(entries.take(0).filter(named).map_values(name) =~= Seq::empty());
    } else {
        lemma_libraries(entries, strings, n - 1);
        assert(entries.take(n).drop_last() =~= entries.take(n - 1));
        let before = entries.take(n - 1).filter(named);
        assert(before.push(entries[n - 1]).map_values(name) =~= before.map_values(name).push(
            name(entries[n - 1]),
        ));
    }
}

/// The paths under a tag are the pieces, between colons, of the string that the first
/// entry with the tag points to. Entries that point behind the strings do not count.
pub proof fn law_the_first_entry_names_the_paths(s: ElfState, tag: u64, k: int)
    requires
        s.section(".dynstr"@) matches Some(h) && h.sh_offset + h.sh_size <= s.contents.len(),
        s.section(".dynamic"@) is Some,
        0 <= k <= s.dyns(s.section(".dynamic"@)->0).len(),
    ensures
        ({
            let h = s.section(".dynstr"@)->0;
            let strings = s.contents.subrange(h.sh_offset as int, h.sh_offset + h.sh_size);
            let entries = s.dyns(s.section(".dynamic"@)->0);
            (forall|j: int|
                0 <= j < k ==> !((#[trigger] entries[j]).d_tag == tag && entries[j].d_val
                    < strings.len())) ==> {
                &&& k == entries.len() ==> s.search_paths(tag) == Ok::<
                    Seq<Seq<char>>,
                    ErrorView,
                >(Seq::empty())
                &&& k < entries.len() && entries[k].d_tag == tag && entries[k].d_val
                    < strings.len() ==> (s.search_paths(tag) matches Ok(paths) && text::joined(
                    paths,
                    ':',
                ) == text::string_at(strings, entries[k].d_val as int) && forall|i: int|
                    0 <= i < paths.len() ==> !(#[trigger] paths[i]).contains(':'))
            }
        }),
{
    let h = s.section(".dynstr"@)->0;
    let strings = s.body(h);
    let entries = s.dyns(s.section(".dynamic"@)->0);
    if forall|j: int|
        0 <= j < k ==> !((#[trigger] entries[j]).d_tag == tag && entries[j].d_val
            < strings.len()) {
        lemma_skipped(entries, strings, tag, 0, k);
        if k < entries.len() {
            text::law_pieces_make_the_text(
                text::string_at(strings, entries[k].d_val as int),
                ':',
            );
        }
    }
}

proof fn lemma_skipped(entries: Seq<Dyn>, strings: Seq<u8>, tag: u64, i: int, k: int)
    requires
        0 <= i <= k <= entries.len(),
        forall|j: int|
            i <= j < k ==> !((#[trigger] entries[j]).d_tag == tag && entries[j].d_val
                < strings.len()),
    ensures
        state::paths_from(entries, strings, tag, i) == state::paths_from(entries, strings, tag, k),
    decreases k - i,
{
    if i < k {
        lemma_skipped(entries, strings, tag, i + 1, k);
    }
}

/// Pieces with marks between them can be told apart again: a text has one split into
/// pieces without the mark.
pub proof fn law_pieces_are_unique(s: Seq<char>, mark: char, pieces: Seq<Seq<char>>)
    requires
        pieces.len() > 0,
        text::joined(pieces, mark) == s,
        forall|i: int| 0 <= i < pieces.len() ==> !(#[trigger] pieces[i]).contains(mark),
    ensures
        text::split(s, mark) == pieces,
    decreases pieces.len(),
{
    let first = pieces[0];
    let n = first.len() as int;
    assert forall|i: int| 0 <= i < n implies s[i] != mark by {
        assert(s[i] == first[i]);
        assert(!first.contains(mark));
    }
    text::lemma_split_at(s, mark, n);
    if pieces.len() == 1 {
        assert(pieces =~= seq![s]);
    } else {
        let rest = pieces.drop_first();
        assert forall|i: int| 0 <= i < rest.len() implies !(#[trigger] rest[i]).contains(mark) by {
            assert(rest[i] == pieces[i + 1]);
        }
        assert(s.skip(n + 1) =~= text::joined(rest, mark));
        law_pieces_are_unique(s.skip(n + 1), mark, rest);
        assert(s[n] == mark);
        assert(s.take(n) =~= first);
        assert(pieces =~= seq![first] + rest);
    }
}

/// The interpreter is what stands in its section before the last byte.
pub proof fn law_the_interpreter_stands_in_its_section(s: ElfState, path: Seq<char>, last: u8)
    requires
        s.section(".interp"@) matches Some(h) && h.sh_offset + h.sh_size <= s.contents.len()
            && s.contents.subrange(h.sh_offset as int, h.sh_offset + h.sh_size) == encode_utf8(
            path,
        ).push(last),
    ensures
        s.interpreter() == Some(path),
{
    let h = s.section(".interp"@)->0;
    assert(s.body(h).len() == h.sh_size);
    assert(s.body(h).drop_last() =~= encode_utf8(path));
    encode_utf8_valid_utf8(path);
    encode_utf8_decode_utf8(path);
}

/// Without its section a file has no interpreter; with one outside of the file, or an empty
/// one, it has an empty one.
pub proof fn law_interpreters_may_be_missing(s: ElfState)
    ensures
        s.section(".interp"@) is None ==> s.interpreter() is None,
        s.section(".interp"@) matches Some(h) ==> (h.sh_size == 0 || h.sh_offset + h.sh_size
            > s.contents.len() ==> s.interpreter() == Some(Seq::<char>::empty())),
{
}

/// Where a section is missing that is needed, this is what is said.
pub proof fn law_missing_sections_are_reported(s: ElfState, path: Seq<char>, tag: u64)
    ensures
        s.section(".dynstr"@) is None ==> {
            &&& s.needed() == Err::<Seq<Seq<char>>, ErrorView>(
                ErrorView::Malformed("Section '.dynstr' not found"@),
            )
            &&& s.search_paths(tag) == Err::<Seq<Seq<char>>, ErrorView>(
                ErrorView::Malformed("Section '.dynstr' not found"@),
            )
            &&& s.setting_path(path, tag) == edits::failed(
                s,
                ErrorView::Malformed("Section '.dynstr' not found"@),
            )
            &&& s.adding_needed(seq![path]) == edits::failed(
                s,
                ErrorView::Malformed("Section '.dynstr' not found"@),
            )
            &&& s.removing_needed(seq![path]) == edits::failed(
                s,
                ErrorView::Malformed("Section '.dynstr' not found"@),
            )
            &&& s.replacing_needed(seq![(path, path)]) == edits::failed(
                s,
                ErrorView::Malformed("Section '.dynstr' not found"@),
            )
        },
        s.section(".interp"@) is None ==> s.setting_interpreter(path).state == s
            && s.setting_interpreter(path).error == Some(
            ErrorView::Malformed("Section '.interp' not found"@),
        ),
        s.section(".dynamic"@) is None && (s.section(".dynstr"@) matches Some(h) && h.sh_offset
            + h.sh_size <= s.contents.len()) ==> {
            &&& s.needed() == Err::<Seq<Seq<char>>, ErrorView>(
                ErrorView::Malformed("Section '.dynamic' not found"@),
            )
            &&& s.search_paths(tag) == Err::<Seq<Seq<char>>, ErrorView>(
                ErrorView::Malformed("Section '.dynamic' not found"@),
            )
            &&& s.setting_path(path, tag) == edits::failed(
                s,
                ErrorView::Malformed("Section '.dynamic' not found"@),
            )
            &&& s.adding_needed(seq![path]) == edits::failed(
                s,
                ErrorView::Malformed("Section '.dynamic' not found"@),
            )
            &&& s.removing_needed(seq![path]) == edits::failed(
                s,
                ErrorView::Malformed("Section '.dynamic' not found"@),
            )
            &&& s.replacing_needed(seq![(path, path)]) == edits::failed(
                s,
                ErrorView::Malformed("Section '.dynamic' not found"@),
            )
        },
{
    reveal_strlit("Section '");
    reveal_strlit("' not found");
    reveal_strlit(".dynstr");
    reveal_strlit(".dynamic");
    reveal_strlit(".interp");
    reveal_strlit("Section '.dynstr' not found");
    reveal_strlit("Section '.dynamic' not found");
    reveal_strlit("Section '.interp' not found");
    assert("Section '"@ + ".dynstr"@ + "' not found"@ =~= "Section '.dynstr' not found"@);
    assert("Section '"@ + ".dynamic"@ + "' not found"@ =~= "Section '.dynamic' not found"@);
    assert("Section '"@ + ".interp"@ + "' not found"@ =~= "Section '.interp' not found"@);
}

/// The content of a section that lies outside of the file is taken to be zeros, as many as
/// the section is long.
pub proof fn law_contents_outside_the_file_are_zeros(
    s: ElfState,
    name: Seq<char>,
    h: SectionHeader,
    i: int,
)
    requires
        sections::lookup(s.replaced, name) is None,
        h.sh_offset + h.sh_size > s.contents.len(),
        0 <= i < h.sh_size,
    ensures
        s.current(name, h).len() == h.sh_size,
        s.current(name, h)[i] == 0,
{
}

/// Where no dynamic entries wait under their own name, what waits for the first section at
/// their place counts, or else what stands there.
pub proof fn law_sections_at_one_place_share_contents(s: ElfState, j: int, name: Seq<char>)
    requires
        s.section(".dynamic"@) is Some,
        sections::lookup(s.replaced, ".dynamic"@) is None,
        0 <= j < s.shdrs.len(),
        s.shdrs[j].sh_offset == s.section(".dynamic"@)->0.sh_offset,
        s.shdrs[j].sh_size == s.section(".dynamic"@)->0.sh_size,
        forall|i: int|
            0 <= i < j ==> (#[trigger] s.shdrs[i]).sh_offset != s.shdrs[j].sh_offset
                || s.shdrs[i].sh_size != s.shdrs[j].sh_size,
        s.name_of(j) == Some(name),
    ensures
        ({
            let h = s.section(".dynamic"@)->0;
            &&& sections::lookup(s.replaced, name) matches Some(content) ==> s.dyn_data(h) == Some(
                content,
            )
            &&& sections::lookup(s.replaced, name) is None && h.sh_offset + h.sh_size
                <= s.contents.len() ==> s.dyn_data(h) == Some(
                s.contents.subrange(h.sh_offset as int, h.sh_offset + h.sh_size),
            )
        }),
{
    lemma_first_owner(s, s.section(".dynamic"@)->0, 0, j);
}

proof fn lemma_first_owner(s: ElfState, h: SectionHeader, i: int, j: int)
    requires
        0 <= i <= j < s.shdrs.len(),
        s.shdrs[j].sh_offset == h.sh_offset,
        s.shdrs[j].sh_size == h.sh_size,
        forall|q: int|
            i <= q < j ==> (#[trigger] s.shdrs[q]).sh_offset != h.sh_offset || s.shdrs[q].sh_size
                != h.sh_size,
    ensures
        state::owner_from(s.shdrs, s.shstrtab, h, i) == s.name_of(j),
    decreases j - i,
{
    if i < j {
        assert(s.shdrs[i].sh_offset != h.sh_offset || s.shdrs[i].sh_size != h.sh_size);
        lemma_first_owner(s, h, i + 1, j);
    }
}

} // verus!
