//! What the replacement of needed libraries makes of these, and what it leaves.

use crate::edits;
use crate::linking;
use crate::reread;
use crate::roundtrip;
use crate::sections;
use crate::state;
use crate::state::ElfState;
use crate::text;
use crate::types::{Dyn, DT_NEEDED, DT_NULL, DT_RPATH, DT_RUNPATH};
use vstd::prelude::*;
use vstd::utf8::*;

verus! {

impl ElfState {
    /// Whether libraries can be replaced: there are replacements, no new name holds a
    /// zero byte, the names of the libraries have nothing in common, and the new names
    /// are set in strings that entries can point into.
    pub open spec fn replaces_libraries(self, replacements: Seq<(Seq<char>, Seq<char>)>) -> bool {
        &&& self.has_linking()
        &&& replacements.len() > 0
        &&& forall|i: int|
            0 <= i < replacements.len() ==> !encode_utf8((#[trigger] replacements[i]).1).contains(
                0,
            )
        &&& names_separate(self.next_entries(), self.next_strings())
        &&& self.replacing_needed(replacements) matches Some(step) && step.state.strings_fit()
    }
}

/// A name after the replacement of libraries.
pub open spec fn replaced_name(
    replacements: Seq<(Seq<char>, Seq<char>)>,
    name: Seq<char>,
) -> Seq<char> {
    match edits::new_name(replacements, name, replacements.len() as int) {
        Some(new) => new,
        None => name,
    }
}

/// Names after the replacement of libraries.
pub open spec fn replaced_names(
    replacements: Seq<(Seq<char>, Seq<char>)>,
    names: Seq<Seq<char>>,
) -> Seq<Seq<char>> {
    names.map_values(|name: Seq<char>| replaced_name(replacements, name))
}

/// A text with a place stands there.
proof fn lemma_place(texts: Seq<Seq<char>>, name: Seq<char>, n: int) -> (k: int)
    requires
        0 <= n <= texts.len(),
    ensures
        match edits::place_of(texts, 0, name, n) {
            Some(place) => 0 <= k < n && texts[k] == name && place == edits::c_strings(
                texts,
                k,
            ).len(),
            None => forall|i: int| 0 <= i < n ==> texts[i] != name,
        },
    decreases n,
{
    if n <= 0 {
        0
    } else if texts[n - 1] == name {
        n - 1
    } else {
        lemma_place(texts, name, n - 1)
    }
}

/// A new name that is longer than the old one is among those that are added.
proof fn lemma_longer(
    entries: Seq<Dyn>,
    strings: Seq<u8>,
    replacements: Seq<(Seq<char>, Seq<char>)>,
    i: int,
    n: int,
)
    requires
        0 <= i < n <= entries.len(),
        edits::renaming(entries[i], strings, replacements) matches Some(name) && encode_utf8(
            name,
        ).len() > edits::name_bytes(entries[i], strings).len(),
    ensures
        edits::longer_names(entries, strings, replacements, n).contains(
            edits::renaming(entries[i], strings, replacements)->0,
        ),
    decreases n,
{
    let all = edits::longer_names(entries, strings, replacements, n);
    let before = edits::longer_names(entries, strings, replacements, n - 1);
    let name = edits::renaming(entries[i], strings, replacements)->0;
    if i == n - 1 {
        assert(all == before.push(name));
        assert(all.last() == name);
    } else {
        lemma_longer(entries, strings, replacements, i, n - 1);
        let k = choose|k: int| 0 <= k < before.len() && before[k] == name;
        assert(all[k] == name);
    }
}

/// Whether two entries name the same string, or strings that have nothing in common.
pub open spec fn names_apart(d: Dyn, e: Dyn, strings: Seq<u8>) -> bool {
    d.d_val == e.d_val || reread::apart(
        d.d_val as int,
        d.d_val + edits::name_bytes(d, strings).len() + 1,
        e.d_val as int,
        e.d_val + edits::name_bytes(e, strings).len() + 1,
    )
}

/// Whether all entries for needed libraries name strings of their own.
pub open spec fn names_separate(entries: Seq<Dyn>, strings: Seq<u8>) -> bool {
    &&& forall|i: int|
        0 <= i < entries.len() && (#[trigger] entries[i]).d_tag == DT_NEEDED ==> linking::name_ends(
            entries[i],
            strings,
        )
    &&& forall|i: int, j: int|
        0 <= i < entries.len() && 0 <= j < entries.len() && (#[trigger] entries[i]).d_tag
            == DT_NEEDED && (#[trigger] entries[j]).d_tag == DT_NEEDED ==> names_apart(
            entries[i],
            entries[j],
            strings,
        )
}

/// A name that replacements give to another holds no zero byte where none of theirs does.
proof fn lemma_new_name(replacements: Seq<(Seq<char>, Seq<char>)>, name: Seq<char>, n: int)
    requires
        0 <= n <= replacements.len(),
        forall|i: int|
            0 <= i < replacements.len() ==> !encode_utf8((#[trigger] replacements[i]).1).contains(
                0,
            ),
    ensures
        edits::new_name(replacements, name, n) matches Some(new) ==> !encode_utf8(new).contains(0),
    decreases n,
{
    if n > 0 {
        assert(!encode_utf8(replacements[n - 1].1).contains(0));
        lemma_new_name(replacements, name, n - 1);
    }
}

/// The names that are added hold no zero byte.
proof fn lemma_added_names(
    entries: Seq<Dyn>,
    strings: Seq<u8>,
    replacements: Seq<(Seq<char>, Seq<char>)>,
    n: int,
)
    requires
        0 <= n <= entries.len(),
        forall|i: int|
            0 <= i < replacements.len() ==> !encode_utf8((#[trigger] replacements[i]).1).contains(
                0,
            ),
    ensures
        ({
            let added = edits::longer_names(entries, strings, replacements, n);
            forall|i: int| 0 <= i < added.len() ==> !encode_utf8(#[trigger] added[i]).contains(0)
        }),
    decreases n,
{
    if n > 0 {
        lemma_added_names(entries, strings, replacements, n - 1);
        let d = entries[n - 1];
        lemma_new_name(
            replacements,
            text::string_at(strings, d.d_val as int),
            replacements.len() as int,
        );
        let before = edits::longer_names(entries, strings, replacements, n - 1);
        let added = edits::longer_names(entries, strings, replacements, n);
        assert forall|i: int| 0 <= i < added.len() implies !encode_utf8(
            #[trigger] added[i],
        ).contains(0) by {
            if i < before.len() {
                assert(added[i] == before[i]);
            }
        }
    }
}

/// Strings with the new names of the entries from the `i`-th on written over the old
/// ones.
pub open spec fn renamed_strings(
    b: Seq<u8>,
    entries: Seq<Dyn>,
    names: Seq<u8>,
    replacements: Seq<(Seq<char>, Seq<char>)>,
    added: Seq<Seq<char>>,
    i: int,
) -> Seq<u8>
    decreases entries.len() - i,
{
    if i >= entries.len() {
        b
    } else if !edits::renamed_in_place(entries[i], names, replacements, added) {
        renamed_strings(b, entries, names, replacements, added, i + 1)
    } else {
        renamed_strings(
            edits::overlaid(
                b,
                entries[i].d_val as int,
                edits::padded_name(entries[i], names, replacements),
            ),
            entries,
            names,
            replacements,
            added,
            i + 1,
        )
    }
}

/// New names are written over the old ones in the strings that will be written, and
/// nothing else is.
pub(crate) proof fn lemma_renamed_from(
    s: ElfState,
    entries: Seq<Dyn>,
    names: Seq<u8>,
    replacements: Seq<(Seq<char>, Seq<char>)>,
    added: Seq<Seq<char>>,
    i: int,
)
    requires
        s.section(".dynstr"@) matches Some(h) && s.strings(h) is Some,
        0 <= i,
        names_separate(entries, names),
        names.len() <= s.next_strings().len(),
    ensures
        ({
            let step = s.renamed_from(
                s.section(".dynstr"@)->0,
                entries,
                names,
                replacements,
                added,
                i,
            );
            let w = step->0;
            &&& step is Some
            &&& w == ElfState { contents: w.contents, replaced: w.replaced, ..s }
            &&& w.contents.len() == s.contents.len()
            &&& w.strings(s.section(".dynstr"@)->0) is Some
            &&& w.next_strings() == renamed_strings(
                s.next_strings(),
                entries,
                names,
                replacements,
                added,
                i,
            )
            &&& w.next_strings().len() == s.next_strings().len()
            &&& sections::ordered(s.replaced) ==> sections::ordered(w.replaced)
            &&& forall|q: int|
                0 <= q < s.contents.len() && #[trigger] w.contents[q] != s.contents[q]
                    ==> linking::inside(s, s.section(".dynstr"@)->0, q)
        }),
    decreases entries.len() - i,
{
    let h = s.section(".dynstr"@)->0;
    if i < entries.len() {
        let d = entries[i];
        if edits::renamed_in_place(d, names, replacements, added) {
            let part = edits::padded_name(d, names, replacements);
            assert(linking::name_ends(d, names));
            linking::lemma_with_string(s, d.d_val as int, part);
            let next = s.with_string(h, d.d_val as int, part)->0;
            assert(next.section(".dynstr"@) == s.section(".dynstr"@));
            lemma_renamed_from(next, entries, names, replacements, added, i + 1);
            let w = s.renamed_from(h, entries, names, replacements, added, i)->0;
            assert forall|q: int|
                0 <= q < s.contents.len() && #[trigger] w.contents[q] != s.contents[q] implies
                linking::inside(s, h, q) by {
                if next.contents[q] == s.contents[q] {
                    assert(w.contents[q] != next.contents[q]);
                }
            }
        } else {
            lemma_renamed_from(s, entries, names, replacements, added, i + 1);
        }
    }
}

/// Writing new names over old ones leaves the length of the strings, what stands behind
/// the names, and what stands at a name: the new name and zeros, or, where the name
/// stays, what stood there.
proof fn lemma_renamed_at(
    b: Seq<u8>,
    entries: Seq<Dyn>,
    names: Seq<u8>,
    replacements: Seq<(Seq<char>, Seq<char>)>,
    added: Seq<Seq<char>>,
    i: int,
    j: int,
)
    requires
        0 <= i,
        0 <= j < entries.len(),
        entries[j].d_tag == DT_NEEDED,
        names_separate(entries, names),
        names.len() <= b.len(),
    ensures
        ({
            let out = renamed_strings(b, entries, names, replacements, added, i);
            let d = entries[j];
            let at = d.d_val as int;
            let len = edits::name_bytes(d, names).len() as int;
            let moved = edits::renamed_in_place(d, names, replacements, added);
            let new = edits::padded_name(d, names, replacements);
            &&& out.len() == b.len()
            &&& out.skip(names.len() as int) == b.skip(names.len() as int)
            &&& out[at + len] == b[at + len]
            &&& !moved ==> out.subrange(at, at + len) == b.subrange(at, at + len)
            &&& moved && (i <= j || b.subrange(at, at + len) == new) ==> out.subrange(
                at,
                at + len,
            ) == new
        }),
    decreases entries.len() - i,
{
    let d = entries[j];
    let at = d.d_val as int;
    let len = edits::name_bytes(d, names).len() as int;
    assert(linking::name_ends(d, names));
    if i < entries.len() {
        let e = entries[i];
        if edits::renamed_in_place(e, names, replacements, added) {
            let part = edits::padded_name(e, names, replacements);
            let next = edits::overlaid(b, e.d_val as int, part);
            assert(e.d_tag == DT_NEEDED);
            assert(linking::name_ends(e, names));
            assert(names_apart(d, e, names));
            lemma_renamed_at(next, entries, names, replacements, added, i + 1, j);
            assert(next[at + len] == b[at + len]);
            assert(next.skip(names.len() as int) =~= b.skip(names.len() as int));
            if e.d_val == d.d_val {
                assert(next.subrange(at, at + len) =~= part);
            } else {
                assert(next.subrange(at, at + len) =~= b.subrange(at, at + len));
            }
        } else {
            lemma_renamed_at(b, entries, names, replacements, added, i + 1, j);
        }
    }
}

/// A name and zeros in the place of another are read as the name.
proof fn lemma_padded_string(b: Seq<u8>, at: int, len: int, new: Seq<char>)
    requires
        0 <= at,
        encode_utf8(new).len() <= len,
        at + len < b.len(),
        b[at + len] == 0,
        b.subrange(at, at + len) == edits::resized(encode_utf8(new), len),
        !encode_utf8(new).contains(0),
    ensures
        text::string_at(b, at) == new,
{
    let bytes = encode_utf8(new);
    let part = edits::resized(bytes, len);
    let front = b.subrange(0, at);
    let rest = b.subrange(at + len + 1, b.len() as int);
    let after = if bytes.len() < len {
        Seq::new((len - bytes.len() - 1) as nat, |q: int| 0u8) + (seq![0u8] + rest)
    } else {
        rest
    };
    text::lemma_string_written(front, new, after);
    assert(b =~= front + (bytes.push(0) + after)) by {
        assert forall|q: int| 0 <= q < b.len() implies b[q] == (front + (bytes.push(0) + after))[q]
            by {
            if at <= q < at + len {
                assert(b[q] == b.subrange(at, at + len)[q - at]);
            }
        }
    }
}

/// The new entries name the new libraries.
proof fn lemma_renamed_libraries(
    entries: Seq<Dyn>,
    names: Seq<u8>,
    replacements: Seq<(Seq<char>, Seq<char>)>,
    n: int,
)
    requires
        0 <= n <= entries.len(),
        names_separate(entries, names),
        forall|i: int|
            0 <= i < replacements.len() ==> !encode_utf8((#[trigger] replacements[i]).1).contains(
                0,
            ),
        ({
            let added = edits::longer_names(entries, names, replacements, entries.len() as int);
            names.len() + edits::c_strings(added, added.len() as int).len() <= u64::MAX
        }),
    ensures
        ({
            let added = edits::longer_names(entries, names, replacements, entries.len() as int);
            let tail = edits::c_strings(added, added.len() as int);
            let out = renamed_strings(names + tail, entries, names, replacements, added, 0);
            state::libraries(renamed_entries(entries, names, replacements), out, n)
                == replaced_names(replacements, state::libraries(entries, names, n))
        }),
    decreases n,
{
    let added = edits::longer_names(entries, names, replacements, entries.len() as int);
    let tail = edits::c_strings(added, added.len() as int);
    let whole = names + tail;
    let out = renamed_strings(whole, entries, names, replacements, added, 0);
    let renamed = renamed_entries(entries, names, replacements);
    let before = state::libraries(entries, names, n - 1);
    let size = names.len() as int;
    if n <= 0 {
        assert(replaced_names(replacements, Seq::empty()) =~= Seq::empty());
    } else {
        lemma_renamed_libraries(entries, names, replacements, n - 1);
        let d = entries[n - 1];
        let e = renamed[n - 1];
        if d.d_tag == DT_NEEDED {
            let v = d.d_val as int;
            let name = text::string_at(names, v);
            let len = edits::name_bytes(d, names).len() as int;
            assert(linking::name_ends(d, names));
            lemma_renamed_at(whole, entries, names, replacements, added, 0, n - 1);
            lemma_new_name(replacements, name, replacements.len() as int);
            lemma_added_names(entries, names, replacements, entries.len() as int);
            assert(replaced_names(replacements, before.push(name)) =~= replaced_names(
                replacements,
                before,
            ).push(replaced_name(replacements, name)));
            match edits::renaming(d, names, replacements) {
                None => {
                    linking::lemma_string_prefix(names, tail, v, v + len);
                    linking::lemma_same_string(whole, out, v, len);
                },
                Some(new) => {
                    let k = lemma_place(added, new, added.len() as int);
                    if edits::place_of(added, 0, new, added.len() as int) is Some {
                        let front = out.take(size);
                        assert(out =~= front + tail) by {
                            assert(out.skip(size) =~= tail);
                            assert(whole.skip(size) =~= tail);
                            assert forall|q: int| size <= q < out.len() implies out[q] == tail[q
                                - size] by {
                                assert(out.skip(size)[q - size] == out[q]);
                                assert(whole.skip(size)[q - size] == whole[q]);
                            }
                        }
                        linking::lemma_c_strings_read(front, added, k);
                    } else {
                        if encode_utf8(new).len() > len {
                            lemma_longer(
                                entries,
                                names,
                                replacements,
                                n - 1,
                                entries.len() as int,
                            );
                            let q = choose|q: int| 0 <= q < added.len() && added[q] == new;
                            assert(added[q] == new);
                            assert(false);
                        }
                        assert(edits::renamed_in_place(d, names, replacements, added));
                        lemma_padded_string(out, v, len, new);
                    }
                },
            }
        } else {
            assert(e.d_tag == d.d_tag);
        }
    }
}

/// The entries after the replacement of libraries.
pub open spec fn renamed_entries(
    entries: Seq<Dyn>,
    names: Seq<u8>,
    replacements: Seq<(Seq<char>, Seq<char>)>,
) -> Seq<Dyn> {
    let added = edits::longer_names(entries, names, replacements, entries.len() as int);
    Seq::new(
        entries.len(),
        |i: int|
            edits::renamed_entry(entries[i], names, replacements, added, names.len() as int),
    )
}

/// The strings after the replacement of libraries.
pub open spec fn replaced_strings(
    entries: Seq<Dyn>,
    names: Seq<u8>,
    replacements: Seq<(Seq<char>, Seq<char>)>,
) -> Seq<u8> {
    let added = edits::longer_names(entries, names, replacements, entries.len() as int);
    let tail = edits::c_strings(added, added.len() as int);
    renamed_strings(names + tail, entries, names, replacements, added, 0)
}

/// What will be written after libraries were replaced.
pub(crate) proof fn lemma_replacing(s: ElfState, replacements: Seq<(Seq<char>, Seq<char>)>)
    requires
        s.replaces_libraries(replacements),
    ensures
        ({
            let step = s.replacing_needed(replacements);
            let a = step->0.state;
            let entries = s.next_entries();
            &&& step->0.error is None
            &&& a.is_linked()
            &&& a == ElfState { contents: a.contents, replaced: a.replaced, changed: true, ..s }
            &&& a.contents.len() == s.contents.len()
            &&& a.replaced.len() > 0
            &&& forall|q: int|
                0 <= q < s.contents.len() && #[trigger] a.contents[q] != s.contents[q]
                    ==> linking::inside(s, s.section(".dynstr"@)->0, q)
            &&& a.next_needed() == replaced_names(replacements, s.next_needed())
            &&& a.next_strings() == replaced_strings(entries, s.next_strings(), replacements)
            &&& a.next_entries() == renamed_entries(entries, s.next_strings(), replacements)
            &&& a.next_entries().len() == entries.len()
            &&& forall|i: int|
                0 <= i < entries.len() ==> (#[trigger] a.next_entries()[i]).d_tag
                    == entries[i].d_tag && (entries[i].d_tag != DT_NEEDED
                    ==> a.next_entries()[i] == entries[i])
        }),
{
    let strings = s.section(".dynstr"@)->0;
    let entries = s.next_entries();
    let names = s.next_strings();
    let added = edits::longer_names(entries, names, replacements, entries.len() as int);
    let tail = edits::c_strings(added, added.len() as int);
    let extended = if added.len() > 0 {
        s.with_strings(strings, tail)
    } else {
        s
    };
    let a = s.replacing_needed(replacements)->0.state;
    let renamed = renamed_entries(entries, names, replacements);
    let bytes = state::dyns_bytes(renamed, s.ctx);
    linking::lemma_names_differ();
    linking::lemma_with_section(s, ".dynstr"@, names + tail);
    if added.len() == 0 {
        assert(names + tail =~= names);
    }
    assert(extended.section(".dynstr"@) == s.section(".dynstr"@));
    assert(extended.next_strings() == names + tail);
    lemma_renamed_from(extended, entries, names, replacements, added, 0);
    let w = extended.renamed_from(strings, entries, names, replacements, added, 0)->0;
    linking::lemma_with_section(w, ".dynamic"@, bytes);
    assert(a == w.with_dyns(renamed).marked());
    assert(a.section(".dynstr"@) == s.section(".dynstr"@));
    assert(a.section(".dynamic"@) == s.section(".dynamic"@));
    linking::lemma_entries_wait(a, bytes);
    assert(a.next_strings() == w.next_strings());
    roundtrip::lemma_dyns_from_shape(s.next_dyn_data(), s.ctx, 0);
    assert forall|i: int| 0 <= i < renamed.len() implies roundtrip::dyn_fits(
        #[trigger] renamed[i],
        s.ctx,
    ) && renamed[i].d_tag == entries[i].d_tag && (entries[i].d_tag != DT_NEEDED ==> renamed[i]
        == entries[i]) by {
        let d = entries[i];
        assert(roundtrip::dyn_fits(d, s.ctx));
        if let Some(name) = edits::renaming(d, names, replacements) {
            let k = lemma_place(added, name, added.len() as int);
            if edits::place_of(added, 0, name, added.len() as int) is Some {
                lemma_added_names(entries, names, replacements, entries.len() as int);
                linking::lemma_c_strings_read(names, added, k);
            }
        }
    }
    assert forall|i: int| 0 <= i < renamed.len() - 1 implies (#[trigger] renamed[i]).d_tag
        != DT_NULL by {
        assert(entries[i].d_tag != DT_NULL);
    }
    roundtrip::lemma_dyns_roundtrip(renamed, s.ctx);
    lemma_renamed_libraries(entries, names, replacements, entries.len() as int);
}

/// Libraries that are replaced are needed under their new names, be these longer or not,
/// the others as they were. The entries with other tags stay.
pub proof fn law_replaced_libraries_are_needed(
    s: ElfState,
    replacements: Seq<(Seq<char>, Seq<char>)>,
)
    requires
        s.replaces_libraries(replacements),
    ensures
        ({
            let step = s.replacing_needed(replacements);
            let a = step->0.state;
            let entries = s.next_entries();
            &&& step->0.error is None
            &&& a.is_linked()
            &&& a.next_needed() == replaced_names(replacements, s.next_needed())
            &&& a.next_entries().len() == entries.len()
            &&& forall|i: int|
                0 <= i < entries.len() ==> (#[trigger] a.next_entries()[i]).d_tag
                    == entries[i].d_tag && (entries[i].d_tag != DT_NEEDED
                    ==> a.next_entries()[i] == entries[i])
        }),
{
    lemma_replacing(s, replacements);
}

/// Whether all entries with a tag name strings that have nothing in common with the names
/// of needed libraries.
pub open spec fn paths_beside_names(entries: Seq<Dyn>, strings: Seq<u8>, tag: u64) -> bool {
    &&& forall|i: int|
        0 <= i < entries.len() && (#[trigger] entries[i]).d_tag == tag ==> linking::name_ends(
            entries[i],
            strings,
        )
    &&& forall|i: int, j: int|
        0 <= i < entries.len() && 0 <= j < entries.len() && (#[trigger] entries[i]).d_tag == tag
            && (#[trigger] entries[j]).d_tag == DT_NEEDED ==> reread::apart(
            entries[i].d_val as int,
            entries[i].d_val + edits::name_bytes(entries[i], strings).len() + 1,
            entries[j].d_val as int,
            entries[j].d_val + edits::name_bytes(entries[j], strings).len() + 1,
        )
}

/// Writing new names over old ones leaves what has nothing in common with these.
proof fn lemma_renamed_elsewhere(
    b: Seq<u8>,
    entries: Seq<Dyn>,
    names: Seq<u8>,
    replacements: Seq<(Seq<char>, Seq<char>)>,
    added: Seq<Seq<char>>,
    i: int,
    from: int,
    to: int,
)
    requires
        0 <= i,
        0 <= from <= to <= b.len(),
        forall|j: int|
            0 <= j < entries.len() && (#[trigger] entries[j]).d_tag == DT_NEEDED ==> reread::apart(
                from,
                to,
                entries[j].d_val as int,
                entries[j].d_val + edits::name_bytes(entries[j], names).len() + 1,
            ),
    ensures
        ({
            let out = renamed_strings(b, entries, names, replacements, added, i);
            out.len() == b.len() && out.subrange(from, to) == b.subrange(from, to)
        }),
    decreases entries.len() - i,
{
    if i < entries.len() {
        let e = entries[i];
        if edits::renamed_in_place(e, names, replacements, added) {
            let part = edits::padded_name(e, names, replacements);
            let next = edits::overlaid(b, e.d_val as int, part);
            assert(e.d_tag == DT_NEEDED);
            lemma_renamed_elsewhere(next, entries, names, replacements, added, i + 1, from, to);
            assert(next.subrange(from, to) =~= b.subrange(from, to));
        } else {
            lemma_renamed_elsewhere(b, entries, names, replacements, added, i + 1, from, to);
        }
    }
}

/// The paths under a tag are the same after the replacement of libraries.
proof fn lemma_replaced_paths(
    entries: Seq<Dyn>,
    other: Seq<Dyn>,
    names: Seq<u8>,
    replacements: Seq<(Seq<char>, Seq<char>)>,
    tag: u64,
    i: int,
)
    requires
        0 <= i,
        tag != DT_NEEDED,
        paths_beside_names(entries, names, tag),
        other.len() == entries.len(),
        forall|j: int|
            0 <= j < entries.len() ==> (#[trigger] other[j]).d_tag == entries[j].d_tag && (
            entries[j].d_tag != DT_NEEDED ==> other[j] == entries[j]),
    ensures
        state::paths_from(
            other,
            replaced_strings(entries, names, replacements),
            tag,
            i,
        ) == state::paths_from(entries, names, tag, i),
    decreases entries.len() - i,
{
    if i < entries.len() {
        let d = entries[i];
        lemma_replaced_paths(entries, other, names, replacements, tag, i + 1);
        assert(other[i].d_tag == d.d_tag);
        if d.d_tag == tag {
            let v = d.d_val as int;
            let len = edits::name_bytes(d, names).len() as int;
            let added = edits::longer_names(entries, names, replacements, entries.len() as int);
            let tail = edits::c_strings(added, added.len() as int);
            let whole = names + tail;
            let out = replaced_strings(entries, names, replacements);
            assert(linking::name_ends(d, names));
            lemma_renamed_elsewhere(
                whole,
                entries,
                names,
                replacements,
                added,
                0,
                v,
                v + len + 1,
            );
            assert(out.subrange(v, v + len + 1)[len] == whole.subrange(v, v + len + 1)[len]);
            assert(out.subrange(v, v + len) =~= out.subrange(v, v + len + 1).take(len));
            assert(whole.subrange(v, v + len) =~= whole.subrange(v, v + len + 1).take(len));
            linking::lemma_string_prefix(names, tail, v, v + len);
            linking::lemma_same_string(whole, out, v, len);
        }
    }
}

/// Replacing libraries leaves the search paths that have nothing in common with their
/// names.
pub proof fn law_replaced_libraries_leave_paths(
    s: ElfState,
    replacements: Seq<(Seq<char>, Seq<char>)>,
    tag: u64,
)
    requires
        s.replaces_libraries(replacements),
        tag == DT_RPATH || tag == DT_RUNPATH,
        paths_beside_names(s.next_entries(), s.next_strings(), tag),
    ensures
        s.replacing_needed(replacements)->0.state.next_paths(tag) == s.next_paths(tag),
{
    let a = s.replacing_needed(replacements)->0.state;
    lemma_replacing(s, replacements);
    lemma_replaced_paths(
        s.next_entries(),
        a.next_entries(),
        s.next_strings(),
        replacements,
        tag,
        0,
    );
}

} // verus!
