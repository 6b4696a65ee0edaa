//! What the modifications make of needed libraries, and what they leave.

use crate::edits;
use crate::linking;
use crate::placement;
use crate::roundtrip;
use crate::sections;
use crate::state;
use crate::state::ElfState;
use crate::text;
use crate::types::{
    Ctx, Dyn, ErrorView, SectionHeader, DT_NEEDED, DT_NULL, DT_RPATH, DT_RUNPATH,
};
use vstd::prelude::*;
use vstd::utf8::*;

verus! {

/// Whether libraries can be added to a file: it has strings, and dynamic entries that end
/// in a null entry and are still found when more strings wait.
pub open spec fn takes_libraries(s: ElfState) -> bool {
    &&& s.section(".dynstr"@) is Some
    &&& s.section(".dynamic"@) matches Some(g) && s.dyn_data(g) is Some
    &&& state::tag_from(s.next_entries(), DT_NULL, 0) is Some
    &&& s.is_shared_by(".dynstr"@) ==> sections::lookup(s.replaced, ".dynamic"@) is Some
        || same_place(s.section(".dynstr"@)->0, s.section(".dynamic"@)->0)
}

/// Whether two sections take the same place.
pub open spec fn same_place(h: SectionHeader, g: SectionHeader) -> bool {
    h.sh_offset == g.sh_offset && h.sh_size == g.sh_size
}

/// Whether libraries are added without an error, to strings that entries can point into.
pub open spec fn adds(s: ElfState, libs: Seq<Seq<char>>) -> bool {
    s.adding_needed(libs) matches Some(step) && step.error is None && step.state.strings_fit()
}

/// Whether there are libraries and they can be added.
pub open spec fn adds_libraries(s: ElfState, libs: Seq<Seq<char>>) -> bool {
    &&& takes_libraries(s)
    &&& libs.len() > 0
    &&& adds(s, libs)
}

/// The entries with those for new libraries before the null entry, their names standing
/// from `at` on.
pub open spec fn with_libraries(entries: Seq<Dyn>, libs: Seq<Seq<char>>, at: int) -> Seq<Dyn> {
    let z = state::tag_from(entries, DT_NULL, 0)->0;
    entries.take(z) + edits::needed_entries(libs, at) + entries.skip(z)
}

/// The dynamic entries are the same when more strings wait.
pub(crate) proof fn lemma_more_strings(s: ElfState, tail: Seq<u8>)
    requires
        takes_libraries(s),
    ensures
        ({
            let g = s.section(".dynamic"@)->0;
            let e = s.with_strings(s.section(".dynstr"@)->0, tail);
            &&& e.dyn_data(g) is Some
            &&& e.dyns(g) == s.next_entries()
            &&& state::tag_from(s.next_entries(), DT_NULL, 0) == Some(s.next_entries().len() - 1)
        }),
{
    let h = s.section(".dynstr"@)->0;
    let g = s.section(".dynamic"@)->0;
    let e = s.with_strings(h, tail);
    let entries = s.next_entries();
    linking::lemma_names_differ();
    linking::lemma_with_section(s, ".dynstr"@, s.next_strings() + tail);
    linking::lemma_tag(entries, DT_NULL, 0);
    roundtrip::lemma_dyns_from_shape(s.next_dyn_data(), s.ctx, 0);
    assert(entries.last() == entries[entries.len() - 1]);
    assert(e.owner(g) == s.owner(g));
    if sections::lookup(s.replaced, ".dynamic"@) is None {
        if s.is_shared_by(".dynstr"@) {
            assert(s.next_dyn_data() =~= s.next_strings());
            roundtrip::lemma_dyns_extended(s.next_strings(), tail, s.ctx, 0);
        } else {
            assert(e.pending(g) == s.pending(g));
        }
    }
}

/// What will be written after libraries were added.
pub(crate) proof fn lemma_adding(s: ElfState, libs: Seq<Seq<char>>)
    requires
        adds_libraries(s, libs),
    ensures
        ({
            let a = s.adding_needed(libs)->0.state;
            let entries = s.next_entries();
            let size = s.next_strings().len() as int;
            let tail = edits::c_strings(libs, libs.len() as int);
            let all = with_libraries(entries, libs, size);
            &&& a == ElfState { replaced: a.replaced, changed: true, ..s }
            &&& a.is_linked()
            &&& state::tag_from(entries, DT_NULL, 0) == Some(entries.len() - 1)
            &&& size + tail.len() <= isize::MAX
            &&& (entries.len() + libs.len()) * s.ctx.dyn_len() <= isize::MAX
            &&& s.adding_needed(libs) == edits::done(a)
            &&& a.next_strings() == s.next_strings() + tail
            &&& a.next_dyn_data() == state::dyns_bytes(all, s.ctx)
            &&& a.next_entries() == all
            &&& sections::lookup(a.replaced, ".dynstr"@) is Some
            &&& sections::lookup(a.replaced, ".dynamic"@) is Some
            &&& a.replaced == sections::put(
                sections::put(s.replaced, ".dynstr"@, s.next_strings() + tail),
                ".dynamic"@,
                state::dyns_bytes(all, s.ctx),
            )
        }),
{
    let strings = s.section(".dynstr"@)->0;
    let tail = edits::c_strings(libs, libs.len() as int);
    let extended = s.with_strings(strings, tail);
    let a = s.adding_needed(libs)->0.state;
    let size = s.next_strings().len() as int;
    let entries = s.next_entries();
    let all = with_libraries(entries, libs, size);
    let bytes = state::dyns_bytes(all, s.ctx);
    linking::lemma_names_differ();
    linking::lemma_with_section(s, ".dynstr"@, s.next_strings() + tail);
    linking::lemma_with_section(extended, ".dynamic"@, bytes);
    lemma_more_strings(s, tail);
    linking::lemma_tag(entries, DT_NULL, 0);
    roundtrip::lemma_dyns_from_shape(s.next_dyn_data(), s.ctx, 0);
    let z = entries.len() - 1;
    assert(a == extended.with_dyns(all).marked());
    assert(a.section(".dynstr"@) == s.section(".dynstr"@));
    assert(a.section(".dynamic"@) == s.section(".dynamic"@));
    linking::lemma_entries_wait(a, bytes);
    assert(a.next_strings() == s.next_strings() + tail);
    assert forall|i: int| 0 <= i < all.len() implies roundtrip::dyn_fits(
        #[trigger] all[i],
        s.ctx,
    ) && (i < all.len() - 1 ==> all[i].d_tag != DT_NULL) by {
        if i < z {
            assert(all[i] == entries[i]);
        } else if i < z + libs.len() {
            assert(all[i] == edits::needed_entries(libs, size)[i - z]);
            let rest = linking::lemma_c_strings_split(libs, i - z, libs.len() as int);
        } else {
            assert(all[i] == entries[z]);
        }
    }
    roundtrip::lemma_dyns_roundtrip(all, s.ctx);
}

/// After libraries were added, those that were needed before and the new ones are
/// needed, in this order. Their entries stand before the null entry, behind the others.
pub proof fn law_added_libraries_are_needed(s: ElfState, libs: Seq<Seq<char>>)
    requires
        adds_libraries(s, libs),
        forall|i: int| 0 <= i < libs.len() ==> !encode_utf8(#[trigger] libs[i]).contains(0),
        linking::strings_sound(s.next_entries(), s.next_strings()),
    ensures
        ({
            let a = s.adding_needed(libs)->0.state;
            let size = s.next_strings().len() as int;
            &&& a.is_linked()
            &&& sections::lookup(a.replaced, ".dynstr"@) is Some
            &&& sections::lookup(a.replaced, ".dynamic"@) is Some
            &&& a.next_needed() == s.next_needed() + libs
            &&& a.next_entries() == s.next_entries().drop_last() + edits::needed_entries(
                libs,
                size,
            ) + seq![s.next_entries().last()]
            &&& s.next_entries().last().d_tag == DT_NULL
        }),
{
    let a = s.adding_needed(libs)->0.state;
    let entries = s.next_entries();
    let names = s.next_strings();
    let size = names.len() as int;
    let tail = edits::c_strings(libs, libs.len() as int);
    let z = entries.len() - 1;
    let all = with_libraries(entries, libs, size);
    lemma_adding(s, libs);
    linking::lemma_tag(entries, DT_NULL, 0);
    linking::lemma_libraries_extended(entries, all, names, tail, z);
    assert forall|i: int| z <= i < z + libs.len() implies (#[trigger] all[i])
        == edits::needed_entries(libs, size)[i - z] by {}
    lemma_new_libraries(all, names, libs, z, size, libs.len() as int);
    assert(libs.take(libs.len() as int) =~= libs);
    assert(all[all.len() - 1] == entries[z]);
    assert(all =~= entries.drop_last() + edits::needed_entries(libs, size) + seq![
        entries.last(),
    ]);
}

/// Adding libraries and then others is adding all of them.
pub proof fn law_adding_twice_is_adding_all(
    s: ElfState,
    libs: Seq<Seq<char>>,
    more: Seq<Seq<char>>,
)
    requires
        takes_libraries(s),
        adds(s, libs),
        adds(s.adding_needed(libs)->0.state, more),
    ensures
        s.adding_needed(libs + more) == s.adding_needed(libs)->0.state.adding_needed(more),
{
    if libs.len() == 0 {
        assert(libs + more =~= more);
    } else if more.len() == 0 {
        assert(libs + more =~= libs);
        lemma_adding(s, libs);
    } else {
        lemma_adding_twice(s, libs, more);
    }
}

proof fn lemma_adding_twice(s: ElfState, libs: Seq<Seq<char>>, more: Seq<Seq<char>>)
    requires
        adds_libraries(s, libs),
        adds(s.adding_needed(libs)->0.state, more),
        more.len() > 0,
    ensures
        s.adding_needed(libs + more) == s.adding_needed(libs)->0.state.adding_needed(more),
{
    let a = s.adding_needed(libs)->0.state;
    let b = a.adding_needed(more)->0.state;
    let both = libs + more;
    let names = s.next_strings();
    let size = names.len() as int;
    let entries = s.next_entries();
    let z = entries.len() - 1;
    lemma_adding(s, libs);
    linking::lemma_tag(entries, DT_NULL, 0);
    linking::lemma_tag(a.next_entries(), DT_NULL, 0);
    assert(a.next_entries()[a.next_entries().len() - 1] == entries[z]);
    lemma_adding(a, more);
    let first = edits::c_strings(libs, libs.len() as int);
    let second = edits::c_strings(more, more.len() as int);
    let tail = edits::c_strings(both, both.len() as int);
    lemma_c_strings_joined(libs, more, more.len() as int);
    assert(tail == first + second);
    assert(names + first + second =~= names + tail);
    let all = with_libraries(a.next_entries(), more, size + first.len());
    let together = with_libraries(entries, both, size);
    assert(all =~= together) by {
        assert forall|i: int| 0 <= i < both.len() implies (#[trigger] edits::needed_entries(
            both,
            size,
        )[i]) == (if i < libs.len() {
            edits::needed_entries(libs, size)[i]
        } else {
            edits::needed_entries(more, size + first.len())[i - libs.len()]
        }) by {
            if i < libs.len() {
                lemma_c_strings_prefix(libs, more, i);
            } else {
                lemma_c_strings_joined(libs, more, i - libs.len());
            }
        }
    }
    let strings = s.section(".dynstr"@)->0;
    let extended = s.with_strings(strings, tail);
    linking::lemma_names_differ();
    lemma_more_strings(s, tail);
    assert(all.len() == entries.len() + both.len());
    let before = state::dyns_bytes(with_libraries(entries, libs, size), s.ctx);
    let bytes = state::dyns_bytes(all, s.ctx);
    let x = sections::put(s.replaced, ".dynstr"@, names + first);
    placement::lemma_put_other(x, ".dynamic"@, before, ".dynstr"@, names + first + second);
    placement::lemma_put_again(s.replaced, ".dynstr"@, names + first, names + first + second);
    placement::lemma_put_again(
        sections::put(s.replaced, ".dynstr"@, names + tail),
        ".dynamic"@,
        before,
        bytes,
    );
    assert(a.ctx == s.ctx);
    assert(a.next_entries().len() + more.len() == entries.len() + both.len());
    let c = extended.with_dyns(together).marked();
    assert(s.adding_needed(both) == edits::done(c));
    assert(c.replaced == b.replaced);
    assert(c =~= b);
}

/// Texts behind others stand behind these.
proof fn lemma_c_strings_joined(libs: Seq<Seq<char>>, more: Seq<Seq<char>>, n: int)
    requires
        0 <= n <= more.len(),
    ensures
        edits::c_strings(libs + more, libs.len() + n) == edits::c_strings(libs, libs.len() as int)
            + edits::c_strings(more, n),
    decreases n,
{
    if n == 0 {
        lemma_c_strings_prefix(libs, more, libs.len() as int);
        assert(edits::c_strings(libs, libs.len() as int) + Seq::<u8>::empty() =~= edits::c_strings(
            libs,
            libs.len() as int,
        ));
    } else {
        lemma_c_strings_joined(libs, more, n - 1);
        assert((libs + more)[libs.len() + n - 1] == more[n - 1]);
        assert(edits::c_strings(libs, libs.len() as int) + edits::c_strings(more, n)
            =~= edits::c_strings(libs, libs.len() as int) + edits::c_strings(more, n - 1)
            + edits::c_string(more[n - 1]));
    }
}

/// The first texts do not depend on those behind them.
proof fn lemma_c_strings_prefix(libs: Seq<Seq<char>>, more: Seq<Seq<char>>, n: int)
    requires
        0 <= n <= libs.len(),
    ensures
        edits::c_strings(libs + more, n) == edits::c_strings(libs, n),
    decreases n,
{
    if n > 0 {
        lemma_c_strings_prefix(libs, more, n - 1);
        assert((libs + more)[n - 1] == libs[n - 1]);
    }
}

/// The entries for new libraries name these.
proof fn lemma_new_libraries(
    all: Seq<Dyn>,
    body: Seq<u8>,
    libs: Seq<Seq<char>>,
    z: int,
    size: int,
    n: int,
)
    requires
        0 <= z,
        0 <= n <= libs.len(),
        z + libs.len() <= all.len(),
        size == body.len(),
        size + edits::c_strings(libs, libs.len() as int).len() <= u64::MAX,
        forall|i: int|
            z <= i < z + libs.len() ==> (#[trigger] all[i]) == edits::needed_entries(libs, size)[i
                - z],
        forall|i: int| 0 <= i < libs.len() ==> !encode_utf8(#[trigger] libs[i]).contains(0),
    ensures
        state::libraries(all, body + edits::c_strings(libs, libs.len() as int), z + n)
            == state::libraries(all, body + edits::c_strings(libs, libs.len() as int), z)
            + libs.take(n),
    decreases n,
{
    let tail = edits::c_strings(libs, libs.len() as int);
    let before = state::libraries(all, body + tail, z);
    if n == 0 {
        assert(before + libs.take(0) =~= before);
    } else {
        lemma_new_libraries(all, body, libs, z, size, n - 1);
        let d = all[z + n - 1];
        assert(d == edits::needed_entries(libs, size)[n - 1]);
        linking::lemma_c_strings_read(body, libs, n - 1);
        assert(before + libs.take(n) =~= (before + libs.take(n - 1)).push(libs[n - 1]));
    }
}

/// The libraries but those that are to be removed.
pub open spec fn remaining(names: Seq<Seq<char>>, libs: Seq<Seq<char>>) -> Seq<Seq<char>> {
    names.filter(|name: Seq<char>| !libs.contains(name))
}

/// The entries without libraries name the remaining ones, fit in the class and end as
/// before.
proof fn lemma_without_libraries(
    entries: Seq<Dyn>,
    strings: Seq<u8>,
    libs: Seq<Seq<char>>,
    ctx: Ctx,
    n: int,
)
    requires
        0 <= n <= entries.len(),
        forall|i: int| 0 <= i < entries.len() ==> roundtrip::dyn_fits(#[trigger] entries[i], ctx),
        forall|i: int| 0 <= i < entries.len() - 1 ==> (#[trigger] entries[i]).d_tag != DT_NULL,
    ensures
        ({
            let kept = edits::without_libraries(entries, strings, libs, n);
            &&& state::libraries(kept, strings, kept.len() as int) == remaining(
                state::libraries(entries, strings, n),
                libs,
            )
            &&& forall|i: int| 0 <= i < kept.len() ==> roundtrip::dyn_fits(#[trigger] kept[i], ctx)
            &&& forall|i: int| 0 <= i < kept.len() - 1 ==> (#[trigger] kept[i]).d_tag != DT_NULL
            &&& n < entries.len() ==> forall|i: int|
                0 <= i < kept.len() ==> (#[trigger] kept[i]).d_tag != DT_NULL
        }),
    decreases n,
{
    let kept = edits::without_libraries(entries, strings, libs, n);
    if n <= 0 {
        assert(remaining(Seq::empty(), libs) =~= Seq::empty()) by {
            reveal(Seq::filter);
        }
    } else {
        lemma_without_libraries(entries, strings, libs, ctx, n - 1);
        let before = edits::without_libraries(entries, strings, libs, n - 1);
        let named = state::libraries(entries, strings, n - 1);
        let d = entries[n - 1];
        let name = text::string_at(strings, d.d_val as int);
        if state::names_library(d, strings) {
            assert(named.push(name).drop_last() =~= named);
            assert(remaining(named.push(name), libs) == (if libs.contains(name) {
                remaining(named, libs)
            } else {
                remaining(named, libs).push(name)
            })) by {
                reveal(Seq::filter);
            }
        }
        if kept.len() == before.len() + 1 {
            lemma_libraries_prefix(kept, before, strings, before.len() as int);
        }
    }
}

/// The libraries named by the first entries are those that they name by themselves.
proof fn lemma_libraries_prefix(all: Seq<Dyn>, front: Seq<Dyn>, strings: Seq<u8>, n: int)
    requires
        0 <= n <= front.len() <= all.len(),
        forall|i: int| 0 <= i < n ==> (#[trigger] all[i]) == front[i],
    ensures
        state::libraries(all, strings, n) == state::libraries(front, strings, n),
    decreases n,
{
    if n > 0 {
        lemma_libraries_prefix(all, front, strings, n - 1);
        assert(all[n - 1] == front[n - 1]);
    }
}

/// What will be written after libraries were removed.
pub(crate) proof fn lemma_removing(s: ElfState, libs: Seq<Seq<char>>)
    requires
        s.has_linking(),
        libs.len() > 0,
    ensures
        ({
            let step = s.removing_needed(libs);
            let a = step->0.state;
            let entries = s.next_entries();
            let left = edits::without_libraries(
                entries,
                s.next_strings(),
                libs,
                entries.len() as int,
            );
            &&& step is Some
            &&& step->0.error is None
            &&& a == ElfState { replaced: a.replaced, changed: true, ..s }
            &&& a.is_linked()
            &&& a.next_strings() == s.next_strings()
            &&& sections::lookup(a.replaced, ".dynstr"@) == sections::lookup(
                s.replaced,
                ".dynstr"@,
            )
            &&& sections::lookup(a.replaced, ".dynamic"@) == Some(a.next_dyn_data())
            &&& a.next_dyn_data() == edits::resized(
                state::dyns_bytes(left, s.ctx),
                s.next_dyn_data().len() as int,
            )
            &&& a.next_entries() == left || a.next_entries() == left.push(
                Dyn { d_tag: DT_NULL, d_val: 0 },
            )
            &&& state::tag_from(entries, DT_NULL, 0) is Some ==> a.next_entries() == left
        }),
{
    let a = s.removing_needed(libs)->0.state;
    let entries = s.next_entries();
    let n = entries.len() as int;
    let names = s.next_strings();
    let left = edits::without_libraries(entries, names, libs, n);
    let data = s.next_dyn_data();
    let size = s.ctx.dyn_len();
    let content = edits::resized(state::dyns_bytes(left, s.ctx), data.len() as int);
    linking::lemma_names_differ();
    linking::lemma_with_section(s, ".dynamic"@, content);
    assert(a.section(".dynstr"@) == s.section(".dynstr"@));
    assert(a.section(".dynamic"@) == s.section(".dynamic"@));
    linking::lemma_entries_wait(a, content);
    roundtrip::lemma_dyns_from_shape(data, s.ctx, 0);
    lemma_without_libraries(entries, names, libs, s.ctx, n);
    lemma_fewer(entries, names, libs, n);
    assert(left.len() * size <= n * size) by (nonlinear_arith)
        requires
            left.len() <= n,
            size >= 0,
    ;
    roundtrip::lemma_dyns_padded(left, s.ctx, data.len() as int);
    linking::lemma_tag(entries, DT_NULL, 0);
    if state::tag_from(entries, DT_NULL, 0) is Some {
        let before = edits::without_libraries(entries, names, libs, n - 1);
        assert(left == before.push(entries[n - 1]));
        assert(left.last().d_tag == DT_NULL);
        if a.next_entries() != left {
            roundtrip::lemma_dyns_from_shape(content, s.ctx, 0);
            assert(a.next_entries()[left.len() - 1] == left.last());
        }
    }
}

proof fn lemma_fewer(entries: Seq<Dyn>, strings: Seq<u8>, libs: Seq<Seq<char>>, n: int)
    requires
        0 <= n <= entries.len(),
    ensures
        edits::without_libraries(entries, strings, libs, n).len() <= n,
    decreases n,
{
    if n > 0 {
        lemma_fewer(entries, strings, libs, n - 1);
    }
}

/// After libraries were removed, those that were needed before and were not removed are
/// needed, in their order.
pub proof fn law_removed_libraries_are_not_needed(s: ElfState, libs: Seq<Seq<char>>)
    requires
        s.has_linking(),
        libs.len() > 0,
    ensures
        s.removing_needed(libs) is Some,
        s.removing_needed(libs)->0.error is None,
        s.removing_needed(libs)->0.state.is_linked(),
        s.removing_needed(libs)->0.state.next_needed() == remaining(s.next_needed(), libs),
{
    let a = s.removing_needed(libs)->0.state;
    let entries = s.next_entries();
    let n = entries.len() as int;
    let names = s.next_strings();
    let left = edits::without_libraries(entries, names, libs, n);
    lemma_removing(s, libs);
    roundtrip::lemma_dyns_from_shape(s.next_dyn_data(), s.ctx, 0);
    lemma_without_libraries(entries, names, libs, s.ctx, n);
    let null = Dyn { d_tag: DT_NULL, d_val: 0 };
    lemma_libraries_prefix(left.push(null), left, names, left.len() as int);
}

/// Right after libraries were removed from a file with no strings that wait, they are
/// no longer listed, and the others are as before. No other entry is lost or changed, and
/// neither are the bytes and the headers of the file. Where there was no null entry one may
/// follow the entries that are left.
pub proof fn law_removed_libraries_are_not_listed(s: ElfState, libs: Seq<Seq<char>>)
    requires
        s.has_linking(),
        sections::lookup(s.replaced, ".dynstr"@) is None,
        libs.len() > 0,
    ensures
        ({
            let a = s.removing_needed(libs)->0.state;
            let entries = s.next_entries();
            let left = edits::without_libraries(
                entries,
                s.next_strings(),
                libs,
                entries.len() as int,
            );
            &&& s.needed() is Ok
            &&& s.removing_needed(libs) is Some
            &&& s.removing_needed(libs)->0.error is None
            &&& a == ElfState { replaced: a.replaced, changed: true, ..s }
            &&& a.readable()
            &&& a.needed() == Ok::<Seq<Seq<char>>, ErrorView>(remaining(s.needed()->Ok_0, libs))
            &&& a.next_entries() == left || a.next_entries() == left.push(
                Dyn { d_tag: DT_NULL, d_val: 0 },
            )
            &&& state::tag_from(entries, DT_NULL, 0) is Some ==> a.next_entries() == left
        }),
{
    lemma_removing(s, libs);
    law_removed_libraries_are_not_needed(s, libs);
    linking::lemma_nothing_waits(s, DT_RPATH);
    linking::lemma_nothing_waits(s.removing_needed(libs)->0.state, DT_RPATH);
}

/// Removing libraries leaves the size of the dynamic entries, which is that of their
/// section where nothing waited for its place.
pub proof fn law_removing_keeps_the_size(s: ElfState, libs: Seq<Seq<char>>)
    requires
        s.has_linking(),
        libs.len() > 0,
    ensures
        ({
            let g = s.section(".dynamic"@)->0;
            let a = s.removing_needed(libs)->0.state;
            &&& sections::lookup(a.replaced, ".dynamic"@) matches Some(content) && content.len()
                == s.next_dyn_data().len()
            &&& sections::lookup(s.replaced, ".dynamic"@) is None && s.pending(g) is None
                ==> s.next_dyn_data().len() == g.sh_size
        }),
{
    let g = s.section(".dynamic"@)->0;
    lemma_removing(s, libs);
    if s.in_file(g) {
        assert(s.body(g).len() == g.sh_size);
    }
}

/// Setting the interpreter leaves the needed libraries and the search paths, where it is
/// not taken to be at the place of the dynamic entries.
pub proof fn law_interpreter_leaves_linking(s: ElfState, path: Seq<char>, tag: u64)
    requires
        s.has_linking(),
        s.is_shared_by(".interp"@) ==> sections::lookup(s.replaced, ".dynamic"@) is Some,
    ensures
        s.setting_interpreter(path).state.has_linking(),
        s.is_linked() ==> s.setting_interpreter(path).state.is_linked(),
        s.setting_interpreter(path).state.next_needed() == s.next_needed(),
        s.setting_interpreter(path).state.next_paths(tag) == s.next_paths(tag),
{
    let a = s.setting_interpreter(path).state;
    reveal_strlit(".interp");
    reveal_strlit(".dynstr");
    reveal_strlit(".dynamic");
    assert(".interp"@[1] != ".dynstr"@[1]);
    assert(".interp"@[1] != ".dynamic"@[1]);
    linking::lemma_with_section(s, ".interp"@, edits::c_string(path));
    let g = s.section(".dynamic"@)->0;
    assert(a.section(".dynstr"@) == s.section(".dynstr"@));
    assert(a.section(".dynamic"@) == s.section(".dynamic"@));
    assert(a.owner(g) == s.owner(g));
    assert(a.dyn_data(g) == s.dyn_data(g));
}

/// Whether all entries with a tag point into the strings, which end in a zero byte.
pub open spec fn paths_sound(entries: Seq<Dyn>, strings: Seq<u8>, tag: u64) -> bool {
    &&& strings.len() > 0 ==> strings.last() == 0
    &&& forall|i: int|
        0 <= i < entries.len() && (#[trigger] entries[i]).d_tag == tag ==> entries[i].d_val
            < strings.len()
}

/// The paths under a tag are the same where entries with other tags were put in and
/// other strings follow.
proof fn lemma_paths_extended(
    entries: Seq<Dyn>,
    all: Seq<Dyn>,
    strings: Seq<u8>,
    tail: Seq<u8>,
    tag: u64,
    z: int,
    count: int,
    i: int,
)
    requires
        0 <= i <= entries.len(),
        0 <= z <= entries.len(),
        0 <= count,
        all.len() == entries.len() + count,
        forall|j: int| 0 <= j < z ==> (#[trigger] all[j]) == entries[j],
        forall|j: int| z <= j < z + count ==> (#[trigger] all[j]).d_tag != tag,
        forall|j: int| z + count <= j < all.len() ==> (#[trigger] all[j]) == entries[j - count],
        paths_sound(entries, strings, tag),
    ensures
        state::paths_from(
            all,
            strings + tail,
            tag,
            if i < z {
                i
            } else {
                i + count
            },
        ) == state::paths_from(entries, strings, tag, i),
        i == z ==> state::paths_from(all, strings + tail, tag, z) == state::paths_from(
            entries,
            strings,
            tag,
            z,
        ),
    decreases entries.len() - i,
{
    if i < entries.len() {
        let at = if i < z {
            i
        } else {
            i + count
        };
        assert(all[at] == entries[i]);
        lemma_paths_extended(entries, all, strings, tail, tag, z, count, i + 1);
        if entries[i].d_tag == tag {
            text::lemma_string_extended(strings, tail, entries[i].d_val as int);
        }
    }
    if i == z {
        lemma_paths_skip(all, strings + tail, tag, z, z + count);
    }
}

/// Entries without the tag do not matter.
proof fn lemma_paths_skip(all: Seq<Dyn>, strings: Seq<u8>, tag: u64, from: int, to: int)
    requires
        0 <= from <= to <= all.len(),
        forall|j: int| from <= j < to ==> (#[trigger] all[j]).d_tag != tag,
    ensures
        state::paths_from(all, strings, tag, from) == state::paths_from(all, strings, tag, to),
    decreases to - from,
{
    if from < to {
        lemma_paths_skip(all, strings, tag, from + 1, to);
    }
}

/// Entries that name libraries do not matter to search paths.
proof fn lemma_paths_without_libraries(
    entries: Seq<Dyn>,
    strings: Seq<u8>,
    libs: Seq<Seq<char>>,
    tag: u64,
    n: int,
)
    requires
        0 <= n <= entries.len(),
        tag != DT_NEEDED,
    ensures
        state::paths_from(
            edits::without_libraries(entries, strings, libs, n),
            strings,
            tag,
            0,
        ) == state::paths_from(entries.take(n), strings, tag, 0),
    decreases n,
{
    let kept = edits::without_libraries(entries, strings, libs, n);
    if n <= 0 {
        assert(entries.take(0) =~= Seq::empty());
    } else {
        let before = edits::without_libraries(entries, strings, libs, n - 1);
        let d = entries[n - 1];
        lemma_paths_without_libraries(entries, strings, libs, tag, n - 1);
        assert(entries.take(n) =~= entries.take(n - 1).push(d));
        lemma_paths_push(entries.take(n - 1), d, strings, tag, 0);
        lemma_paths_push(before, d, strings, tag, 0);
        lemma_paths_found(before, strings, tag, 0);
        lemma_paths_found(entries.take(n - 1), strings, tag, 0);
        lemma_kept_paths(entries, strings, libs, tag, n - 1);
    }
}

/// Whether an entry from the `i`-th on names paths under a tag.
spec fn has_paths(entries: Seq<Dyn>, strings: Seq<u8>, tag: u64, i: int) -> bool {
    exists|j: int|
        i <= j < entries.len() && (#[trigger] entries[j]).d_tag == tag && entries[j].d_val
            < strings.len()
}

/// Where no entry names paths there are none.
proof fn lemma_paths_found(entries: Seq<Dyn>, strings: Seq<u8>, tag: u64, i: int)
    requires
        0 <= i,
    ensures
        !has_paths(entries, strings, tag, i) ==> state::paths_from(entries, strings, tag, i).len()
            == 0,
    decreases entries.len() - i,
{
    if i < entries.len() {
        lemma_paths_found(entries, strings, tag, i + 1);
        if !has_paths(entries, strings, tag, i) {
            assert(!has_paths(entries, strings, tag, i + 1));
            assert(!(entries[i].d_tag == tag && entries[i].d_val < strings.len()));
        }
    }
}

/// An entry behind all others matters where none of them names paths.
proof fn lemma_paths_push(entries: Seq<Dyn>, d: Dyn, strings: Seq<u8>, tag: u64, i: int)
    requires
        0 <= i <= entries.len(),
    ensures
        state::paths_from(entries.push(d), strings, tag, i) == (if has_paths(
            entries,
            strings,
            tag,
            i,
        ) {
            state::paths_from(entries, strings, tag, i)
        } else if d.d_tag == tag && d.d_val < strings.len() {
            text::split(text::string_at(strings, d.d_val as int), ':')
        } else {
            Seq::empty()
        }),
    decreases entries.len() - i,
{
    let all = entries.push(d);
    if i == entries.len() {
        assert(!has_paths(entries, strings, tag, i));
        assert(all[i] == d);
        assert(state::paths_from(all, strings, tag, i + 1) =~= Seq::empty());
    } else {
        assert(all[i] == entries[i]);
        lemma_paths_push(entries, d, strings, tag, i + 1);
        if entries[i].d_tag == tag && entries[i].d_val < strings.len() {
            assert(has_paths(entries, strings, tag, i));
        } else {
            assert(has_paths(entries, strings, tag, i) == has_paths(
                entries,
                strings,
                tag,
                i + 1,
            )) by {
                if has_paths(entries, strings, tag, i) {
                    let j = choose|j: int|
                        i <= j < entries.len() && (#[trigger] entries[j]).d_tag == tag
                            && entries[j].d_val < strings.len();
                    assert(j != i);
                    assert(entries[j].d_tag == tag);
                }
            }
        }
    }
}

/// Entries without libraries name paths where the entries do.
proof fn lemma_kept_paths(
    entries: Seq<Dyn>,
    strings: Seq<u8>,
    libs: Seq<Seq<char>>,
    tag: u64,
    n: int,
)
    requires
        0 <= n <= entries.len(),
        tag != DT_NEEDED,
    ensures
        has_paths(edits::without_libraries(entries, strings, libs, n), strings, tag, 0)
            == has_paths(entries.take(n), strings, tag, 0),
    decreases n,
{
    let kept = edits::without_libraries(entries, strings, libs, n);
    if n > 0 {
        lemma_kept_paths(entries, strings, libs, tag, n - 1);
        let before = edits::without_libraries(entries, strings, libs, n - 1);
        let d = entries[n - 1];
        let front = entries.take(n - 1);
        assert(entries.take(n) =~= front.push(d));
        lemma_has_paths_push(front, d, strings, tag);
        lemma_has_paths_push(before, d, strings, tag);
    }
}

/// One entry more names paths where it does or the others do.
proof fn lemma_has_paths_push(entries: Seq<Dyn>, d: Dyn, strings: Seq<u8>, tag: u64)
    ensures
        has_paths(entries.push(d), strings, tag, 0) == (has_paths(entries, strings, tag, 0) || (
        d.d_tag == tag && d.d_val < strings.len())),
{
    let all = entries.push(d);
    if has_paths(entries, strings, tag, 0) {
        let j = choose|j: int|
            0 <= j < entries.len() && (#[trigger] entries[j]).d_tag == tag && entries[j].d_val
                < strings.len();
        assert(all[j] == entries[j]);
    }
    if d.d_tag == tag && d.d_val < strings.len() {
        assert(all[entries.len() as int] == d);
    }
    if has_paths(all, strings, tag, 0) {
        let j = choose|j: int|
            0 <= j < all.len() && (#[trigger] all[j]).d_tag == tag && all[j].d_val
                < strings.len();
        if j < entries.len() {
            assert(all[j] == entries[j]);
        }
    }
}

/// Adding libraries leaves the search paths.
pub proof fn law_added_libraries_leave_paths(s: ElfState, libs: Seq<Seq<char>>, tag: u64)
    requires
        adds_libraries(s, libs),
        tag == DT_RPATH || tag == DT_RUNPATH,
        paths_sound(s.next_entries(), s.next_strings(), tag),
    ensures
        s.adding_needed(libs)->0.state.next_paths(tag) == s.next_paths(tag),
{
    let entries = s.next_entries();
    let names = s.next_strings();
    let size = names.len() as int;
    let tail = edits::c_strings(libs, libs.len() as int);
    let z = entries.len() - 1;
    let all = with_libraries(entries, libs, size);
    lemma_adding(s, libs);
    linking::lemma_tag(entries, DT_NULL, 0);
    assert forall|j: int| z <= j < z + libs.len() implies (#[trigger] all[j]).d_tag != tag by {
        assert(all[j] == edits::needed_entries(libs, size)[j - z]);
    }
    lemma_paths_extended(entries, all, names, tail, tag, z, libs.len() as int, 0);
}

/// Removing libraries leaves the search paths.
pub proof fn law_removed_libraries_leave_paths(s: ElfState, libs: Seq<Seq<char>>, tag: u64)
    requires
        s.has_linking(),
        tag == DT_RPATH || tag == DT_RUNPATH,
        libs.len() > 0,
    ensures
        s.removing_needed(libs)->0.state.next_paths(tag) == s.next_paths(tag),
{
    let entries = s.next_entries();
    let n = entries.len() as int;
    let names = s.next_strings();
    let left = edits::without_libraries(entries, names, libs, n);
    let null = Dyn { d_tag: DT_NULL, d_val: 0 };
    lemma_removing(s, libs);
    lemma_paths_without_libraries(entries, names, libs, tag, n);
    assert(entries.take(n) =~= entries);
    lemma_paths_push(left, null, names, tag, 0);
    lemma_paths_found(left, names, tag, 0);
}

} // verus!
