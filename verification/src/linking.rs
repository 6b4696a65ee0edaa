//! The dynamic entries and strings that a file will be written with.

use crate::edits;
use crate::placement;
use crate::sections;
use crate::state;
use crate::state::ElfState;
use crate::text;
use crate::types::{Dyn, ErrorView, SectionHeader, DT_NEEDED};
use vstd::prelude::*;
use vstd::utf8::*;

verus! {

impl ElfState {
    /// The bytes of the dynamic entries that will be written: those that wait, or else
    /// those in the file.
    pub open spec fn next_dyn_data(self) -> Seq<u8> {
        self.dyn_data(self.section(".dynamic"@)->0)->0
    }

    /// The dynamic entries that will be written.
    pub open spec fn next_entries(self) -> Seq<Dyn> {
        state::dyns_from(self.next_dyn_data(), self.ctx, 0)
    }

    /// The strings that will be written.
    pub open spec fn next_strings(self) -> Seq<u8> {
        self.current(".dynstr"@, self.section(".dynstr"@)->0)
    }

    /// The needed libraries of the file that will be written.
    pub open spec fn next_needed(self) -> Seq<Seq<char>> {
        state::libraries(
            self.next_entries(),
            self.next_strings(),
            self.next_entries().len() as int,
        )
    }

    /// The paths under a tag in the file that will be written.
    pub open spec fn next_paths(self, tag: u64) -> Seq<Seq<char>> {
        state::paths_from(self.next_entries(), self.next_strings(), tag, 0)
    }

    /// Whether the file has dynamic entries and strings for them, which wait or lie inside
    /// the file.
    pub open spec fn has_linking(self) -> bool {
        &&& self.section(".dynstr"@) matches Some(h) && self.strings(h) is Some
        &&& self.section(".dynamic"@) matches Some(g) && self.dyn_data(g) is Some
    }

    /// Whether the file has dynamic entries and strings for them, and the entries wait or
    /// have nothing in common with the strings.
    pub open spec fn is_linked(self) -> bool {
        &&& self.has_linking()
        &&& self.beside_dynamic(self.section(".dynstr"@)->0)
        &&& self.is_shared_by(".dynstr"@) ==> sections::lookup(self.replaced, ".dynamic"@) is Some
    }

    /// Whether a section of that name is taken to be at the place of the dynamic entries.
    pub open spec fn is_shared_by(self, name: Seq<char>) -> bool {
        self.owner(self.section(".dynamic"@)->0) == Some(name)
    }

    /// Whether the strings can be pointed into from entries of the class.
    pub open spec fn strings_fit(self) -> bool {
        self.ctx.container is Little ==> self.next_strings().len() <= u32::MAX
    }
}

/// Where nothing shares the place of the dynamic entries they wait under their name or
/// stand in the file.
pub(crate) proof fn lemma_dyn_data(s: ElfState)
    requires
        s.dynamic_settled(),
        s.section(".dynamic"@) is Some,
    ensures
        s.dyn_data(s.section(".dynamic"@)->0) is Some,
        s.next_dyn_data() == s.current(".dynamic"@, s.section(".dynamic"@)->0),
        s.is_shared_by(".dynstr"@) ==> sections::lookup(s.replaced, ".dynamic"@) is Some,
{
    let h = s.section(".dynamic"@)->0;
    lemma_names_differ();
    placement::lemma_owner(s.shdrs, s.shstrtab, h, 0);
}

/// What is read where no strings wait is what will be written.
pub proof fn lemma_nothing_waits(s: ElfState, tag: u64)
    requires
        s.has_linking(),
        sections::lookup(s.replaced, ".dynstr"@) is None,
    ensures
        s.readable(),
        s.needed() == Ok::<Seq<Seq<char>>, ErrorView>(s.next_needed()),
        s.search_paths(tag) == Ok::<Seq<Seq<char>>, ErrorView>(s.next_paths(tag)),
{
}

/// Where dynamic entries wait and strings can be read the file is linked.
pub(crate) proof fn lemma_entries_wait(a: ElfState, content: Seq<u8>)
    requires
        a.section(".dynstr"@) matches Some(h) && a.strings(h) is Some,
        a.section(".dynamic"@) is Some,
        sections::lookup(a.replaced, ".dynamic"@) == Some(content),
    ensures
        a.is_linked(),
        a.next_dyn_data() == content,
{
}

/// Keeping a content leaves the headers, and what waits under other names.
pub(crate) proof fn lemma_with_section(s: ElfState, name: Seq<char>, content: Seq<u8>)
    ensures
        ({
            let a = s.with_section(name, content);
            &&& sections::lookup(a.replaced, name) == Some(content)
            &&& forall|other: Seq<char>|
                other != name ==> #[trigger] sections::lookup(a.replaced, other)
                    == sections::lookup(s.replaced, other)
            &&& forall|n: Seq<char>| #[trigger] a.section(n) == s.section(n)
        }),
{
    sections::lemma_lookup_put(s.replaced, name, content, name);
    let a = s.with_section(name, content);
    assert forall|other: Seq<char>| other != name implies #[trigger] sections::lookup(
        a.replaced,
        other,
    ) == sections::lookup(s.replaced, other) by {
        sections::lemma_lookup_put(s.replaced, name, content, other);
    }
}

/// Dynamic entries keep a place of their own when more waits.
pub(crate) proof fn lemma_settled(s: ElfState, a: ElfState)
    requires
        s.dynamic_settled(),
        a.shdrs == s.shdrs,
        a.shstrtab == s.shstrtab,
        a.contents.len() == s.contents.len(),
        sections::lookup(s.replaced, ".dynamic"@) is Some ==> sections::lookup(
            a.replaced,
            ".dynamic"@,
        ) is Some,
    ensures
        a.dynamic_settled(),
        forall|h: SectionHeader| s.beside_dynamic(h) ==> #[trigger] a.beside_dynamic(h),
{
    assert(a.section(".dynamic"@) == s.section(".dynamic"@));
    assert forall|j: int| 0 <= j < a.shdrs.len() implies #[trigger] a.name_of(j) == s.name_of(
        j,
    ) by {}
    if a.section(".dynamic"@) is Some && sections::lookup(a.replaced, ".dynamic"@) is None {
        assert(a.sole(".dynamic"@));
    }
}

/// Whether a byte of the file belongs to a section that lies inside the file.
pub open spec fn inside(s: ElfState, h: SectionHeader, q: int) -> bool {
    s.in_file(h) && h.sh_offset <= q < h.sh_offset + h.sh_size
}

/// The state with bytes written over strings will be written with these. Entries that have
/// nothing in common with the strings stay.
pub(crate) proof fn lemma_with_string(s: ElfState, at: int, part: Seq<u8>)
    requires
        s.section(".dynstr"@) matches Some(h) && s.strings(h) is Some,
        0 <= at,
        at + part.len() <= s.next_strings().len(),
    ensures
        ({
            let w = s.with_string(s.section(".dynstr"@)->0, at, part)->0;
            &&& s.with_string(s.section(".dynstr"@)->0, at, part) is Some
            &&& w == ElfState { contents: w.contents, replaced: w.replaced, ..s }
            &&& w.contents.len() == s.contents.len()
            &&& w.section(".dynstr"@) == s.section(".dynstr"@)
            &&& w.strings(s.section(".dynstr"@)->0) is Some
            &&& w.next_strings() == edits::overlaid(s.next_strings(), at, part)
            &&& s.is_linked() ==> w.is_linked() && w.next_dyn_data() == s.next_dyn_data()
            &&& forall|name: Seq<char>|
                name != ".dynstr"@ ==> #[trigger] sections::lookup(w.replaced, name)
                    == sections::lookup(s.replaced, name)
            &&& sections::lookup(w.replaced, ".dynstr"@) is Some == sections::lookup(
                s.replaced,
                ".dynstr"@,
            ) is Some
            &&& sections::ordered(s.replaced) ==> sections::ordered(w.replaced)
            &&& (w.replaced.len() == 0) == (s.replaced.len() == 0)
            &&& forall|q: int|
                0 <= q < s.contents.len() && #[trigger] w.contents[q] != s.contents[q] ==> inside(
                    s,
                    s.section(".dynstr"@)->0,
                    q,
                )
        }),
{
    let h = s.section(".dynstr"@)->0;
    let d = s.section(".dynamic"@)->0;
    let w = s.with_string(h, at, part)->0;
    lemma_names_differ();
    match sections::lookup(s.replaced, ".dynstr"@) {
        Some(content) => {
            let patched = edits::overlaid(content, at, part);
            assert(s.replaced.len() > 0);
            assert(w.replaced == sections::put(s.replaced, ".dynstr"@, patched));
            lemma_with_section(s, ".dynstr"@, patched);
            if sections::ordered(s.replaced) {
                sections::lemma_put_ordered(s.replaced, ".dynstr"@, patched);
            }
        },
        None => {
            assert(s.next_strings() == s.body(h));
            assert(w.body(h) =~= edits::overlaid(s.body(h), at, part));
        },
    }
    assert(w.section(".dynstr"@) == s.section(".dynstr"@));
    assert(w.section(".dynamic"@) == s.section(".dynamic"@));
    if s.is_linked() {
        assert(w.owner(d) == s.owner(d));
        assert(w.beside_dynamic(h));
        if sections::lookup(s.replaced, ".dynamic"@) is None {
            assert(w.pending(d) == s.pending(d));
            if s.pending(d) is None {
                assert(w.body(d) =~= s.body(d));
            }
        }
    }
}

/// The texts behind the first `i` stand behind these.
pub(crate) proof fn lemma_c_strings_split(texts: Seq<Seq<char>>, i: int, n: int) -> (rest: Seq<u8>)
    requires
        0 <= i < n <= texts.len(),
    ensures
        edits::c_strings(texts, n) == edits::c_strings(texts, i) + (edits::c_string(texts[i])
            + rest),
    decreases n,
{
    if i == n - 1 {
        let rest = Seq::<u8>::empty();
        assert(edits::c_strings(texts, n) =~= edits::c_strings(texts, i) + (edits::c_string(
            texts[i],
        ) + rest));
        rest
    } else {
        let before = lemma_c_strings_split(texts, i, n - 1);
        let rest = before + edits::c_string(texts[n - 1]);
        assert(edits::c_strings(texts, n) =~= edits::c_strings(texts, i) + (edits::c_string(
            texts[i],
        ) + rest));
        rest
    }
}

/// The text `i` is read from its place behind other strings.
pub(crate) proof fn lemma_c_strings_read(strings: Seq<u8>, texts: Seq<Seq<char>>, i: int)
    requires
        0 <= i < texts.len(),
        !encode_utf8(texts[i]).contains(0),
    ensures
        text::string_at(
            strings + edits::c_strings(texts, texts.len() as int),
            (strings.len() + edits::c_strings(texts, i).len()) as int,
        ) == texts[i],
        strings.len() + edits::c_strings(texts, i).len() < (strings + edits::c_strings(
            texts,
            texts.len() as int,
        )).len(),
{
    let n = texts.len() as int;
    let rest = lemma_c_strings_split(texts, i, n);
    let before = strings + edits::c_strings(texts, i);
    assert(strings + edits::c_strings(texts, n) =~= before + (edits::c_string(texts[i]) + rest));
    text::lemma_string_written(before, texts[i], rest);
}

/// The first entry with a tag has it, and none before it.
pub(crate) proof fn lemma_tag(entries: Seq<Dyn>, tag: u64, i: int)
    requires
        0 <= i,
    ensures
        match state::tag_from(entries, tag, i) {
            Some(k) => i <= k < entries.len() && entries[k].d_tag == tag && forall|j: int|
                i <= j < k ==> (#[trigger] entries[j]).d_tag != tag,
            None => forall|j: int| i <= j < entries.len() ==> (#[trigger] entries[j]).d_tag != tag,
        },
    decreases entries.len() - i,
{
    if i < entries.len() && entries[i].d_tag != tag {
        lemma_tag(entries, tag, i + 1);
    }
}

/// Whether all entries for needed libraries point into the strings, which end in a
/// zero byte.
pub open spec fn strings_sound(entries: Seq<Dyn>, strings: Seq<u8>) -> bool {
    &&& strings.len() > 0 ==> strings.last() == 0
    &&& forall|i: int|
        0 <= i < entries.len() && (#[trigger] entries[i]).d_tag == DT_NEEDED ==> entries[i].d_val
            < strings.len()
}

/// The libraries named by entries that all point into the strings are the same where
/// other strings follow.
pub(crate) proof fn lemma_libraries_extended(
    entries: Seq<Dyn>,
    other: Seq<Dyn>,
    strings: Seq<u8>,
    tail: Seq<u8>,
    n: int,
)
    requires
        strings_sound(entries, strings),
        0 <= n <= entries.len(),
        n <= other.len(),
        forall|i: int| 0 <= i < n ==> (#[trigger] other[i]) == entries[i],
    ensures
        state::libraries(other, strings + tail, n) == state::libraries(entries, strings, n),
    decreases n,
{
    if n > 0 {
        lemma_libraries_extended(entries, other, strings, tail, n - 1);
        let d = entries[n - 1];
        assert(other[n - 1] == d);
        if d.d_tag == DT_NEEDED {
            text::lemma_string_extended(strings, tail, d.d_val as int);
        }
    }
}

/// The two sections of dynamic linking have different names.
pub(crate) proof fn lemma_names_differ()
    ensures
        ".dynstr"@ != ".dynamic"@,
{
    reveal_strlit(".dynstr");
    reveal_strlit(".dynamic");
    assert(".dynstr"@.len() == 7);
    assert(".dynamic"@.len() == 8);
}

/// Whether an entry for a needed library names a string of its own: it ends where its
/// length says.
pub open spec fn name_ends(d: Dyn, strings: Seq<u8>) -> bool {
    let len = edits::name_bytes(d, strings).len();
    d.d_val + len < strings.len() && strings[d.d_val + len] == 0
}

/// A string is the same in bytes that hold the same up to its end.
pub(crate) proof fn lemma_same_string(b: Seq<u8>, c: Seq<u8>, at: int, len: int)
    requires
        0 <= at,
        0 <= len,
        at + len < b.len(),
        b.len() == c.len(),
        b.subrange(at, at + len) == c.subrange(at, at + len),
        b[at + len] == 0,
        c[at + len] == 0,
    ensures
        text::string_at(b, at) == text::string_at(c, at),
{
    text::lemma_nul_from(b, at);
    text::lemma_nul_from(c, at);
    let n = text::nul_from(b, at);
    let m = text::nul_from(c, at);
    assert(n <= at + len && m <= at + len);
    if n < at + len {
        assert(b.subrange(at, at + len)[n - at] == b[n]);
        assert(c.subrange(at, at + len)[n - at] == c[n]);
    }
    if m < at + len {
        assert(b.subrange(at, at + len)[m - at] == b[m]);
        assert(c.subrange(at, at + len)[m - at] == c[m]);
    }
    assert(n == m);
    assert forall|q: int| at <= q < n implies #[trigger] b[q] == c[q] by {
        assert(b.subrange(at, at + len)[q - at] == b[q]);
        assert(c.subrange(at, at + len)[q - at] == c[q]);
    }
    assert(b.subrange(at, n) =~= c.subrange(at, n));
}

/// A string that ends before the end of bytes is the same where other bytes follow them.
pub(crate) proof fn lemma_string_prefix(b: Seq<u8>, tail: Seq<u8>, at: int, end: int)
    requires
        0 <= at <= end < b.len(),
        b[end] == 0,
    ensures
        text::string_at(b + tail, at) == text::string_at(b, at),
{
    text::lemma_nul_from(b, at);
    text::lemma_nul_from(b + tail, at);
    let n = text::nul_from(b, at);
    let m = text::nul_from(b + tail, at);
    assert(n <= end);
    assert((b + tail)[n] == 0);
    if m < n {
        assert((b + tail)[m] == b[m]);
    }
    assert((b + tail).subrange(at, n) =~= b.subrange(at, n));
}

} // verus!
