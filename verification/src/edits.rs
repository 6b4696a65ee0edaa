//! What the modifications make of the state of a file.
//!
//! A modification that would reach outside of the file, or need more bytes than can be
//! addressed, leads to no state at all.

use crate::codec;
use crate::sections;
use crate::state;
use crate::state::ElfState;
use crate::text;
use crate::types;
use crate::types::{
    Ctx, Dyn, Error, ErrorView, SectionHeader, DT_NEEDED, DT_NULL, DT_RPATH, DT_RUNPATH,
};
use vstd::prelude::*;
use vstd::utf8::*;

verus! {

/// A state, and the error that the operation leading to it ended in, if any.
#[verifier::ext_equal]
pub struct Step {
    pub state: ElfState,
    pub error: Option<ErrorView>,
}

/// An operation that succeeded.
pub open spec fn done(s: ElfState) -> Option<Step> {
    Some(Step { state: s, error: None })
}

/// An operation that ended in an error.
pub open spec fn failed(s: ElfState, e: ErrorView) -> Option<Step> {
    Some(Step { state: s, error: Some(e) })
}

/// Whether a call that came back with `r` and left the state `after` did what `step`
/// says.
pub open spec fn reports(
    r: Option<Result<(), Error>>,
    after: ElfState,
    step: Option<Step>,
) -> bool {
    match (r, step) {
        (Some(result), Some(s)) => after == s.state && types::outcome(result) == s.error,
        (None, None) => true,
        _ => false,
    }
}

/// Bytes cut, or filled up with zeros, to `n` bytes.
pub open spec fn resized(content: Seq<u8>, n: int) -> Seq<u8> {
    Seq::new(
        n as nat,
        |i: int|
            if i < content.len() {
                content[i]
            } else {
                0
            },
    )
}

/// Bytes with others written over them from `at` on, as far as they reach.
pub open spec fn overlaid(b: Seq<u8>, at: int, part: Seq<u8>) -> Seq<u8> {
    Seq::new(
        b.len(),
        |i: int|
            if at <= i < at + part.len() {
                part[i - at]
            } else {
                b[i]
            },
    )
}

/// The bytes of a text and the zero byte that ends it.
pub open spec fn c_string(s: Seq<char>) -> Seq<u8> {
    encode_utf8(s).push(0)
}

/// The first `n` texts, one behind the other, each ended by a zero byte.
pub open spec fn c_strings(texts: Seq<Seq<char>>, n: int) -> Seq<u8>
    decreases n,
{
    if n <= 0 {
        Seq::empty()
    } else {
        c_strings(texts, n - 1) + c_string(texts[n - 1])
    }
}

/// Bytes with dynamic entries written over them from the `i`-th on, the first of all
/// at `at`, up to the first that does not fit.
pub open spec fn dyns_written(
    b: Seq<u8>,
    entries: Seq<Dyn>,
    at: int,
    ctx: Ctx,
    i: int,
) -> (Seq<u8>, Option<ErrorView>)
    decreases entries.len() - i,
{
    let place = at + i * ctx.dyn_len();
    if i >= entries.len() {
        (b, None)
    } else if codec::dyn_write_fault(b, place, ctx) is Some {
        (codec::with_dyn(b, entries[i], place, ctx), codec::dyn_write_fault(b, place, ctx))
    } else {
        dyns_written(codec::with_dyn(b, entries[i], place, ctx), entries, at, ctx, i + 1)
    }
}

/// The first entry from the `i`-th on that names search paths.
pub open spec fn path_slot(entries: Seq<Dyn>, i: int) -> Option<int>
    decreases entries.len() - i,
{
    if i >= entries.len() {
        None
    } else if entries[i].d_tag == DT_RPATH || entries[i].d_tag == DT_RUNPATH {
        Some(i)
    } else {
        path_slot(entries, i + 1)
    }
}

/// Entries that name search paths by `d`: in place of the entry `slot`, or else before
/// the null entry.
pub open spec fn with_path_entry(entries: Seq<Dyn>, slot: Option<int>, d: Dyn) -> Seq<Dyn> {
    match slot {
        Some(k) => entries.update(k, d),
        None => match state::tag_from(entries, DT_NULL, 0) {
            Some(z) => entries.insert(z, d),
            None => entries,
        },
    }
}

/// The entries for needed libraries whose names stand from `at` on.
pub open spec fn needed_entries(libs: Seq<Seq<char>>, at: int) -> Seq<Dyn> {
    Seq::new(
        libs.len(),
        |i: int| Dyn { d_tag: DT_NEEDED, d_val: (at + c_strings(libs, i).len()) as u64 },
    )
}

/// Those of the first `n` entries that do not name one of the libraries.
pub open spec fn without_libraries(
    entries: Seq<Dyn>,
    strings: Seq<u8>,
    libs: Seq<Seq<char>>,
    n: int,
) -> Seq<Dyn>
    decreases n,
{
    if n <= 0 {
        Seq::empty()
    } else {
        let d = entries[n - 1];
        let before = without_libraries(entries, strings, libs, n - 1);
        if state::names_library(d, strings) && libs.contains(
            text::string_at(strings, d.d_val as int),
        ) {
            before
        } else {
            before.push(d)
        }
    }
}

/// What the first `n` replacements make of a name: the last one for it counts.
pub open spec fn new_name(
    replacements: Seq<(Seq<char>, Seq<char>)>,
    name: Seq<char>,
    n: int,
) -> Option<Seq<char>>
    decreases n,
{
    if n <= 0 {
        None
    } else if replacements[n - 1].0 == name {
        Some(replacements[n - 1].1)
    } else {
        new_name(replacements, name, n - 1)
    }
}

/// The name that an entry is to be given, where it names a library to be replaced.
pub open spec fn renaming(
    d: Dyn,
    strings: Seq<u8>,
    replacements: Seq<(Seq<char>, Seq<char>)>,
) -> Option<Seq<char>> {
    if state::names_library(d, strings) {
        new_name(
            replacements,
            text::string_at(strings, d.d_val as int),
            replacements.len() as int,
        )
    } else {
        None
    }
}

/// The bytes of the name that an entry has.
pub open spec fn name_bytes(d: Dyn, strings: Seq<u8>) -> Seq<u8> {
    encode_utf8(text::string_at(strings, d.d_val as int))
}

/// The new names of the first `n` entries that are longer than those they replace.
pub open spec fn longer_names(
    entries: Seq<Dyn>,
    strings: Seq<u8>,
    replacements: Seq<(Seq<char>, Seq<char>)>,
    n: int,
) -> Seq<Seq<char>>
    decreases n,
{
    if n <= 0 {
        Seq::empty()
    } else {
        let before = longer_names(entries, strings, replacements, n - 1);
        match renaming(entries[n - 1], strings, replacements) {
            Some(name) if encode_utf8(name).len() > name_bytes(
                entries[n - 1],
                strings,
            ).len() => before.push(name),
            _ => before,
        }
    }
}

/// Where the last of the first `n` texts that is equal to `name` stands, the first of
/// all standing at `at`.
pub open spec fn place_of(texts: Seq<Seq<char>>, at: int, name: Seq<char>, n: int) -> Option<int>
    decreases n,
{
    if n <= 0 {
        None
    } else if texts[n - 1] == name {
        Some(at + c_strings(texts, n - 1).len())
    } else {
        place_of(texts, at, name, n - 1)
    }
}

/// An entry after the replacement of libraries, `added` being the names that stand
/// from `at` on.
pub open spec fn renamed_entry(
    d: Dyn,
    strings: Seq<u8>,
    replacements: Seq<(Seq<char>, Seq<char>)>,
    added: Seq<Seq<char>>,
    at: int,
) -> Dyn {
    match renaming(d, strings, replacements) {
        Some(name) => match place_of(added, 0, name, added.len() as int) {
            Some(place) => Dyn { d_tag: d.d_tag, d_val: (at + place) as u64 },
            None => d,
        },
        None => d,
    }
}

/// Whether the new name of an entry is written over the old one.
pub open spec fn renamed_in_place(
    d: Dyn,
    strings: Seq<u8>,
    replacements: Seq<(Seq<char>, Seq<char>)>,
    added: Seq<Seq<char>>,
) -> bool {
    match renaming(d, strings, replacements) {
        Some(name) => place_of(added, 0, name, added.len() as int) is None && encode_utf8(
            name,
        ).len() <= name_bytes(d, strings).len(),
        None => false,
    }
}

/// A new name and the zeros that fill up the place of the old one.
pub open spec fn padded_name(
    d: Dyn,
    strings: Seq<u8>,
    replacements: Seq<(Seq<char>, Seq<char>)>,
) -> Seq<u8> {
    resized(
        encode_utf8(renaming(d, strings, replacements)->0),
        name_bytes(d, strings).len() as int,
    )
}

impl ElfState {
    /// The content of the section `h`: the one kept under the name, or else the bytes
    /// in the file; zeros where it reaches behind the end of the file.
    pub open spec fn current(self, name: Seq<char>, h: SectionHeader) -> Seq<u8> {
        match sections::lookup(self.replaced, name) {
            Some(content) => content,
            None => if self.in_file(h) {
                self.body(h)
            } else {
                Seq::new(h.sh_size as nat, |i: int| 0)
            },
        }
    }

    /// The strings of the section `h`: those that wait, or else those in the file; none
    /// where they reach behind the end of the file.
    pub open spec fn strings(self, h: SectionHeader) -> Option<Seq<u8>> {
        if sections::lookup(self.replaced, ".dynstr"@) is Some || self.in_file(h) {
            Some(self.current(".dynstr"@, h))
        } else {
            None
        }
    }

    /// The state with a content kept under a name.
    pub open spec fn with_section(self, name: Seq<char>, content: Seq<u8>) -> ElfState {
        ElfState { replaced: sections::put(self.replaced, name, content), ..self }
    }

    /// The state with other bytes of the file.
    pub open spec fn with_contents(self, contents: Seq<u8>) -> ElfState {
        ElfState { contents, ..self }
    }

    /// The state, marked as changed.
    pub open spec fn marked(self) -> ElfState {
        ElfState { changed: true, ..self }
    }

    /// The state with `tail` standing behind the strings of the section `h`.
    pub open spec fn with_strings(self, h: SectionHeader, tail: Seq<u8>) -> ElfState {
        self.with_section(".dynstr"@, self.current(".dynstr"@, h) + tail)
    }

    /// The state with bytes written over the strings of the section `h` from `at` on.
    /// They are written into the strings that wait, and into those in the file as well
    /// where these reach as far. Where none wait they are written into the file, which
    /// must not end before them.
    pub open spec fn with_string(self, h: SectionHeader, at: int, part: Seq<u8>) -> Option<
        ElfState,
    > {
        let place = h.sh_offset + at;
        match sections::lookup(self.replaced, ".dynstr"@) {
            Some(content) => {
                let patched = self.with_section(".dynstr"@, overlaid(content, at, part));
                if self.in_file(h) && at + part.len() <= h.sh_size {
                    Some(patched.with_contents(codec::splice(self.contents, place, part)))
                } else {
                    Some(patched)
                }
            },
            None => if place + part.len() > self.contents.len() {
                None
            } else {
                Some(self.with_contents(codec::splice(self.contents, place, part)))
            },
        }
    }

    /// The state with other dynamic entries.
    pub open spec fn with_dyns(self, entries: Seq<Dyn>) -> ElfState {
        self.with_section(".dynamic"@, state::dyns_bytes(entries, self.ctx))
    }

    /// The state with dynamic entries written over the first ones of the section `h`.
    pub open spec fn with_first_dyns(self, h: SectionHeader, entries: Seq<Dyn>) -> ElfState {
        self.with_section(
            ".dynamic"@,
            overlaid(self.dyn_data(h)->0, 0, state::dyns_bytes(entries, self.ctx)),
        )
    }

    /// Setting the interpreter. Nothing is done where the file has it and nothing else
    /// waits to take its place.
    pub open spec fn setting_interpreter(self, path: Seq<char>) -> Step {
        if self.interpreter() == Some(path) && (sections::lookup(
            self.replaced,
            ".interp"@,
        ) matches Some(content) ==> content == c_string(path)) {
            Step { state: self, error: None }
        } else if self.section(".interp"@) is None {
            Step { state: self, error: Some(state::not_found(".interp"@)) }
        } else {
            Step { state: self.with_section(".interp"@, c_string(path)).marked(), error: None }
        }
    }

    /// Writing search paths over the string, `old_len` bytes long, that the entry `k`
    /// points to.
    pub open spec fn setting_path_in_place(
        self,
        strings: SectionHeader,
        dynamic: SectionHeader,
        k: int,
        path: Seq<char>,
        tag: u64,
        old_len: int,
    ) -> Option<Step> {
        let entries = self.dyns(dynamic);
        let d = entries[k];
        let tagged = entries.update(k, Dyn { d_tag: tag, d_val: d.d_val });
        match self.with_string(strings, d.d_val as int, resized(encode_utf8(path), old_len + 1)) {
            None => None,
            Some(written) => if d.d_tag == tag {
                done(written.marked())
            } else if sections::lookup(self.replaced, ".dynamic"@) is Some {
                done(
                    written.with_section(
                        ".dynamic"@,
                        overlaid(self.dyn_data(dynamic)->0, 0, state::dyns_bytes(tagged, self.ctx)),
                    ).marked(),
                )
            } else {
                let (b, fault) = dyns_written(
                    written.contents,
                    tagged,
                    dynamic.sh_offset as usize as int,
                    self.ctx,
                    0,
                );
                match fault {
                    Some(e) => failed(written.with_contents(b), e),
                    None => done(written.with_contents(b).marked()),
                }
            },
        }
    }

    /// Putting search paths behind all strings.
    pub open spec fn setting_path_behind(
        self,
        strings: SectionHeader,
        dynamic: SectionHeader,
        path: Seq<char>,
        tag: u64,
    ) -> Option<Step> {
        let entries = self.dyns(dynamic);
        let size = self.current(".dynstr"@, strings).len();
        let changed = with_path_entry(
            entries,
            path_slot(entries, 0),
            Dyn { d_tag: tag, d_val: size as u64 },
        );
        if size + c_string(path).len() > isize::MAX || changed.len() * self.ctx.dyn_len()
            > isize::MAX {
            None
        } else {
            done(self.with_strings(strings, c_string(path)).with_dyns(changed).marked())
        }
    }

    /// Setting the search paths under a tag.
    pub open spec fn setting_path(self, path: Seq<char>, tag: u64) -> Option<Step> {
        match (self.section(".dynstr"@), self.section(".dynamic"@)) {
            (None, _) => failed(self, state::not_found(".dynstr"@)),
            (Some(_), None) => failed(self, state::not_found(".dynamic"@)),
            (Some(strings), Some(dynamic)) => if self.dyn_data(dynamic) is None {
                None
            } else {
                match path_slot(self.dyns(dynamic), 0) {
                    None => self.setting_path_behind(strings, dynamic, path, tag),
                    Some(k) => match self.strings(strings) {
                        None => None,
                        Some(names) => {
                            let old_len = name_bytes(self.dyns(dynamic)[k], names).len() as int;
                            if encode_utf8(path).len() <= old_len {
                                self.setting_path_in_place(strings, dynamic, k, path, tag, old_len)
                            } else {
                                self.setting_path_behind(strings, dynamic, path, tag)
                            }
                        },
                    },
                }
            },
        }
    }

    /// Adding needed libraries.
    pub open spec fn adding_needed(self, libs: Seq<Seq<char>>) -> Option<Step> {
        let tail = c_strings(libs, libs.len() as int);
        match (self.section(".dynstr"@), self.section(".dynamic"@)) {
            _ if libs.len() == 0 => done(self),
            (None, _) => failed(self, state::not_found(".dynstr"@)),
            (Some(_), None) => failed(self, state::not_found(".dynamic"@)),
            (Some(strings), Some(dynamic)) => {
                let extended = self.with_strings(strings, tail);
                let entries = extended.dyns(dynamic);
                let size = self.current(".dynstr"@, strings).len() as int;
                if size + tail.len() > isize::MAX || extended.dyn_data(
                    dynamic,
                ) is None {
                    None
                } else {
                    match state::tag_from(entries, DT_NULL, 0) {
                        None => failed(
                            extended,
                            ErrorView::Malformed("No DT_NULL in dynamic section"@),
                        ),
                        Some(z) => if (entries.len() + libs.len()) * self.ctx.dyn_len()
                            > isize::MAX {
                            None
                        } else {
                            done(
                                extended.with_dyns(
                                    entries.take(z) + needed_entries(libs, size)
                                        + entries.skip(z),
                                ).marked(),
                            )
                        },
                    }
                }
            },
        }
    }

    /// Removing needed libraries. The dynamic section keeps its size: zeros follow the
    /// entries that are left.
    pub open spec fn removing_needed(self, libs: Seq<Seq<char>>) -> Option<Step> {
        match (self.section(".dynstr"@), self.section(".dynamic"@)) {
            _ if libs.len() == 0 => done(self),
            (None, _) => failed(self, state::not_found(".dynstr"@)),
            (Some(strings), _) if self.strings(strings) is None => failed(
                self,
                ErrorView::Malformed("Invalid dynstr section"@),
            ),
            (Some(_), None) => failed(self, state::not_found(".dynamic"@)),
            (Some(strings), Some(dynamic)) => match self.dyn_data(dynamic) {
                None => None,
                Some(data) => {
                    let entries = self.dyns(dynamic);
                    let left = without_libraries(
                        entries,
                        self.strings(strings)->0,
                        libs,
                        entries.len() as int,
                    );
                    done(
                        self.with_section(
                            ".dynamic"@,
                            resized(state::dyns_bytes(left, self.ctx), data.len() as int),
                        ).marked(),
                    )
                },
            },
        }
    }

    /// The state with the new names of the entries from the `i`-th on written over the
    /// old ones.
    pub open spec fn renamed_from(
        self,
        h: SectionHeader,
        entries: Seq<Dyn>,
        names: Seq<u8>,
        replacements: Seq<(Seq<char>, Seq<char>)>,
        added: Seq<Seq<char>>,
        i: int,
    ) -> Option<ElfState>
        decreases entries.len() - i,
    {
        if i >= entries.len() {
            Some(self)
        } else if !renamed_in_place(entries[i], names, replacements, added) {
            self.renamed_from(h, entries, names, replacements, added, i + 1)
        } else {
            match self.with_string(
                h,
                entries[i].d_val as int,
                padded_name(entries[i], names, replacements),
            ) {
                Some(next) => next.renamed_from(h, entries, names, replacements, added, i + 1),
                None => None,
            }
        }
    }

    /// Replacing needed libraries.
    pub open spec fn replacing_needed(
        self,
        replacements: Seq<(Seq<char>, Seq<char>)>,
    ) -> Option<Step> {
        match (self.section(".dynstr"@), self.section(".dynamic"@)) {
            _ if replacements.len() == 0 => done(self),
            (None, _) => failed(self, state::not_found(".dynstr"@)),
            (Some(strings), _) if self.strings(strings) is None => failed(
                self,
                ErrorView::Malformed("Invalid dynstr section"@),
            ),
            (Some(_), None) => failed(self, state::not_found(".dynamic"@)),
            (Some(strings), Some(dynamic)) => if self.dyn_data(dynamic) is None {
                None
            } else {
                let entries = self.dyns(dynamic);
                let names = self.strings(strings)->0;
                let size = names.len() as int;
                let added = longer_names(entries, names, replacements, entries.len() as int);
                let tail = c_strings(added, added.len() as int);
                let extended = if added.len() > 0 {
                    self.with_strings(strings, tail)
                } else {
                    self
                };
                if size + tail.len() > isize::MAX {
                    None
                } else {
                    match extended.renamed_from(strings, entries, names, replacements, added, 0) {
                        None => None,
                        Some(renamed) => done(
                            renamed.with_dyns(
                                Seq::new(
                                    entries.len(),
                                    |i: int|
                                        renamed_entry(entries[i], names, replacements, added, size),
                                ),
                            ).marked(),
                        ),
                    }
                }
            },
        }
    }
}

} // verus!
