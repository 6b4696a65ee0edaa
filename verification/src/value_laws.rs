//! What the values of dynamic entries are in a file that was written, told by the names of
//! the sections that they follow.

use crate::entry_laws;
use crate::file_laws;
use crate::laws;
use crate::linking;
use crate::placement;
use crate::roundtrip;
use crate::sections;
use crate::state;
use crate::state::ElfState;
use crate::types::{
    DT_GNU_HASH, DT_HASH, DT_JMPREL, DT_NEEDED, DT_NULL, DT_REL, DT_RELA, DT_RELASZ, DT_RELSZ,
    DT_RPATH, DT_RUNPATH, DT_STRSZ, DT_STRTAB, DT_SYMTAB, DT_VERDEF, DT_VERNEED, DT_VERSYM,
    ET_DYN, ET_EXEC, PF_RW, PT_DYNAMIC, PT_INTERP, PT_LOAD, PT_NOTE, PT_PHDR, SHT_NOBITS,
    SHT_NOTE, SHT_PROGBITS,
};
use vstd::prelude::*;

verus! {

/// In the file that was written there are as many dynamic entries as were to be written, in
/// the same order and with the same tags. An entry for the address or the size of a section
/// has that of the section as it stands in that file. Where there is no such section, and
/// under any other tag, the value is the one that was to be written.
pub proof fn law_entries_follow_the_sections_of_their_tags(a: ElfState, r: ElfState, i: int)
    requires
        a.writes_well(),
        a.section(".dynamic"@) is Some,
        a.spares(".dynamic"@),
        state::is_parsed(a.written(), r),
        0 <= i < a.next_entries().len(),
    ensures
        r.section(".dynamic"@) is Some,
        r.dyns(r.section(".dynamic"@)->0).len() == a.next_entries().len(),
        ({
            let d = r.dyns(r.section(".dynamic"@)->0)[i];
            let old_value = a.next_entries()[i].d_val;
            &&& d.d_tag == a.next_entries()[i].d_tag
            &&& d.d_tag == DT_STRTAB ==> (match r.section(".dynstr"@) {
                Some(h) => d.d_val == h.sh_addr,
                None => d.d_val == old_value,
            })
            &&& d.d_tag == DT_STRSZ ==> (match r.section(".dynstr"@) {
                Some(h) => d.d_val == h.sh_size,
                None => d.d_val == old_value,
            })
            &&& d.d_tag == DT_SYMTAB ==> (match r.section(".dynsym"@) {
                Some(h) => d.d_val == h.sh_addr,
                None => d.d_val == old_value,
            })
            &&& d.d_tag == DT_HASH ==> (match r.section(".hash"@) {
                Some(h) => d.d_val == h.sh_addr,
                None => d.d_val == old_value,
            })
            &&& d.d_tag == DT_GNU_HASH ==> (match r.section(".gnu.hash"@) {
                Some(h) => d.d_val == h.sh_addr,
                None => d.d_val == old_value,
            })
            &&& d.d_tag == DT_RELA ==> (match r.section(".rela.dyn"@) {
                Some(h) => d.d_val == h.sh_addr,
                None => d.d_val == old_value,
            })
            &&& d.d_tag == DT_RELASZ ==> (match r.section(".rela.dyn"@) {
                Some(h) => d.d_val == h.sh_size,
                None => d.d_val == old_value,
            })
            &&& d.d_tag == DT_REL ==> (match r.section(".rel.dyn"@) {
                Some(h) => d.d_val == h.sh_addr,
                None => d.d_val == old_value,
            })
            &&& d.d_tag == DT_RELSZ ==> (match r.section(".rel.dyn"@) {
                Some(h) => d.d_val == h.sh_size,
                None => d.d_val == old_value,
            })
            &&& d.d_tag == DT_VERNEED ==> (match r.section(".gnu.version_r"@) {
                Some(h) => d.d_val == h.sh_addr,
                None => d.d_val == old_value,
            })
            &&& d.d_tag == DT_VERSYM ==> (match r.section(".gnu.version"@) {
                Some(h) => d.d_val == h.sh_addr,
                None => d.d_val == old_value,
            })
            &&& d.d_tag == DT_VERDEF ==> (match r.section(".gnu.version_d"@) {
                Some(h) => d.d_val == h.sh_addr,
                None => d.d_val == old_value,
            })
            &&& d.d_tag == DT_JMPREL ==> (match (r.section(".rela.plt"@), r.section(".rel.plt"@)) {
                (Some(h), _) => d.d_val == h.sh_addr,
                (None, Some(h)) => d.d_val == h.sh_addr,
                (None, None) => d.d_val == old_value,
            })
            &&& d.d_tag != DT_STRTAB && d.d_tag != DT_STRSZ && d.d_tag != DT_SYMTAB && d.d_tag != DT_HASH && d.d_tag != DT_GNU_HASH && d.d_tag != DT_RELA && d.d_tag != DT_RELASZ && d.d_tag != DT_REL && d.d_tag != DT_RELSZ && d.d_tag != DT_VERNEED && d.d_tag != DT_VERSYM && d.d_tag != DT_VERDEF && d.d_tag != DT_JMPREL
                ==> d.d_val == old_value
        }),
{
    lemma_written_entries(a, r);
    let t = a.relocated()->0;
    placement::lemma_same_values(t, r, a.next_entries()[i].d_tag);
}

/// The dynamic entries of the file that was written are those that were to be written, each
/// with the value that the sections give it.
proof fn lemma_written_entries(a: ElfState, r: ElfState)
    requires
        a.writes_well(),
        a.section(".dynamic"@) is Some,
        a.spares(".dynamic"@),
        state::is_parsed(a.written(), r),
    ensures
        r.section(".dynamic"@) is Some,
        r.shdrs == a.relocated()->0.shdrs,
        r.shstrtab == a.relocated()->0.shstrtab,
        r.dyns(r.section(".dynamic"@)->0) == placement::updated(
            a.relocated()->0,
            a.next_entries(),
        ),
{
    let t = a.relocated()->0;
    laws::lemma_values_fit(t);
    placement::lemma_dynamic_placed(a);
    linking::lemma_dyn_data(a);
    laws::lemma_section_read(a, r, ".dynamic"@);
    laws::law_headers_are_read_again(a, r);
    placement::lemma_relocated(a);
    let g = r.section(".dynamic"@)->0;
    assert(r.replaced =~= Seq::empty());
    assert(r.pending(g) is None);
}

/// The tags of dynamic entries, and the types of files, segments and sections, have the
/// numbers that ELF gives them.
pub proof fn law_numbers_of_tags_and_types()
    ensures
        DT_NULL == 0 && DT_NEEDED == 1 && DT_HASH == 4 && DT_STRTAB == 5 && DT_SYMTAB == 6
            && DT_RELA == 7 && DT_RELASZ == 8 && DT_STRSZ == 10 && DT_RPATH == 15 && DT_REL == 17
            && DT_RELSZ == 18 && DT_JMPREL == 23 && DT_RUNPATH == 29,
        DT_GNU_HASH == 0x6fff_fef5 && DT_VERSYM == 0x6fff_fff0 && DT_VERDEF == 0x6fff_fffc
            && DT_VERNEED == 0x6fff_fffe,
        ET_EXEC == 2 && ET_DYN == 3,
        PT_LOAD == 1 && PT_DYNAMIC == 2 && PT_INTERP == 3 && PT_NOTE == 4 && PT_PHDR == 6,
        PF_RW == 6,
        SHT_PROGBITS == 1 && SHT_NOTE == 7 && SHT_NOBITS == 8,
{
}

/// In a regular file that was modified and written the dynamic entries are those that were
/// to be written. An entry for the address or the size of a section has that of the section
/// as it stands in that file; all other entries keep their values.
pub proof fn law_values_of_a_file(data: Seq<u8>, s: ElfState, a: ElfState, r: ElfState, i: int)
    requires
        state::is_parsed(data, s),
        s.is_regular(),
        file_laws::is_modified(s, a),
        a.replaced.len() > 0,
        a.can_be_written(),
        s.section(".dynamic"@) is Some,
        state::is_parsed(a.written(), r),
        0 <= i < a.next_entries().len(),
    ensures
        r.section(".dynamic"@) is Some,
        r.dyns(r.section(".dynamic"@)->0).len() == a.next_entries().len(),
        ({
            let d = r.dyns(r.section(".dynamic"@)->0)[i];
            let old_value = a.next_entries()[i].d_val;
            &&& d.d_tag == a.next_entries()[i].d_tag
            &&& d.d_tag == DT_STRTAB ==> (match r.section(".dynstr"@) {
                Some(h) => d.d_val == h.sh_addr,
                None => d.d_val == old_value,
            })
            &&& d.d_tag == DT_STRSZ ==> (match r.section(".dynstr"@) {
                Some(h) => d.d_val == h.sh_size,
                None => d.d_val == old_value,
            })
            &&& d.d_tag == DT_SYMTAB ==> (match r.section(".dynsym"@) {
                Some(h) => d.d_val == h.sh_addr,
                None => d.d_val == old_value,
            })
            &&& d.d_tag == DT_HASH ==> (match r.section(".hash"@) {
                Some(h) => d.d_val == h.sh_addr,
                None => d.d_val == old_value,
            })
            &&& d.d_tag == DT_GNU_HASH ==> (match r.section(".gnu.hash"@) {
                Some(h) => d.d_val == h.sh_addr,
                None => d.d_val == old_value,
            })
            &&& d.d_tag == DT_RELA ==> (match r.section(".rela.dyn"@) {
                Some(h) => d.d_val == h.sh_addr,
                None => d.d_val == old_value,
            })
            &&& d.d_tag == DT_RELASZ ==> (match r.section(".rela.dyn"@) {
                Some(h) => d.d_val == h.sh_size,
                None => d.d_val == old_value,
            })
            &&& d.d_tag == DT_REL ==> (match r.section(".rel.dyn"@) {
                Some(h) => d.d_val == h.sh_addr,
                None => d.d_val == old_value,
            })
            &&& d.d_tag == DT_RELSZ ==> (match r.section(".rel.dyn"@) {
                Some(h) => d.d_val == h.sh_size,
                None => d.d_val == old_value,
            })
            &&& d.d_tag == DT_VERNEED ==> (match r.section(".gnu.version_r"@) {
                Some(h) => d.d_val == h.sh_addr,
                None => d.d_val == old_value,
            })
            &&& d.d_tag == DT_VERSYM ==> (match r.section(".gnu.version"@) {
                Some(h) => d.d_val == h.sh_addr,
                None => d.d_val == old_value,
            })
            &&& d.d_tag == DT_VERDEF ==> (match r.section(".gnu.version_d"@) {
                Some(h) => d.d_val == h.sh_addr,
                None => d.d_val == old_value,
            })
            &&& d.d_tag == DT_JMPREL ==> (match (r.section(".rela.plt"@), r.section(".rel.plt"@)) {
                (Some(h), _) => d.d_val == h.sh_addr,
                (None, Some(h)) => d.d_val == h.sh_addr,
                (None, None) => d.d_val == old_value,
            })
            &&& d.d_tag != DT_STRTAB && d.d_tag != DT_STRSZ && d.d_tag != DT_SYMTAB && d.d_tag != DT_HASH && d.d_tag != DT_GNU_HASH && d.d_tag != DT_RELA && d.d_tag != DT_RELASZ && d.d_tag != DT_REL && d.d_tag != DT_RELSZ && d.d_tag != DT_VERNEED && d.d_tag != DT_VERSYM && d.d_tag != DT_VERDEF && d.d_tag != DT_JMPREL
                ==> d.d_val == old_value
        }),
{
    file_laws::law_modified_files_can_be_read(data, s, a);
    file_laws::lemma_modified(data, s, a);
    assert(a.relocated() is Some);
    assert(a.section(".dynamic"@) == s.section(".dynamic"@));
    file_laws::law_sound_files_can_be_written(a, ".dynamic"@);
    file_laws::law_sound_files_write_well(a);
    law_entries_follow_the_sections_of_their_tags(a, r, i);
}

/// A library that a regular file needs is read from the file that was written under the new
/// name that the last replacement for its old one gives, and under its old name where there
/// is no replacement for it.
pub proof fn law_names_of_replaced_libraries_of_a_file(
    data: Seq<u8>,
    s: ElfState,
    replacements: Seq<(Seq<char>, Seq<char>)>,
    r: ElfState,
    i: int,
    k: int,
)
    requires
        state::is_parsed(data, s),
        s.is_regular(),
        s.replaces_libraries(replacements),
        s.replacing_needed(replacements)->0.state.can_be_written(),
        state::is_parsed(s.replacing_needed(replacements)->0.state.written(), r),
        0 <= i < s.next_needed().len(),
        -1 <= k < replacements.len(),
        k >= 0 ==> replacements[k].0 == s.next_needed()[i],
        forall|j: int|
            k < j < replacements.len() ==> (#[trigger] replacements[j]).0 != s.next_needed()[i],
    ensures
        s.needed() matches Ok(names) && names == s.next_needed(),
        r.needed() matches Ok(names) && names.len() == s.next_needed().len() && (k >= 0
            ==> names[i] == replacements[k].1) && (k == -1 ==> names[i] == s.next_needed()[i]),
{
    file_laws::law_replaced_libraries_of_a_file(data, s, replacements);
    linking::lemma_nothing_waits(s, DT_RPATH);
    entry_laws::law_the_last_replacement_counts(replacements, s.next_needed()[i], k);
}

/// A library that a regular file needs is read from the file that was written, at the
/// position that it has among those that were not removed.
pub proof fn law_names_of_remaining_libraries_of_a_file(
    data: Seq<u8>,
    s: ElfState,
    libs: Seq<Seq<char>>,
    r: ElfState,
)
    requires
        state::is_parsed(data, s),
        s.is_regular(),
        s.has_linking(),
        libs.len() > 0,
        s.removing_needed(libs)->0.state.can_be_written(),
        state::is_parsed(s.removing_needed(libs)->0.state.written(), r),
    ensures
        s.needed() is Ok,
        r.needed() matches Ok(names) && names == s.needed()->Ok_0.filter(
            |name: Seq<char>| !libs.contains(name),
        ),
{
    file_laws::law_removed_libraries_of_a_file(data, s, libs);
}

/// After writing, the dynamic entries that were brought in line with the sections wait without
/// what stood behind the null entry.
pub proof fn law_waiting_entries_are_cut_after_writing(a: ElfState, i: int)
    requires
        a.writes_well(),
        a.section(".dynamic"@) is Some,
        a.section(".dynstr"@) is Some,
        0 <= i < a.next_entries().len(),
        a.next_entries()[i].d_tag == DT_STRTAB,
    ensures
        sections::lookup(a.writing()->0.state.replaced, ".dynamic"@) matches Some(content)
            && content.len() == a.next_entries().len() * a.ctx.dyn_len(),
{
    let t = a.relocated()->0;
    laws::lemma_values_fit(t);
    linking::lemma_dyn_data(a);
    placement::lemma_dynamic_placed(a);
    placement::lemma_prepared(a, ".dynstr"@);
    let x = placement::lemma_stages(a);
    placement::lemma_staged(a, x);
    placement::lemma_can_stage(a, x);
    placement::lemma_relocated(a);
    placement::lemma_dynamic_stage(a, x);
    let entries = a.next_entries();
    let data = a.next_dyn_data();
    let h = x.f.section(".dynamic"@)->0;
    assert(t.find(".dynamic"@) == x.f.find(".dynamic"@));
    assert(t.find(".dynstr"@) == x.f.find(".dynstr"@));
    placement::lemma_found(x.f.shdrs, x.f.shstrtab, ".dynstr"@, 0);
    assert(x.u.section(".dynstr"@) is Some);
    assert(x.u.value_for(entries[i].d_tag) is Some);
    assert(x.u.updates(entries));
    let all = placement::updated(x.u, entries);
    roundtrip::lemma_dyns_from_shape(data, a.ctx, 0);
    assert forall|j: int| 0 <= j < all.len() implies roundtrip::dyn_fits(#[trigger] all[j], a.ctx)
        && all[j].d_tag == entries[j].d_tag by {
        placement::lemma_same_values(t, x.u, entries[j].d_tag);
        assert(roundtrip::dyn_fits(entries[j], a.ctx));
    }
    roundtrip::lemma_dyns_overlaid(data, all, a.ctx);
    assert(x.f.dyns(h) == all);
    assert(x.f.value_for(all[i].d_tag) is Some);
    roundtrip::lemma_dyns_bytes_len(x.f.dyns(h), a.ctx);
    sections::lemma_lookup_put(
        x.f.replaced,
        ".dynamic"@,
        state::dyns_bytes(x.f.dyns(h), a.ctx),
        ".dynamic"@,
    );
}

} // verus!
