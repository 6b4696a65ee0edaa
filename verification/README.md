# elf_rewrite

A library, verified with Verus, that modifies ELF files in the manner of `patchelf`: it
sets the interpreter, the RPATH or RUNPATH, and adds, removes and replaces needed
libraries.

`rewrite::ElfMut` is the main type. `ElfMut::parse` takes the bytes of a file,
modifications are collected, and `ElfMut::write` gives the bytes of the modified file.
Contents that no longer fit in their place are put behind the end of the file, and the
headers follow.

## What is proved

Each operation is stated as a function on `state::ElfState`, the mathematical state of a
file (`state.rs`, `edits.rs`, `relocation.rs`), and the code is proved to compute it.
The modules whose names end in `laws` then prove what holds of these functions together.
`file_laws.rs` proves that what was set in a file is read after writing, from the same
value and from the bytes that were written, for files that it calls regular
(`ElfState::is_regular`). Not covered there are

- files whose headers have no room to grow, overlap each other or sections, or are not
  counted in the file header,
- files whose dynamic entries, their strings or the section names share a name or a place
  with another section,
- names and paths that hold a zero byte, and strings that do not end inside their section,
- replacements in a file whose library names share bytes,
- 32-bit files in which a new place, address or size does not fit in 32 bits.

Some files hold places and addresses that no modification can work with, such as a
dynamic section that reaches behind the end of the file. The operations that these stop
have a condition on the state, and beside each stands a function that tests it
(`is_readable`, `can_set_runpath`, `can_write` and so on).

## What is taken on trust

The structures of ELF files are read and written by the crates `goblin` and `scroll`.
`codec.rs` states the layout that they use, and `text.rs` what
`String::from_utf8_lossy` gives.

## Layout

- `src/`: the library
- `tests/`: its tests
- `app/`: a command line tool around the library
