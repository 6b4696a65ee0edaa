//! Rewriting of ELF files: the interpreter, the search paths for libraries and the needed
//! libraries of a file can be read and set.
//!
//! - [`types`] holds the plain data of a file, [`codec`] the layout of its structures in
//!   bytes and [`text`] the strings.
//! - [`state`] says what is read from a file under modification, [`edits`] what the
//!   modifications make of it and [`relocation`] how it is written.
//! - [`rewrite`] holds the operations themselves, on top of [`sections`], the contents that
//!   wait to be placed, and [`order`], a stable sort.
//! - [`library_laws`], [`path_laws`] and [`renaming_laws`] state what the modifications
//!   make of the file that will be written, [`laws`] what holds of writing and reading,
//!   and [`file_laws`] what holds of a file that is read, modified, written and read
//!   again; [`roundtrip`], [`placement`], [`reread`] and [`linking`] lead up to them.
//! - [`layout_laws`] and [`reading_laws`] tell by bytes and names what is read from a file,
//!   [`entry_laws`] and [`string_laws`] by positions what becomes of its entries and strings.
//!   [`placing_laws`], [`segment_laws`], [`note_laws`] and [`value_laws`] tell by the headers
//!   what is written, and [`success_laws`] when a file can be written.
//! - [`writer_debug`] reports on the bytes of a file; [`report_laws`] tells what the reports
//!   hold.

pub mod codec;
pub mod edits;
pub mod entry_laws;
pub mod file_laws;
pub mod laws;
pub mod layout_laws;
pub mod library_laws;
pub mod linking;
pub mod note_laws;
pub mod order;
pub mod path_laws;
pub mod placement;
pub mod placing_laws;
pub mod reading_laws;
pub mod relocation;
pub mod renaming_laws;
pub mod report_laws;
pub mod reread;
pub mod rewrite;
pub mod roundtrip;
pub mod sections;
pub mod segment_laws;
pub mod state;
pub mod string_laws;
pub mod success_laws;
pub mod text;
pub mod types;
pub mod value_laws;
pub mod writer_debug;
