//! A written file is read again.

use crate::codec;
use crate::relocation;
use crate::roundtrip;
use crate::state;
use crate::state::ElfState;
use crate::types::{
    Ctx, Endian, Header, ProgramHeader, SectionHeader, EI_CLASS, EI_DATA, ELFCLASS32,
    ELFCLASS64, ELFDATA2LSB, ELFDATA2MSB,
};
use vstd::prelude::*;

verus! {

/// Whether two ranges have nothing in common.
pub open spec fn apart(from: int, to: int, other_from: int, other_to: int) -> bool {
    to <= other_from || other_to <= from
}

/// Whether a file header identifies an ELF file.
pub open spec fn identified(h: Header) -> bool {
    let id = h.e_ident@;
    &&& id.subrange(0, 4) == seq![0x7fu8, 0x45, 0x4c, 0x46]
    &&& id[EI_CLASS as int] == ELFCLASS32 || id[EI_CLASS as int] == ELFCLASS64
    &&& id[EI_DATA as int] == ELFDATA2LSB || id[EI_DATA as int] == ELFDATA2MSB
}

impl ElfState {
    /// The end of the program header table.
    pub open spec fn phdrs_end(self) -> int {
        self.header.e_phoff + self.phdrs.len() * self.ctx.phdr_len()
    }

    /// The end of the section header table.
    pub open spec fn shdrs_end(self) -> int {
        self.header.e_shoff + self.shdrs.len() * self.ctx.shdr_len()
    }

    /// Whether a range of the file holds no header.
    pub open spec fn is_clear(self, from: int, to: int) -> bool {
        &&& self.ctx.ehdr_len() <= from
        &&& apart(from, to, self.header.e_phoff as int, self.phdrs_end())
        &&& apart(from, to, self.header.e_shoff as int, self.shdrs_end())
    }

    /// Whether the headers lie inside the file and apart from each other.
    pub open spec fn tables_apart(self) -> bool {
        &&& self.ctx.ehdr_len() <= self.contents.len()
        &&& self.phdrs_end() <= self.contents.len()
        &&& self.shdrs_end() <= self.contents.len()
        &&& apart(0, self.ctx.ehdr_len(), self.header.e_phoff as int, self.phdrs_end())
        &&& apart(0, self.ctx.ehdr_len(), self.header.e_shoff as int, self.shdrs_end())
        &&& apart(
            self.header.e_phoff as int,
            self.phdrs_end(),
            self.header.e_shoff as int,
            self.shdrs_end(),
        )
    }

    /// Whether the headers can be told by a file: it is one of the class that is
    /// written, all numbers of headers are noted, and all fields fit in the class.
    pub open spec fn is_encodable(self) -> bool {
        &&& identified(self.header)
        &&& self.ctx == codec::announced_ctx(self.header.e_ident@)
        &&& self.header.e_phnum == self.phdrs.len()
        &&& self.header.e_shnum == self.shdrs.len()
        &&& self.shdrs.len() > 0
        &&& self.contents.len() <= usize::MAX
        &&& roundtrip::header_fits(self.header)
        &&& forall|i: int|
            0 <= i < self.phdrs.len() ==> roundtrip::phdr_fits(#[trigger] self.phdrs[i], self.ctx)
        &&& forall|i: int|
            0 <= i < self.shdrs.len() ==> roundtrip::shdr_fits(#[trigger] self.shdrs[i], self.ctx)
    }

    /// The state that a file with these headers has when nothing was done to it.
    pub open spec fn as_read(self) -> ElfState {
        ElfState {
            shstrtab: state::name_table(self.contents, self.header, self.shdrs),
            replaced: Seq::empty(),
            changed: false,
            index_map: Seq::new(self.shdrs.len(), |i: int| i as usize),
            ..self
        }
    }
}

/// Written program headers take the bytes of the table, and the rest stays.
pub proof fn lemma_phdrs_written(
    b: Seq<u8>,
    phdrs: Seq<ProgramHeader>,
    at: int,
    ctx: Ctx,
    n: int,
)
    requires
        0 <= at,
        0 <= n <= phdrs.len(),
    ensures
        ({
            let r = relocation::phdrs_written(b, phdrs, at, ctx, n);
            &&& r.len() == b.len()
            &&& forall|q: int|
                0 <= q < b.len() && !(at <= q < at + n * ctx.phdr_len()) ==> #[trigger] r[q] == b[q]
            &&& at + n * ctx.phdr_len() <= b.len() ==> forall|i: int|
                0 <= i < n ==> #[trigger] r.subrange(
                    at + i * ctx.phdr_len(),
                    at + (i + 1) * ctx.phdr_len(),
                ) == codec::phdr_bytes(phdrs[i], ctx)
        }),
    decreases n,
{
    if n > 0 {
        let size = ctx.phdr_len();
        let before = relocation::phdrs_written(b, phdrs, at, ctx, n - 1);
        let r = relocation::phdrs_written(b, phdrs, at, ctx, n);
        let place = at + (n - 1) * size;
        lemma_phdrs_written(b, phdrs, at, ctx, n - 1);
        roundtrip::lemma_phdr_bytes_len(phdrs[n - 1], ctx);
        assert(n * size == (n - 1) * size + size) by (nonlinear_arith);
        assert((n - 1) * size >= 0) by (nonlinear_arith)
            requires
                n >= 1,
                size >= 0,
        ;
        if at + n * size <= b.len() {
            assert forall|i: int| 0 <= i < n implies #[trigger] r.subrange(
                at + i * size,
                at + (i + 1) * size,
            ) == codec::phdr_bytes(phdrs[i], ctx) by {
                assert(i * size + size == (i + 1) * size) by (nonlinear_arith);
                assert(0 <= i * size <= (n - 1) * size) by (nonlinear_arith)
                    requires
                        0 <= i < n,
                        size >= 0,
                ;
                if i == n - 1 {
                    assert(r.subrange(at + i * size, at + (i + 1) * size) =~= codec::phdr_bytes(
                        phdrs[i],
                        ctx,
                    ));
                } else {
                    assert((i + 1) * size <= (n - 1) * size) by (nonlinear_arith)
                        requires
                            i + 1 <= n - 1,
                            size >= 0,
                    ;
                    assert(r.subrange(at + i * size, at + (i + 1) * size) =~= before.subrange(
                        at + i * size,
                        at + (i + 1) * size,
                    ));
                }
            }
        }
    }
}

/// Written section headers take the bytes of the table, and the rest stays.
pub proof fn lemma_shdrs_written(
    b: Seq<u8>,
    shdrs: Seq<SectionHeader>,
    at: int,
    ctx: Ctx,
    n: int,
)
    requires
        0 <= at,
        0 <= n <= shdrs.len(),
    ensures
        ({
            let r = relocation::shdrs_written(b, shdrs, at, ctx, n);
            &&& r.len() == b.len()
            &&& forall|q: int|
                0 <= q < b.len() && !(at <= q < at + n * ctx.shdr_len()) ==> #[trigger] r[q] == b[q]
            &&& at + n * ctx.shdr_len() <= b.len() ==> forall|i: int|
                0 <= i < n ==> #[trigger] r.subrange(
                    at + i * ctx.shdr_len(),
                    at + (i + 1) * ctx.shdr_len(),
                ) == codec::shdr_bytes(shdrs[i], ctx)
        }),
    decreases n,
{
    if n > 0 {
        let size = ctx.shdr_len();
        let before = relocation::shdrs_written(b, shdrs, at, ctx, n - 1);
        let r = relocation::shdrs_written(b, shdrs, at, ctx, n);
        let place = at + (n - 1) * size;
        lemma_shdrs_written(b, shdrs, at, ctx, n - 1);
        roundtrip::lemma_shdr_bytes_len(shdrs[n - 1], ctx);
        assert(n * size == (n - 1) * size + size) by (nonlinear_arith);
        assert((n - 1) * size >= 0) by (nonlinear_arith)
            requires
                n >= 1,
                size >= 0,
        ;
        if at + n * size <= b.len() {
            assert forall|i: int| 0 <= i < n implies #[trigger] r.subrange(
                at + i * size,
                at + (i + 1) * size,
            ) == codec::shdr_bytes(shdrs[i], ctx) by {
                assert(i * size + size == (i + 1) * size) by (nonlinear_arith);
                assert(0 <= i * size <= (n - 1) * size) by (nonlinear_arith)
                    requires
                        0 <= i < n,
                        size >= 0,
                ;
                if i == n - 1 {
                    assert(r.subrange(at + i * size, at + (i + 1) * size) =~= codec::shdr_bytes(
                        shdrs[i],
                        ctx,
                    ));
                } else {
                    assert((i + 1) * size <= (n - 1) * size) by (nonlinear_arith)
                        requires
                            i + 1 <= n - 1,
                            size >= 0,
                    ;
                    assert(r.subrange(at + i * size, at + (i + 1) * size) =~= before.subrange(
                        at + i * size,
                        at + (i + 1) * size,
                    ));
                }
            }
        }
    }
}

/// The headers are written at their places, and the rest of the file stays.
pub proof fn lemma_headers_written(t: ElfState)
    requires
        t.is_encodable(),
        t.tables_apart(),
    ensures
        ({
            let w = t.headers_written().state;
            let out = w.contents;
            let size = t.ctx.phdr_len();
            let shsize = t.ctx.shdr_len();
            &&& t.headers_written().error is None
            &&& w == t.with_contents(out)
            &&& out.len() == t.contents.len()
            &&& out.subrange(0, t.ctx.ehdr_len()) == codec::header_bytes(t.header)
            &&& forall|i: int|
                0 <= i < t.phdrs.len() ==> #[trigger] out.subrange(
                    t.header.e_phoff + i * size,
                    t.header.e_phoff + (i + 1) * size,
                ) == codec::phdr_bytes(t.phdrs[i], t.ctx)
            &&& forall|i: int|
                0 <= i < t.shdrs.len() ==> #[trigger] out.subrange(
                    t.header.e_shoff + i * shsize,
                    t.header.e_shoff + (i + 1) * shsize,
                ) == codec::shdr_bytes(t.shdrs[i], t.ctx)
            &&& forall|q: int|
                0 <= q < out.len() && t.is_clear(q, q + 1) ==> #[trigger] out[q] == t.contents[q]
        }),
{
    let size = t.ctx.phdr_len();
    let shsize = t.ctx.shdr_len();
    let at = t.header.e_phoff as int;
    let shat = t.header.e_shoff as int;
    let n = t.phdrs.len() as int;
    let m = t.shdrs.len() as int;
    assert(n * size >= 0) by (nonlinear_arith)
        requires
            n >= 0,
            size >= 0,
    ;
    assert(m * shsize >= 0) by (nonlinear_arith)
        requires
            m >= 0,
            shsize >= 0,
    ;
    let start = codec::with_header(t.contents, t.header);
    roundtrip::lemma_header_bytes_len(t.header);
    let first = relocation::phdrs_written(start, t.phdrs, at, t.ctx, n);
    lemma_phdrs_written(start, t.phdrs, at, t.ctx, n);
    let out = relocation::shdrs_written(first, t.shdrs, shat, t.ctx, m);
    lemma_shdrs_written(first, t.shdrs, shat, t.ctx, m);
    assert(out.subrange(0, t.ctx.ehdr_len()) =~= codec::header_bytes(t.header));
    assert forall|i: int| 0 <= i < n implies #[trigger] out.subrange(
        at + i * size,
        at + (i + 1) * size,
    ) == codec::phdr_bytes(t.phdrs[i], t.ctx) by {
        assert((i + 1) * size <= n * size && i * size >= 0) by (nonlinear_arith)
            requires
                0 <= i < n,
                size >= 0,
        ;
        assert(i * size + size == (i + 1) * size) by (nonlinear_arith);
        assert(out.subrange(at + i * size, at + (i + 1) * size) =~= first.subrange(
            at + i * size,
            at + (i + 1) * size,
        ));
    }
}

/// Writing the headers leaves the length of the file.
pub proof fn lemma_headers_len(t: ElfState)
    requires
        t.headers_written().error is None,
    ensures
        t.headers_written().state.contents.len() == t.contents.len(),
{
    let at = t.header.e_phoff as int;
    let start = codec::with_header(t.contents, t.header);
    roundtrip::lemma_header_bytes_len(t.header);
    let first = relocation::phdrs_written(start, t.phdrs, at, t.ctx, t.phdrs.len() as int);
    lemma_phdrs_written(start, t.phdrs, at, t.ctx, t.phdrs.len() as int);
    lemma_shdrs_written(first, t.shdrs, t.header.e_shoff as int, t.ctx, t.shdrs.len() as int);
}

/// Writing the headers leaves the other bytes.
pub proof fn lemma_headers_elsewhere(t: ElfState, from: int, to: int)
    requires
        t.headers_written().error is None,
        t.ctx == codec::announced_ctx(t.header.e_ident@),
        0 <= from <= to <= t.contents.len(),
        t.is_clear(from, to),
    ensures
        ({
            let w = t.headers_written().state;
            &&& w == t.with_contents(w.contents)
            &&& w.contents.len() == t.contents.len()
            &&& w.contents.subrange(from, to) == t.contents.subrange(from, to)
        }),
{
    let at = t.header.e_phoff as int;
    let shat = t.header.e_shoff as int;
    let n = t.phdrs.len() as int;
    let m = t.shdrs.len() as int;
    let start = codec::with_header(t.contents, t.header);
    roundtrip::lemma_header_bytes_len(t.header);
    let first = relocation::phdrs_written(start, t.phdrs, at, t.ctx, n);
    lemma_phdrs_written(start, t.phdrs, at, t.ctx, n);
    let out = relocation::shdrs_written(first, t.shdrs, shat, t.ctx, m);
    lemma_shdrs_written(first, t.shdrs, shat, t.ctx, m);
    assert forall|q: int| from <= q < to implies #[trigger] out[q] == t.contents[q] by {
        assert(start[q] == t.contents[q]);
        assert(first[q] == start[q]);
    }
    assert(out.subrange(from, to) =~= t.contents.subrange(from, to));
}

/// A file to which headers were written is read with these headers.
pub proof fn lemma_reread(t: ElfState)
    requires
        t.is_encodable(),
        t.tables_apart(),
    ensures
        state::is_parsed(
            t.headers_written().state.contents,
            t.headers_written().state.as_read(),
        ),
{
    let w = t.headers_written().state;
    let out = w.contents;
    let u = w.as_read();
    let ctx = t.ctx;
    let size = ctx.phdr_len();
    let shsize = ctx.shdr_len();
    let n = t.phdrs.len() as int;
    let m = t.shdrs.len() as int;
    let at = t.header.e_phoff as int;
    let shat = t.header.e_shoff as int;
    lemma_headers_written(t);
    roundtrip::lemma_header_roundtrip(out, t.header);
    assert(codec::header_fault(out) is None) by {
        assert(out.subrange(0, 16).subrange(0, 4) =~= out.subrange(0, 4));
        assert(out.subrange(0, 16)[4] == out[4] && out.subrange(0, 16)[5] == out[5]);
    }
    assert(n * size >= 0 && (n > 0 ==> n * size >= size)) by (nonlinear_arith)
        requires
            n >= 0,
            size > 0,
    ;
    assert(m * shsize >= shsize) by (nonlinear_arith)
        requires
            m > 0,
            shsize > 0,
    ;
    lemma_count(n, size, out.len() as int);
    lemma_count(m, shsize, out.len() as int);
    assert(codec::phoff(out) == t.header.e_phoff && codec::shoff(out) == t.header.e_shoff);
    assert(codec::phnum(out) == t.header.e_phnum && codec::shnum(out) == t.header.e_shnum);
    assert(codec::phdrs_fault(out, at as usize as int, n, ctx) is None);
    assert(codec::shdrs_fault(out, shat, m, ctx) is None);
    assert(u.phdrs =~= Seq::new(
        t.header.e_phnum as nat,
        |i: int| codec::phdr_at(out, t.header.e_phoff as usize as int + i * size, ctx),
    )) by {
        assert forall|i: int| 0 <= i < n implies #[trigger] t.phdrs[i] == codec::phdr_at(
            out,
            at + i * size,
            ctx,
        ) by {
            assert((i + 1) * size <= n * size && i * size >= 0) by (nonlinear_arith)
                requires
                    0 <= i < n,
                    size >= 0,
            ;
            assert(i * size + size == (i + 1) * size) by (nonlinear_arith);
            assert(out.subrange(at + i * size, at + (i + 1) * size) == codec::phdr_bytes(
                t.phdrs[i],
                ctx,
            ));
            roundtrip::lemma_phdr_roundtrip(out, at + i * size, t.phdrs[i], ctx);
        }
    }
    assert(u.shdrs =~= Seq::new(
        codec::shdrs_len(out, shat, m, ctx) as nat,
        |i: int| codec::shdr_at(out, shat + i * shsize, ctx),
    )) by {
        assert forall|i: int| 0 <= i < m implies #[trigger] t.shdrs[i] == codec::shdr_at(
            out,
            shat + i * shsize,
            ctx,
        ) by {
            assert((i + 1) * shsize <= m * shsize && i * shsize >= 0) by (nonlinear_arith)
                requires
                    0 <= i < m,
                    shsize >= 0,
            ;
            assert(i * shsize + shsize == (i + 1) * shsize) by (nonlinear_arith);
            assert(out.subrange(shat + i * shsize, shat + (i + 1) * shsize) == codec::shdr_bytes(
                t.shdrs[i],
                ctx,
            ));
            roundtrip::lemma_shdr_roundtrip(out, shat + i * shsize, t.shdrs[i], ctx);
        }
    }
}

proof fn lemma_count(n: int, size: int, len: int)
    requires
        0 <= n,
        0 < size,
        n * size <= len,
    ensures
        n <= len / size,
{
    vstd::arithmetic::div_mod::lemma_div_is_ordered(n * size, len, size);
    vstd::arithmetic::div_mod::lemma_div_by_multiple(n, size);
}

/// A number is the same where the bytes around it are.
proof fn lemma_field_same(b: Seq<u8>, c: Seq<u8>, from: int, to: int, at: int, w: int, e: Endian)
    requires
        0 <= from <= at,
        0 <= w,
        at + w <= to,
        to <= b.len(),
        to <= c.len(),
        forall|q: int| from <= q < to ==> #[trigger] b[q] == c[q],
    ensures
        codec::field(b, at, w, e) == codec::field(c, at, w, e),
{
    reveal(codec::field);
    assert(b.subrange(at, at + w) =~= c.subrange(at, at + w));
}

/// A program header is the same where its bytes are.
proof fn lemma_phdr_same(b: Seq<u8>, c: Seq<u8>, at: int, ctx: Ctx)
    requires
        0 <= at,
        at + ctx.phdr_len() <= b.len(),
        at + ctx.phdr_len() <= c.len(),
        forall|q: int| at <= q < at + ctx.phdr_len() ==> #[trigger] b[q] == c[q],
    ensures
        codec::phdr_at(b, at, ctx) == codec::phdr_at(c, at, ctx),
{
    let e = ctx.le;
    let w = ctx.word();
    let to = at + ctx.phdr_len();
    let p = if ctx.container is Big {
        at + 8
    } else {
        at + 4
    };
    lemma_field_same(b, c, at, to, at, 4, e);
    lemma_field_same(
        b,
        c,
        at,
        to,
        if ctx.container is Big {
            at + 4
        } else {
            at + 24
        },
        4,
        e,
    );
    lemma_field_same(b, c, at, to, p, w, e);
    lemma_field_same(b, c, at, to, p + w, w, e);
    lemma_field_same(b, c, at, to, p + 2 * w, w, e);
    lemma_field_same(b, c, at, to, p + 3 * w, w, e);
    lemma_field_same(b, c, at, to, p + 4 * w, w, e);
    lemma_field_same(b, c, at, to, to - w, w, e);
}

/// A section header is the same where its bytes are.
proof fn lemma_shdr_same(b: Seq<u8>, c: Seq<u8>, at: int, ctx: Ctx)
    requires
        0 <= at,
        at + ctx.shdr_len() <= b.len(),
        at + ctx.shdr_len() <= c.len(),
        forall|q: int| at <= q < at + ctx.shdr_len() ==> #[trigger] b[q] == c[q],
    ensures
        codec::shdr_at(b, at, ctx) == codec::shdr_at(c, at, ctx),
{
    let e = ctx.le;
    let w = ctx.word();
    let to = at + ctx.shdr_len();
    lemma_field_same(b, c, at, to, at, 4, e);
    lemma_field_same(b, c, at, to, at + 4, 4, e);
    lemma_field_same(b, c, at, to, at + 8, w, e);
    lemma_field_same(b, c, at, to, at + 8 + w, w, e);
    lemma_field_same(b, c, at, to, at + 8 + 2 * w, w, e);
    lemma_field_same(b, c, at, to, at + 8 + 3 * w, w, e);
    lemma_field_same(b, c, at, to, at + 8 + 4 * w, 4, e);
    lemma_field_same(b, c, at, to, at + 12 + 4 * w, 4, e);
    lemma_field_same(b, c, at, to, at + 16 + 4 * w, w, e);
    lemma_field_same(b, c, at, to, at + 16 + 5 * w, w, e);
}

/// The numbers of the file header are the same where its bytes are.
proof fn lemma_header_same(b: Seq<u8>, c: Seq<u8>, h: Header, g: Header)
    requires
        codec::header_fault(b) is None,
        b.len() == c.len(),
        forall|q: int| 0 <= q < codec::announced_ctx(b).ehdr_len() ==> #[trigger] b[q] == c[q],
        codec::starts_with_header(b, h),
        codec::starts_with_header(c, g),
    ensures
        codec::announced_ctx(b) == codec::announced_ctx(c),
        h.e_phoff == g.e_phoff,
        h.e_shoff == g.e_shoff,
        h.e_phnum == g.e_phnum,
        h.e_shnum == g.e_shnum,
        h.e_shstrndx == g.e_shstrndx,
{
    let ctx = codec::announced_ctx(b);
    let e = ctx.le;
    let w = ctx.word();
    let to = ctx.ehdr_len();
    assert(b[4] == c[4] && b[5] == c[5]);
    lemma_field_same(b, c, 0, to, 24 + w, w, e);
    lemma_field_same(b, c, 0, to, 24 + 2 * w, w, e);
    lemma_field_same(b, c, 0, to, 32 + 3 * w, 2, e);
    lemma_field_same(b, c, 0, to, 36 + 3 * w, 2, e);
    lemma_field_same(b, c, 0, to, 38 + 3 * w, 2, e);
}

/// Whether bytes hold the same headers and section names as a file.
pub open spec fn same_headers(s: ElfState, out: Seq<u8>) -> bool {
    let names = s.shdrs[s.header.e_shstrndx as int];
    &&& out.len() == s.contents.len()
    &&& s.header.e_phoff <= usize::MAX
    &&& s.header.e_shoff <= usize::MAX
    &&& forall|q: int|
        0 <= q < out.len() && #[trigger] out[q] != s.contents[q] ==> s.is_clear(q, q + 1) && apart(
            q,
            q + 1,
            names.sh_offset as int,
            names.sh_offset + names.sh_size,
        )
}

/// Bytes with the headers and section names of a file can be read.
pub proof fn lemma_same_headers_read(data: Seq<u8>, s: ElfState, out: Seq<u8>)
    requires
        state::is_parsed(data, s),
        same_headers(s, out),
    ensures
        state::parse_fault(out) is None,
{
    let ctx = s.ctx;
    let e = ctx.le;
    let w = ctx.word();
    let to = ctx.ehdr_len();
    let shat = s.header.e_shoff as int;
    let shsize = ctx.shdr_len();
    let m = s.shdrs.len() as int;
    assert forall|q: int| 0 <= q < to implies #[trigger] data[q] == out[q] by {}
    assert(out.subrange(0, 4) =~= data.subrange(0, 4));
    assert(data[4] == out[4] && data[5] == out[5]);
    lemma_field_same(data, out, 0, to, 24 + w, w, e);
    lemma_field_same(data, out, 0, to, 24 + 2 * w, w, e);
    lemma_field_same(data, out, 0, to, 32 + 3 * w, 2, e);
    lemma_field_same(data, out, 0, to, 36 + 3 * w, 2, e);
    if shat != 0 {
        assert(m >= 1);
        assert(m * shsize >= shsize) by (nonlinear_arith)
            requires
                m >= 1,
                shsize > 0,
        ;
        assert forall|q: int| shat <= q < shat + shsize implies #[trigger] data[q] == out[q] by {
            assert(!s.is_clear(q, q + 1));
        }
        lemma_shdr_same(data, out, shat, ctx);
    }
}

/// Bytes with the headers and section names of a file are read with these.
pub proof fn lemma_same_headers(data: Seq<u8>, s: ElfState, out: Seq<u8>, r: ElfState)
    requires
        state::is_parsed(data, s),
        same_headers(s, out),
        state::is_parsed(out, r),
    ensures
        r.contents == out,
        r.phdrs == s.phdrs,
        r.shdrs == s.shdrs,
        r.shstrtab == s.shstrtab,
        r.ctx == s.ctx,
        r.replaced.len() == 0,
{
    let ctx = s.ctx;
    let size = ctx.phdr_len();
    let shsize = ctx.shdr_len();
    let n = s.phdrs.len() as int;
    let m = s.shdrs.len() as int;
    let at = s.header.e_phoff as int;
    let shat = s.header.e_shoff as int;
    assert forall|q: int| 0 <= q < ctx.ehdr_len() implies #[trigger] data[q] == out[q] by {}
    lemma_header_same(data, out, s.header, r.header);
    assert(n * size >= 0) by (nonlinear_arith)
        requires
            n >= 0,
            size >= 0,
    ;
    assert forall|i: int| 0 <= i < n implies #[trigger] s.phdrs[i] == codec::phdr_at(
        out,
        at + i * size,
        ctx,
    ) by {
        assert((i + 1) * size <= n * size && i * size >= 0) by (nonlinear_arith)
            requires
                0 <= i < n,
                size >= 0,
        ;
        assert(i * size + size == (i + 1) * size) by (nonlinear_arith);
        assert(at + n * size <= data.len());
        assert forall|q: int| at + i * size <= q < at + i * size + size implies #[trigger] data[q]
            == out[q] by {
            assert(!s.is_clear(q, q + 1));
        }
        lemma_phdr_same(data, out, at + i * size, ctx);
    }
    assert(r.phdrs =~= s.phdrs);
    if shat != 0 {
        assert(m >= 1);
        assert(m * shsize >= shsize) by (nonlinear_arith)
            requires
                m >= 1,
                shsize > 0,
        ;
        assert(shat + m * shsize <= data.len());
        assert forall|i: int| 0 <= i < m implies #[trigger] s.shdrs[i] == codec::shdr_at(
            out,
            shat + i * shsize,
            ctx,
        ) by {
            assert((i + 1) * shsize <= m * shsize && i * shsize >= 0) by (nonlinear_arith)
                requires
                    0 <= i < m,
                    shsize >= 0,
            ;
            assert(i * shsize + shsize == (i + 1) * shsize) by (nonlinear_arith);
            assert forall|q: int| shat + i * shsize <= q < shat + i * shsize + shsize implies
                #[trigger] data[q] == out[q] by {
                assert(!s.is_clear(q, q + 1));
            }
            lemma_shdr_same(data, out, shat + i * shsize, ctx);
        }
        assert(s.shdrs[0] == codec::shdr_at(out, shat, ctx));
        assert(codec::shdr_at(out, shat, ctx) == codec::shdr_at(data, shat, ctx));
    }
    assert(r.shdrs =~= s.shdrs);
    assert(r.shstrtab =~= s.shstrtab) by {
        let h = s.shdrs[s.header.e_shstrndx as int];
        if 0 < s.header.e_shstrndx < s.shdrs.len() && h.sh_offset + h.sh_size <= data.len() {
            assert(out.subrange(h.sh_offset as int, h.sh_offset + h.sh_size) =~= data.subrange(
                h.sh_offset as int,
                h.sh_offset + h.sh_size,
            ));
        }
    }
}

} // verus!
