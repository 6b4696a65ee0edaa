//! Reports that help to find out what is wrong with the bytes of a file.

use crate::text;
use vstd::prelude::*;
use vstd::utf8::*;

verus! {

/// What a report says of a section.
#[derive(Debug, Clone)]
pub struct SectionDebugInfo {
    pub index: usize,
    pub name: String,
    pub offset: u64,
    pub size: u64,
    pub type_: u32,
    pub flags: u64,
    pub addr: u64,
}

/// What a report says of a program header.
#[derive(Debug, Clone)]
pub struct ProgramHeaderDebugInfo {
    pub index: usize,
    pub type_: u32,
    pub offset: u64,
    pub vaddr: u64,
    pub paddr: u64,
    pub filesz: u64,
    pub memsz: u64,
    pub flags: u32,
    pub align: u64,
}

/// The positions below `n` at which bytes differ.
pub open spec fn differences(a: Seq<u8>, b: Seq<u8>, n: int) -> Seq<int>
    decreases n,
{
    if n <= 0 {
        Seq::empty()
    } else if a[n - 1] != b[n - 1] {
        differences(a, b, n - 1).push(n - 1)
    } else {
        differences(a, b, n - 1)
    }
}

/// The line on different lengths.
pub open spec fn length_line(a: Seq<u8>, b: Seq<u8>, context: Seq<char>) -> Seq<char> {
    context + ": Length mismatch: "@ + text::decimal(a.len() as int) + " vs "@ + text::decimal(
        b.len() as int,
    ) + " bytes"@
}

/// The line on the different bytes at a position.
pub open spec fn byte_line(a: Seq<u8>, b: Seq<u8>, context: Seq<char>, i: int) -> Seq<char> {
    context + ": Byte diff at offset 0x"@ + text::hex(i) + ": 0x"@ + text::zero_padded(
        text::hex(a[i] as int),
        2,
    ) + " vs 0x"@ + text::zero_padded(text::hex(b[i] as int), 2)
}

/// The line on differences that have none of their own.
pub open spec fn rest_line(context: Seq<char>, count: int, last: int) -> Seq<char> {
    context + ": ... and "@ + text::decimal(count) + " more differences (last at 0x"@ + text::hex(
        last,
    ) + ")"@
}

/// The report on two byte strings: their lengths where they differ, the first ten
/// differences and the number of the others; or that they are identical.
pub open spec fn comparison(a: Seq<u8>, b: Seq<u8>, context: Seq<char>) -> Seq<Seq<char>> {
    let common = if a.len() < b.len() {
        a.len()
    } else {
        b.len()
    };
    let at = differences(a, b, common as int);
    let shown = if at.len() < 10 {
        at.len()
    } else {
        10
    };
    let lengths = if a.len() != b.len() {
        seq![length_line(a, b, context)]
    } else {
        Seq::empty()
    };
    let others = if at.len() > 10 {
        seq![rest_line(context, at.len() - 10, at.last())]
    } else {
        Seq::empty()
    };
    let verdict = if at.len() == 0 && a.len() == b.len() {
        seq![context + ": ✓ Identical"@]
    } else {
        Seq::empty()
    };
    lengths + Seq::new(shown, |k: int| byte_line(a, b, context, at[k])) + others + verdict
}

/// Adds a line to a report.
fn add_line(report: &mut Vec<String>, line: String)
    ensures
        text::texts(final(report)@) == text::texts(old(report)@).push(line@),
{
    let ghost before = report@;
    report.push(line);
    assert(text::texts(report@) =~= text::texts(before).push(line@));
}

/// Compares two byte strings and reports the differences.
pub fn compare_bytes(a: &[u8], b: &[u8], context: &str) -> (r: Vec<String>)
    ensures
        text::texts(r@) == comparison(a@, b@, context@),
{
    let mut report: Vec<String> = Vec::new();
    assert(text::texts(report@) =~= Seq::<Seq<char>>::empty());
    let min_len: usize = if a.len() < b.len() {
        a.len()
    } else {
        b.len()
    };
    if a.len() != b.len() {
        let mut line = context.to_owned();
        line.append(": Length mismatch: ");
        line.append(text::decimal_text(a.len() as u64).as_str());
        line.append(" vs ");
        line.append(text::decimal_text(b.len() as u64).as_str());
        line.append(" bytes");
        add_line(&mut report, line);
    }
    let ghost lengths = text::texts(report@);
    let mut count: usize = 0;
    let mut last: usize = 0;
    let mut i: usize = 0;
    assert(lengths + Seq::new(0, |k: int| byte_line(a@, b@, context@, 0)) =~= lengths);
    while i < min_len
        invariant
            i <= min_len,
            min_len <= a@.len(),
            min_len <= b@.len(),
            count <= i,
            count == differences(a@, b@, i as int).len(),
            count > 0 ==> last == differences(a@, b@, i as int).last(),
            text::texts(report@) == lengths + Seq::new(
                if count < 10 {
                    count as nat
                } else {
                    10
                },
                |k: int| byte_line(a@, b@, context@, differences(a@, b@, i as int)[k]),
            ),
        decreases min_len - i,
    {
        let ghost at = differences(a@, b@, i as int);
        let ghost next = differences(a@, b@, i + 1);
        if a[i] != b[i] {
            assert(next =~= at.push(i as int));
            if count < 10 {
                let mut line = context.to_owned();
                line.append(": Byte diff at offset 0x");
                line.append(text::hex_text(i as u64).as_str());
                line.append(": 0x");
                line.append(text::padded_hex_text(a[i] as u64, 2).as_str());
                line.append(" vs 0x");
                line.append(text::padded_hex_text(b[i] as u64, 2).as_str());
                add_line(&mut report, line);
            }
            count = count + 1;
            last = i;
        }
        assert(text::texts(report@) =~= lengths + Seq::new(
            if count < 10 {
                count as nat
            } else {
                10
            },
            |k: int| byte_line(a@, b@, context@, next[k]),
        ));
        i = i + 1;
    }
    if count > 10 {
        let mut line = context.to_owned();
        line.append(": ... and ");
        line.append(text::decimal_text((count - 10) as u64).as_str());
        line.append(" more differences (last at 0x");
        line.append(text::hex_text(last as u64).as_str());
        line.append(")");
        add_line(&mut report, line);
    }
    if count == 0 && a.len() == b.len() {
        let mut line = context.to_owned();
        line.append(": ✓ Identical");
        add_line(&mut report, line);
    }
    assert(text::texts(report@) =~= comparison(a@, b@, context@));
    report
}

/// The positions at which bytes differ are in order, and there are none where the bytes
/// are equal.
proof fn lemma_differences(a: Seq<u8>, b: Seq<u8>, n: int)
    requires
        0 <= n <= a.len(),
        n <= b.len(),
    ensures
        (differences(a, b, n).len() == 0) == (a.take(n) == b.take(n)),
    decreases n,
{
    if n <= 0 {
        assert(a.take(0) =~= b.take(0));
    } else {
        lemma_differences(a, b, n - 1);
        if differences(a, b, n).len() == 0 {
            assert(a.take(n) =~= a.take(n - 1).push(a[n - 1]));
            assert(b.take(n) =~= b.take(n - 1).push(b[n - 1]));
        } else {
            if a.take(n) == b.take(n) {
                assert(a.take(n)[n - 1] == a[n - 1]);
                assert(b.take(n)[n - 1] == b[n - 1]);
                assert(a.take(n - 1) =~= a.take(n).take(n - 1));
                assert(b.take(n - 1) =~= b.take(n).take(n - 1));
            }
        }
    }
}

/// Byte strings are reported to be identical if and only if they are, and no report has
/// more than twelve lines.
pub proof fn law_identical_is_reported_of_equal_bytes(a: Seq<u8>, b: Seq<u8>, context: Seq<char>)
    ensures
        (a == b) == (comparison(a, b, context) == seq![context + ": ✓ Identical"@]),
        comparison(a, b, context).len() <= 12,
{
    let common = if a.len() < b.len() {
        a.len() as int
    } else {
        b.len() as int
    };
    let report = comparison(a, b, context);
    let line = context + ": ✓ Identical"@;
    let at = differences(a, b, common);
    lemma_differences(a, b, common);
    reveal_strlit(": ✓ Identical");
    reveal_strlit(": Length mismatch: ");
    reveal_strlit(": Byte diff at offset 0x");
    let n = context.len() as int;
    assert(line[n + 2] == '✓');
    if a.len() == b.len() {
        assert(a.take(common) =~= a);
        assert(b.take(common) =~= b);
        if a == b {
            assert(report =~= seq![line]);
        } else {
            assert(report[0] == byte_line(a, b, context, at[0]));
            assert(report[0][n + 2] == 'B');
        }
    } else {
        assert(report[0] == length_line(a, b, context));
        assert(report[0][n + 2] == 'L');
    }
}

/// The first `n` bytes in base sixteen, each followed by a space, with one more space
/// before the ninth.
pub open spec fn hex_columns(chunk: Seq<u8>, n: int) -> Seq<char>
    decreases n,
{
    if n <= 0 {
        Seq::empty()
    } else {
        let gap = if n == 9 {
            " "@
        } else {
            Seq::empty()
        };
        hex_columns(chunk, n - 1) + gap + text::zero_padded(text::hex(chunk[n - 1] as int), 2)
            + " "@
    }
}

/// A byte as a printable character; a dot where it is none.
pub open spec fn printable(b: u8) -> char {
    if 32 <= b <= 126 {
        b as char
    } else {
        '.'
    }
}

/// The line of a dump for up to sixteen bytes that stand at `addr`.
pub open spec fn dump_line(chunk: Seq<u8>, addr: int) -> Seq<char> {
    text::zero_padded(text::hex(addr), 8) + ": "@ + hex_columns(chunk, chunk.len() as int)
        + Seq::new((3 * (16 - chunk.len())) as nat, |i: int| ' ') + " |"@ + Seq::new(
        chunk.len(),
        |i: int| printable(chunk[i]),
    ) + "|"@
}

/// The `k`-th chunk of sixteen bytes of those from `start` up to `end`.
pub open spec fn chunk_at(data: Seq<u8>, start: int, end: int, k: int) -> Seq<u8> {
    data.subrange(
        start + 16 * k,
        if start + 16 * k + 16 < end {
            start + 16 * k + 16
        } else {
            end
        },
    )
}

/// The dump of `length` bytes from `offset` on, as far as there are any.
pub open spec fn dump(data: Seq<u8>, offset: int, length: int, label: Seq<char>) -> Seq<
    Seq<char>,
> {
    let start = if offset < data.len() {
        offset
    } else {
        data.len() as int
    };
    let end = if offset + length < data.len() {
        offset + length
    } else {
        data.len() as int
    };
    seq!["=== "@ + label + " ==="@] + Seq::new(
        ((end - start + 15) / 16) as nat,
        |k: int| dump_line(chunk_at(data, start, end, k), start + 16 * k),
    )
}

/// The printable characters of bytes.
fn printable_text(chunk: &[u8]) -> (r: String)
    ensures
        r@ == Seq::new(chunk@.len(), |i: int| printable(chunk@[i])),
{
    let ghost chars = Seq::new(chunk@.len(), |i: int| printable(chunk@[i]));
    let mut bytes: Vec<u8> = Vec::new();
    let mut i: usize = 0;
    while i < chunk.len()
        invariant
            i <= chunk@.len(),
            bytes@.len() == i,
            forall|j: int| 0 <= j < i ==> bytes@[j] == printable(chunk@[j]) as u8,
        decreases chunk.len() - i,
    {
        let b: u8 = chunk[i];
        if b >= 32 && b <= 126 {
            bytes.push(b);
        } else {
            bytes.push(46);
        }
        i = i + 1;
    }
    proof {
        assert(is_ascii_chars(chars));
        is_ascii_chars_encode_utf8(chars);
        assert(bytes@ =~= encode_utf8(chars));
        encode_utf8_valid_utf8(chars);
        encode_utf8_decode_utf8(chars);
    }
    text::lossy(bytes.as_slice())
}

/// One line of a dump.
fn dump_line_text(chunk: &[u8], addr: usize) -> (r: String)
    requires
        chunk@.len() <= 16,
    ensures
        r@ == dump_line(chunk@, addr as int),
{
    let mut line = text::padded_hex_text(addr as u64, 8);
    line.append(": ");
    let ghost head = line@;
    let mut j: usize = 0;
    assert(head + hex_columns(chunk@, 0) =~= head);
    while j < chunk.len()
        invariant
            j <= chunk@.len(),
            line@ == head + hex_columns(chunk@, j as int),
        decreases chunk.len() - j,
    {
        if j == 8 {
            line.append(" ");
        }
        line.append(text::padded_hex_text(chunk[j] as u64, 2).as_str());
        line.append(" ");
        assert(line@ =~= head + hex_columns(chunk@, j + 1));
        j = j + 1;
    }
    let ghost columns = line@;
    let n: usize = chunk.len();
    assert(columns + Seq::new(0, |i: int| ' ') =~= columns);
    while j < 16
        invariant
            n <= j <= 16,
            line@ == columns + Seq::new((3 * (j - n)) as nat, |i: int| ' '),
        decreases 16 - j,
    {
        line.append("   ");
        proof {
            reveal_strlit("   ");
            assert(line@ =~= columns + Seq::new((3 * (j + 1 - n)) as nat, |i: int| ' '));
        }
        j = j + 1;
    }
    line.append(" |");
    line.append(printable_text(chunk).as_str());
    line.append("|");
    line
}

/// Dumps `length` bytes from `offset` on, sixteen to a line.
pub fn hex_dump(data: &[u8], offset: usize, length: usize, label: &str) -> (r: Vec<String>)
    requires
        offset + length <= usize::MAX,
    ensures
        text::texts(r@) == dump(data@, offset as int, length as int, label@),
{
    let mut lines: Vec<String> = Vec::new();
    let mut title = "=== ".to_owned();
    title.append(label);
    title.append(" ===");
    add_line(&mut lines, title);
    let start: usize = if offset < data.len() {
        offset
    } else {
        data.len()
    };
    let end: usize = if offset + length < data.len() {
        offset + length
    } else {
        data.len()
    };
    let ghost whole = dump(data@, offset as int, length as int, label@);
    let mut at: usize = start;
    let ghost mut k: int = 0;
    assert(text::texts(lines@) =~= whole.take(1));
    while at < end
        invariant
            start <= at <= end <= data@.len(),
            k >= 0,
            at == start + 16 * k || (at == end && start + 16 * (k - 1) < end && end <= start + 16
                * k),
            start == (if offset < data@.len() {
                offset as int
            } else {
                data@.len() as int
            }),
            end == (if offset + length < data@.len() {
                offset + length
            } else {
                data@.len() as int
            }),
            whole == dump(data@, offset as int, length as int, label@),
            k <= whole.len() - 1,
            text::texts(lines@) == whole.take(k + 1),
        decreases end - at,
    {
        let stop: usize = if end - at > 16 {
            at + 16
        } else {
            end
        };
        let chunk = vstd::slice::slice_subrange(data, at, stop);
        assert(chunk@ =~= chunk_at(data@, start as int, end as int, k));
        add_line(&mut lines, dump_line_text(chunk, at));
        assert(text::texts(lines@) =~= whole.take(k + 2));
        proof {
            k = k + 1;
        }
        at = stop;
    }
    assert(text::texts(lines@) =~= whole);
    lines
}

/// The report on the class or the byte order that `b` stands for, `one` and `two`
/// being the names of the two that there are.
pub open spec fn kind_line(b: u8, one: Seq<char>, two: Seq<char>, other: Seq<char>) -> Seq<char> {
    if b == 1 {
        one
    } else if b == 2 {
        two
    } else {
        other + text::decimal(b as int)
    }
}

/// The report on the identification of a file.
pub open spec fn validation(data: Seq<u8>) -> Seq<Seq<char>> {
    if data.len() < 64 {
        seq!["File too small to be valid ELF"@]
    } else {
        seq![
            if data.subrange(0, 4) == seq![0x7fu8, 0x45, 0x4c, 0x46] {
                "✓ Valid ELF magic"@
            } else {
                "Invalid ELF magic number"@
            },
            kind_line(data[4], "✓ ELF32"@, "✓ ELF64"@, "✗ Invalid ELF class: "@),
            kind_line(
                data[5],
                "✓ Little endian"@,
                "✓ Big endian"@,
                "✗ Invalid endianness: "@,
            ),
        ]
    }
}

/// The line on the class or the byte order.
fn kind_text(b: u8, one: &str, two: &str, other: &str) -> (r: String)
    ensures
        r@ == kind_line(b, one@, two@, other@),
{
    match b {
        1 => one.to_owned(),
        2 => two.to_owned(),
        _ => {
            let mut line = other.to_owned();
            line.append(text::decimal_text(b as u64).as_str());
            line
        },
    }
}

/// Reports on the identification of a file.
pub fn validate_elf_structure(data: &[u8]) -> (r: Vec<String>)
    ensures
        text::texts(r@) == validation(data@),
{
    let mut issues: Vec<String> = Vec::new();
    if data.len() < 64 {
        add_line(&mut issues, "File too small to be valid ELF".to_owned());
        assert(text::texts(issues@) =~= validation(data@));
        return issues;
    }
    assert((data@.subrange(0, 4) =~= seq![0x7fu8, 0x45, 0x4c, 0x46]) == (data@[0] == 0x7f
        && data@[1] == 0x45 && data@[2] == 0x4c && data@[3] == 0x46)) by {
        let s = data@.subrange(0, 4);
        assert(s[0] == data@[0] && s[1] == data@[1] && s[2] == data@[2] && s[3] == data@[3]);
    }
    if data[0] == 0x7f && data[1] == 0x45 && data[2] == 0x4c && data[3] == 0x46 {
        add_line(&mut issues, "✓ Valid ELF magic".to_owned());
    } else {
        add_line(&mut issues, "Invalid ELF magic number".to_owned());
    }
    add_line(&mut issues, kind_text(data[4], "✓ ELF32", "✓ ELF64", "✗ Invalid ELF class: "));
    add_line(
        &mut issues,
        kind_text(data[5], "✓ Little endian", "✓ Big endian", "✗ Invalid endianness: "),
    );
    assert(text::texts(issues@) =~= validation(data@));
    issues
}

/// Reads the name of a section from the section names that stand at `shstrtab_offset`.
pub fn get_section_name(data: &[u8], shstrtab_offset: usize, name_offset: usize) -> (r: String)
    requires
        shstrtab_offset + name_offset <= usize::MAX,
    ensures
        r@ == (if shstrtab_offset + name_offset < data@.len() {
            text::string_at(data@, shstrtab_offset + name_offset)
        } else {
            "<invalid offset 0x"@ + text::hex(name_offset as int) + ">"@
        }),
{
    let start: usize = shstrtab_offset + name_offset;
    if start >= data.len() {
        let mut line = "<invalid offset 0x".to_owned();
        line.append(text::hex_text(name_offset as u64).as_str());
        line.append(">");
        return line;
    }
    text::get_string_at(data, start)
}

} // verus!
