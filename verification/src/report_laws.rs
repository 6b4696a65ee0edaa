//! What the reports on bytes hold, told by positions and characters.

use crate::text;
use crate::types::ErrorView;
use crate::writer_debug;
use vstd::prelude::*;

verus! {

/// The positions at which two byte strings differ, as far as both go.
pub open spec fn differing(a: Seq<u8>, b: Seq<u8>) -> Seq<int> {
    let common = if a.len() < b.len() {
        a.len()
    } else {
        b.len()
    };
    Seq::new(common, |i: int| i).filter(|i: int| a[i] != b[i])
}

proof fn lemma_differences_filtered(a: Seq<u8>, b: Seq<u8>, n: int)
    requires
        0 <= n,
    ensures
        writer_debug::differences(a, b, n) == Seq::new(n as nat, |i: int| i).filter(
            |i: int| a[i] != b[i],
        ),
    decreases n,
{
    reveal(Seq::filter);
    if n > 0 {
        lemma_differences_filtered(a, b, n - 1);
        let all = Seq::new(n as nat, |i: int| i);
        assert(all.drop_last() =~= Seq::new((n - 1) as nat, |i: int| i));
        assert(all.last() == n - 1);
    }
}

/// A report on two byte strings has a line on their lengths where these differ, one for each
/// of the first ten positions at which bytes differ, and one for the others. Only that of
/// identical bytes has the line that says so, and no other.
pub proof fn law_comparisons_list_the_differences(a: Seq<u8>, b: Seq<u8>, context: Seq<char>)
    ensures
        ({
            let r = writer_debug::comparison(a, b, context);
            let d = differing(a, b);
            let first = if a.len() != b.len() {
                1int
            } else {
                0int
            };
            &&& a.len() != b.len() ==> r.len() > 0 && r[0] == context + ": Length mismatch: "@
                + text::decimal(a.len() as int) + " vs "@ + text::decimal(b.len() as int)
                + " bytes"@
            &&& forall|k: int|
                0 <= k < d.len() && k < 10 ==> first + k < r.len() && r[first + k] == context
                    + ": Byte diff at offset 0x"@ + text::hex(#[trigger] d[k]) + ": 0x"@
                    + text::zero_padded(text::hex(a[d[k]] as int), 2) + " vs 0x"@
                    + text::zero_padded(text::hex(b[d[k]] as int), 2)
            &&& d.len() > 10 ==> r.len() == first + 11 && r[first + 10] == context + ": ... and "@
                + text::decimal(d.len() - 10) + " more differences (last at 0x"@ + text::hex(
                d.last(),
            ) + ")"@
            &&& d.len() <= 10 && a != b ==> r.len() == first + d.len()
            &&& a == b ==> r == seq![context + ": ✓ Identical"@]
        }),
{
    let common = if a.len() < b.len() {
        a.len()
    } else {
        b.len()
    };
    lemma_differences_filtered(a, b, common as int);
    let d = differing(a, b);
    let r = writer_debug::comparison(a, b, context);
    if a == b {
        lemma_no_differences(a, common as int);
        assert(r =~= seq![context + ": ✓ Identical"@]);
    } else if d.len() == 0 && a.len() == b.len() {
        assert forall|i: int| 0 <= i < a.len() implies a[i] == b[i] by {
            lemma_difference_listed(a, b, common as int, i);
        }
        assert(a =~= b);
    }
}

proof fn lemma_no_differences(a: Seq<u8>, n: int)
    ensures
        writer_debug::differences(a, a, n) == Seq::<int>::empty(),
    decreases n,
{
    if n > 0 {
        lemma_no_differences(a, n - 1);
    }
}

proof fn lemma_difference_listed(a: Seq<u8>, b: Seq<u8>, n: int, i: int)
    requires
        0 <= i < n,
    ensures
        a[i] != b[i] ==> writer_debug::differences(a, b, n).len() > 0,
    decreases n,
{
    if i < n - 1 {
        lemma_difference_listed(a, b, n - 1, i);
    }
}

/// A numeral has only digits, in lower case, and does not begin with a zero but for that of
/// zero itself.
pub proof fn law_numerals_are_plain(n: nat, base: nat)
    requires
        2 <= base <= 16,
    ensures
        ({
            let s = text::numeral(n, base);
            &&& s.len() > 0
            &&& n > 0 ==> s[0] != '0'
            &&& n == 0 ==> s == seq!['0']
            &&& forall|i: int|
                0 <= i < s.len() ==> '0' <= #[trigger] s[i] <= '9' || base > 10 && 'a' <= s[i]
                    <= 'f'
        }),
    decreases n,
{
    let s = text::numeral(n, base);
    if n < base {
        assert(s =~= seq![text::digit(n as int)]);
    } else {
        assert(0 < n / base < n) by (nonlinear_arith)
            requires
                n >= base,
                base >= 2,
        ;
        assert(n % base < base) by (nonlinear_arith)
            requires
                base >= 2,
        ;
        law_numerals_are_plain(n / base, base);
        let front = text::numeral(n / base, base);
        assert(s == front.push(text::digit((n % base) as int)));
        assert forall|i: int| 0 <= i < s.len() implies '0' <= #[trigger] s[i] <= '9' || base > 10
            && 'a' <= s[i] <= 'f' by {
            if i < front.len() {
                assert(s[i] == front[i]);
            }
        }
        assert(s[0] == front[0]);
    }
}

/// Zeros are put in front of a text, just as many as it needs for its width.
pub proof fn law_padding_is_zeros(s: Seq<char>, width: int)
    ensures
        ({
            let p = text::zero_padded(s, width);
            let more = p.len() - s.len();
            &&& p.len() == (if s.len() < width {
                width
            } else {
                s.len() as int
            })
            &&& p.skip(more) == s
            &&& forall|i: int| 0 <= i < more ==> #[trigger] p[i] == '0'
        }),
{
    let p = text::zero_padded(s, width);
    assert(p.skip(p.len() - s.len()) =~= s);
}

/// The columns of a dump take three characters to a byte, two digits and a space, with one
/// more space before the ninth.
pub proof fn law_dump_columns(chunk: Seq<u8>, n: int, i: int)
    requires
        0 <= i < n <= chunk.len() <= 16,
    ensures
        ({
            let line = writer_debug::hex_columns(chunk, n);
            let at = if i < 8 {
                3 * i
            } else {
                3 * i + 1
            };
            &&& line.len() == (if n <= 8 {
                3 * n
            } else {
                3 * n + 1
            })
            &&& line.subrange(at, at + 2) == text::zero_padded(text::hex(chunk[i] as int), 2)
            &&& line[at + 2] == ' '
            &&& n > 8 ==> line[24] == ' '
        }),
    decreases n,
{
    reveal_strlit(" ");
    let line = writer_debug::hex_columns(chunk, n);
    let digits = text::zero_padded(text::hex(chunk[n - 1] as int), 2);
    lemma_two_digits(chunk[n - 1]);
    let at = if i < 8 {
        3 * i
    } else {
        3 * i + 1
    };
    if n > 1 {
        let before = writer_debug::hex_columns(chunk, n - 1);
        law_dump_columns(chunk, n - 1, if i < n - 1 { i } else { 0 });
        assert forall|q: int| 0 <= q < before.len() implies line[q] == before[q] by {}
        if i < n - 1 {
            assert(line.subrange(at, at + 2) =~= before.subrange(at, at + 2));
        } else {
            assert(line.subrange(at, at + 2) =~= digits);
        }
    } else {
        assert(writer_debug::hex_columns(chunk, 0) =~= Seq::empty());
        assert(line =~= digits + " "@);
        assert(line.subrange(at, at + 2) =~= digits);
    }
}

/// A byte takes two digits.
proof fn lemma_two_digits(b: u8)
    ensures
        text::zero_padded(text::hex(b as int), 2).len() == 2,
{
    reveal_with_fuel(text::numeral, 3);
    assert(b / 16 < 16);
}

/// A dump of a file has a line with its label and one for each sixteen bytes. Such a line has
/// the place of its first byte, the columns, and each byte as a character where it is
/// printable.
pub proof fn law_dumps_show_all_bytes(
    data: Seq<u8>,
    offset: int,
    length: int,
    label: Seq<char>,
    q: int,
)
    requires
        0 <= offset <= q < offset + length,
        q < data.len(),
        data.len() <= 0xffff_ffff,
    ensures
        ({
            let r = writer_debug::dump(data, offset, length, label);
            let k = (q - offset) / 16;
            let i = (q - offset) % 16;
            let line = r[k + 1];
            let end = if offset + length < data.len() {
                offset + length
            } else {
                data.len() as int
            };
            &&& r.len() == 1 + (end - offset + 15) / 16
            &&& r[0] == "=== "@ + label + " ==="@
            &&& k + 1 < r.len()
            &&& line.subrange(0, 8) == text::zero_padded(text::hex(offset + 16 * k), 8)
            &&& line[8] == ':'
            &&& line[9] == ' '
            &&& line.subrange(
                if i < 8 {
                    10 + 3 * i
                } else {
                    11 + 3 * i
                },
                if i < 8 {
                    12 + 3 * i
                } else {
                    13 + 3 * i
                },
            ) == text::zero_padded(text::hex(data[q] as int), 2)
            &&& line.last() == '|'
            &&& {
                let m = if offset + 16 * k + 16 < end {
                    16
                } else {
                    end - offset - 16 * k
                };
                let bar = if m > 8 {
                    61int
                } else {
                    60int
                };
                &&& line.len() == bar + m + 1
                &&& line[bar - 1] == '|'
                &&& line[bar + i] == (if 32 <= data[q] <= 126 {
                    data[q] as char
                } else {
                    '.'
                })
            }
        }),
{
    reveal_strlit(": ");
    reveal_strlit(" |");
    reveal_strlit("|");
    let r = writer_debug::dump(data, offset, length, label);
    let k = (q - offset) / 16;
    let i = (q - offset) % 16;
    let end = if offset + length < data.len() {
        offset + length
    } else {
        data.len() as int
    };
    assert(0 <= k && 16 * k + i == q - offset && 0 <= i < 16);
    let chunk = writer_debug::chunk_at(data, offset, end, k);
    let addr = offset + 16 * k;
    let line = r[k + 1];
    assert(k < (end - offset + 15) / 16);
    assert(line == writer_debug::dump_line(chunk, addr));
    assert(chunk[i] == data[q]);
    let n = chunk.len() as int;
    lemma_eight_digits(addr as nat);
    let head = text::zero_padded(text::hex(addr), 8);
    let columns = writer_debug::hex_columns(chunk, n);
    law_dump_columns(chunk, n, i);
    assert(line.subrange(0, 8) =~= head);
    let at = if i < 8 {
        10 + 3 * i
    } else {
        11 + 3 * i
    };
    assert(line.subrange(at, at + 2) =~= columns.subrange(at - 10, at - 8));
}

/// A number of thirty-two bits takes at most eight digits.
proof fn lemma_eight_digits(n: nat)
    requires
        n <= 0xffff_ffff,
    ensures
        text::zero_padded(text::hex(n as int), 8).len() == 8,
{
    reveal_with_fuel(vstd::arithmetic::power::pow, 9);
    lemma_digits(n, 8);
}

proof fn lemma_digits(n: nat, w: nat)
    requires
        w >= 1,
        n < vstd::arithmetic::power::pow(16, w),
    ensures
        1 <= text::numeral(n, 16).len() <= w,
    decreases w,
{
    reveal(vstd::arithmetic::power::pow);
    if w > 1 && n >= 16 {
        let p = vstd::arithmetic::power::pow(16, (w - 1) as nat);
        assert(n < 16 * p);
        lemma_digits(n / 16, (w - 1) as nat);
    } else if w == 1 {
        assert(vstd::arithmetic::power::pow(16, 0) == 1);
    }
}

/// A report on the identification of a file has one line where it is too short, and else
/// three.
pub proof fn law_validations_tell_the_kind(data: Seq<u8>)
    ensures
        ({
            let r = writer_debug::validation(data);
            &&& data.len() < 64 ==> r == seq!["File too small to be valid ELF"@]
            &&& data.len() >= 64 ==> {
                &&& r.len() == 3
                &&& r[0] == (if data[0] == 0x7f && data[1] == 0x45 && data[2] == 0x4c && data[3]
                    == 0x46 {
                    "✓ Valid ELF magic"@
                } else {
                    "Invalid ELF magic number"@
                })
                &&& data[4] == 1 ==> r[1] == "✓ ELF32"@
                &&& data[4] == 2 ==> r[1] == "✓ ELF64"@
                &&& data[4] != 1 && data[4] != 2 ==> r[1] == "✗ Invalid ELF class: "@
                    + text::decimal(data[4] as int)
                &&& data[5] == 1 ==> r[2] == "✓ Little endian"@
                &&& data[5] == 2 ==> r[2] == "✓ Big endian"@
                &&& data[5] != 1 && data[5] != 2 ==> r[2] == "✗ Invalid endianness: "@
                    + text::decimal(data[5] as int)
            }
        }),
{
    if data.len() >= 64 {
        let start = data.subrange(0, 4);
        let magic = seq![0x7fu8, 0x45, 0x4c, 0x46];
        assert(start[0] == data[0] && start[1] == data[1] && start[2] == data[2] && start[3]
            == data[3]);
        assert(magic[0] == 0x7f && magic[1] == 0x45 && magic[2] == 0x4c && magic[3] == 0x46);
        if data[0] == 0x7f && data[1] == 0x45 && data[2] == 0x4c && data[3] == 0x46 {
            assert(start =~= magic);
        }
    }
}

/// What is said of errors.
pub proof fn law_errors_are_told(what: Seq<char>, n: int)
    ensures
        ErrorView::Malformed(what).message() == "Malformed entity: "@ + what,
        ErrorView::BadMagic(n).message() == "Invalid magic number: 0x"@ + text::hex(n),
        ErrorView::Scroll(what).message() == what,
        ErrorView::BufferTooShort(n, what).message() == "Buffer is too short for "@ + text::decimal(
            n,
        ) + " "@ + what,
{
}

} // verus!
