//! Texts: the strings held in a file, numbers written out, and lists of paths.

use vstd::prelude::*;
use vstd::string::*;
use vstd::utf8::*;

verus! {

/// The text that `String::from_utf8_lossy` makes of bytes that are not UTF-8:
/// what cannot be decoded is replaced by U+FFFD.
pub uninterp spec fn repaired_text(bytes: Seq<u8>) -> Seq<char>;

/// The text that bytes stand for.
pub open spec fn text(bytes: Seq<u8>) -> Seq<char> {
    if valid_utf8(bytes) {
        decode_utf8(bytes)
    } else {
        repaired_text(bytes)
    }
}

/// Calls `String::from_utf8_lossy`. Of bytes that are UTF-8 the result is their
/// text; of other bytes it is a function of the bytes, which is named and not
/// described further.
#[verifier::external_body]
pub(crate) fn lossy(bytes: &[u8]) -> (r: String)
    ensures
        r@ == (if valid_utf8(bytes@) {
            decode_utf8(bytes@)
        } else {
            repaired_text(bytes@)
        }),
{
    String::from_utf8_lossy(bytes).to_string()
}

/// The first position from `from` on that holds a zero byte, or the end.
pub open spec fn nul_from(data: Seq<u8>, from: int) -> int
    decreases data.len() - from,
{
    if from >= data.len() {
        data.len() as int
    } else if data[from] == 0 {
        from
    } else {
        nul_from(data, from + 1)
    }
}

/// The zero-terminated string at `offset`; the empty text behind the end.
pub open spec fn string_at(data: Seq<u8>, offset: int) -> Seq<char> {
    if offset >= data.len() {
        Seq::empty()
    } else {
        text(data.subrange(offset, nul_from(data, offset)))
    }
}

pub proof fn lemma_nul_from(data: Seq<u8>, from: int)
    requires
        0 <= from <= data.len(),
    ensures
        from <= nul_from(data, from) <= data.len(),
        nul_from(data, from) < data.len() ==> data[nul_from(data, from)] == 0,
        forall|i: int| from <= i < nul_from(data, from) ==> data[i] != 0,
    decreases data.len() - from,
{
    if from < data.len() && data[from] != 0 {
        lemma_nul_from(data, from + 1);
    }
}

/// A string that ends inside bytes is the same where other bytes follow them.
pub proof fn lemma_string_extended(data: Seq<u8>, tail: Seq<u8>, offset: int)
    requires
        0 <= offset < data.len(),
        data.last() == 0,
    ensures
        string_at(data + tail, offset) == string_at(data, offset),
{
    let all = data + tail;
    lemma_nul_from(data, offset);
    lemma_nul_from(all, offset);
    let n = nul_from(data, offset);
    let m = nul_from(all, offset);
    assert(n < data.len()) by {
        if n == data.len() {
            assert(data[data.len() - 1] != 0);
        }
    }
    assert(all[n] == 0);
    if m < n {
        assert(all[m] == data[m]);
    }
    assert(m == n);
    assert(all.subrange(offset, n) =~= data.subrange(offset, n));
}

/// A text without zero bytes, ended by a zero byte, is read as it was written.
pub proof fn lemma_string_written(before: Seq<u8>, s: Seq<char>, after: Seq<u8>)
    requires
        !encode_utf8(s).contains(0),
    ensures
        string_at(before + (encode_utf8(s).push(0) + after), before.len() as int) == s,
{
    let bytes = encode_utf8(s);
    let at = before.len() as int;
    let all = before + (bytes.push(0) + after);
    lemma_nul_from(all, at);
    let n = nul_from(all, at);
    assert(all[at + bytes.len()] == 0);
    if n < at + bytes.len() {
        assert(all[n] == bytes[n - at]);
        assert(bytes.contains(0));
    }
    assert(n == at + bytes.len());
    assert(all.subrange(at, n) =~= bytes);
    encode_utf8_valid_utf8(s);
    encode_utf8_decode_utf8(s);
}

/// Reads the zero-terminated string at `offset`.
pub fn get_string_at(data: &[u8], offset: usize) -> (r: String)
    ensures
        r@ == string_at(data@, offset as int),
{
    if offset >= data.len() {
        return String::new();
    }
    let mut end: usize = offset;
    while end < data.len() && data[end] != 0
        invariant
            offset <= end <= data.len(),
            nul_from(data@, offset as int) == nul_from(data@, end as int),
        decreases data.len() - end,
    {
        end = end + 1;
    }
    lossy(vstd::slice::slice_subrange(data, offset, end))
}

/// Whether two texts are the same.
pub fn same_text(a: &str, b: &str) -> (r: bool)
    ensures
        r == (a@ == b@),
{
    let x = a.as_bytes();
    let y = b.as_bytes();
    proof {
        encode_utf8_decode_utf8(a@);
        encode_utf8_decode_utf8(b@);
    }
    if x.len() != y.len() {
        return false;
    }
    let mut i: usize = 0;
    while i < x.len()
        invariant
            i <= x.len(),
            x.len() == y.len(),
            x@ == encode_utf8(a@),
            y@ == encode_utf8(b@),
            forall|j: int| 0 <= j < i ==> x@[j] == y@[j],
        decreases x.len() - i,
    {
        if x[i] != y[i] {
            return false;
        }
        i = i + 1;
    }
    assert(x@ =~= y@);
    true
}

/// Whether bytes `a` come before bytes `b` in dictionary order.
pub open spec fn bytes_before(a: Seq<u8>, b: Seq<u8>) -> bool
    decreases a.len(),
{
    if b.len() == 0 {
        false
    } else if a.len() == 0 {
        true
    } else if a[0] != b[0] {
        a[0] < b[0]
    } else {
        bytes_before(a.drop_first(), b.drop_first())
    }
}

/// Whether text `a` comes before text `b`: the dictionary order of their bytes.
pub open spec fn text_before(a: Seq<char>, b: Seq<char>) -> bool {
    bytes_before(encode_utf8(a), encode_utf8(b))
}

/// Whether text `a` comes before text `b`.
pub fn comes_before(a: &str, b: &str) -> (r: bool)
    ensures
        r == text_before(a@, b@),
{
    let x = a.as_bytes();
    let y = b.as_bytes();
    let mut i: usize = 0;
    assert(x@.skip(0) =~= x@);
    assert(y@.skip(0) =~= y@);
    while i < x.len() && i < y.len()
        invariant
            i <= x.len(),
            i <= y.len(),
            x@ == encode_utf8(a@),
            y@ == encode_utf8(b@),
            text_before(a@, b@) == bytes_before(x@.skip(i as int), y@.skip(i as int)),
        decreases x.len() - i,
    {
        if x[i] != y[i] {
            return x[i] < y[i];
        }
        assert(x@.skip(i as int).drop_first() =~= x@.skip(i + 1));
        assert(y@.skip(i as int).drop_first() =~= y@.skip(i + 1));
        i = i + 1;
    }
    i < y.len()
}

pub proof fn lemma_before_irreflexive(a: Seq<u8>)
    ensures
        !bytes_before(a, a),
    decreases a.len(),
{
    if a.len() > 0 {
        lemma_before_irreflexive(a.drop_first());
    }
}

pub proof fn lemma_before_transitive(a: Seq<u8>, b: Seq<u8>, c: Seq<u8>)
    requires
        bytes_before(a, b),
        bytes_before(b, c),
    ensures
        bytes_before(a, c),
    decreases a.len(),
{
    if a.len() > 0 && a[0] == b[0] && b[0] == c[0] {
        lemma_before_transitive(a.drop_first(), b.drop_first(), c.drop_first());
    }
}

pub proof fn lemma_before_total(a: Seq<u8>, b: Seq<u8>)
    ensures
        bytes_before(a, b) || bytes_before(b, a) || a == b,
    decreases a.len(),
{
    if a.len() == 0 || b.len() == 0 {
        if a.len() == 0 && b.len() == 0 {
            assert(a =~= b);
        }
    } else if a[0] == b[0] {
        lemma_before_total(a.drop_first(), b.drop_first());
        if a.drop_first() == b.drop_first() {
            assert(a =~= seq![a[0]] + a.drop_first());
            assert(b =~= seq![b[0]] + b.drop_first());
        }
    }
}

/// The pieces of a text between the occurrences of `mark`.
pub open spec fn split(s: Seq<char>, mark: char) -> Seq<Seq<char>>
    decreases s.len(),
{
    if s.len() == 0 {
        seq![Seq::empty()]
    } else if s[0] == mark {
        seq![Seq::<char>::empty()] + split(s.drop_first(), mark)
    } else {
        let rest = split(s.drop_first(), mark);
        rest.update(0, seq![s[0]] + rest[0])
    }
}

pub proof fn lemma_split_nonempty(s: Seq<char>, mark: char)
    ensures
        split(s, mark).len() > 0,
    decreases s.len(),
{
    if s.len() > 0 {
        lemma_split_nonempty(s.drop_first(), mark);
    }
}

/// A text without the mark is its own only piece; the first mark ends the first piece.
pub proof fn lemma_split_at(s: Seq<char>, mark: char, n: int)
    requires
        0 <= n <= s.len(),
        forall|i: int| 0 <= i < n ==> s[i] != mark,
    ensures
        n == s.len() ==> split(s, mark) == seq![s],
        n < s.len() && s[n] == mark ==> split(s, mark) == seq![s.take(n)] + split(
            s.skip(n + 1),
            mark,
        ),
    decreases s.len(),
{
    if s.len() == 0 {
        assert(s =~= Seq::empty());
        assert(split(s, mark) =~= seq![s]);
    } else if n == 0 {
        assert(s.take(0) =~= Seq::empty());
        assert(s.skip(1) =~= s.drop_first());
        lemma_split_nonempty(s.drop_first(), mark);
    } else {
        let t = s.drop_first();
        lemma_split_nonempty(t, mark);
        lemma_split_at(t, mark, n - 1);
        if n == s.len() {
            assert(seq![s[0]] + t =~= s);
            assert(split(s, mark) =~= seq![s]);
        } else if s[n] == mark {
            assert(t[n - 1] == mark);
            assert(t.skip(n) =~= s.skip(n + 1));
            assert(seq![s[0]] + t.take(n - 1) =~= s.take(n));
            assert(split(s, mark) =~= seq![s.take(n)] + split(s.skip(n + 1), mark));
        }
    }
}

/// Pieces with marks between them.
pub open spec fn joined(pieces: Seq<Seq<char>>, mark: char) -> Seq<char>
    decreases pieces.len(),
{
    if pieces.len() == 0 {
        Seq::empty()
    } else if pieces.len() == 1 {
        pieces[0]
    } else {
        pieces[0].push(mark) + joined(pieces.drop_first(), mark)
    }
}

/// No piece of a text holds the mark, and with marks between them the pieces are the
/// text.
pub proof fn law_pieces_make_the_text(s: Seq<char>, mark: char)
    ensures
        joined(split(s, mark), mark) == s,
        forall|i: int| 0 <= i < split(s, mark).len() ==> !(#[trigger] split(s, mark)[i]).contains(
            mark,
        ),
    decreases s.len(),
{
    let pieces = split(s, mark);
    if s.len() == 0 {
        assert(joined(pieces, mark) =~= s);
    } else {
        let t = s.drop_first();
        let rest = split(t, mark);
        law_pieces_make_the_text(t, mark);
        lemma_split_nonempty(t, mark);
        if s[0] == mark {
            assert(pieces.drop_first() =~= rest);
            assert(joined(pieces, mark) =~= s);
            assert forall|i: int| 0 <= i < pieces.len() implies !(#[trigger] pieces[i]).contains(
                mark,
            ) by {
                if i > 0 {
                    assert(pieces[i] == rest[i - 1]);
                }
            }
        } else {
            assert(pieces.drop_first() =~= rest.drop_first());
            assert(s =~= seq![s[0]] + t);
            if rest.len() > 1 {
                assert(pieces[0].push(mark) =~= seq![s[0]] + rest[0].push(mark));
                assert(joined(pieces, mark) =~= seq![s[0]] + joined(rest, mark));
            }
            assert(joined(pieces, mark) =~= s);
            assert forall|i: int| 0 <= i < pieces.len() implies !(#[trigger] pieces[i]).contains(
                mark,
            ) by {
                if i > 0 {
                    assert(pieces[i] == rest[i]);
                } else {
                    assert(!rest[0].contains(mark));
                    assert forall|q: int| 0 <= q < pieces[0].len() implies pieces[0][q] != mark by {
                        if q > 0 {
                            assert(pieces[0][q] == rest[0][q - 1]);
                        }
                    }
                }
            }
        }
    }
}

/// Texts as mathematical values.
pub open spec fn texts(v: Seq<String>) -> Seq<Seq<char>> {
    v.map_values(|s: String| s@)
}

/// Borrowed texts as mathematical values.
pub open spec fn str_texts(v: Seq<&str>) -> Seq<Seq<char>> {
    v.map_values(|s: &str| s@)
}

/// Pairs of borrowed texts as mathematical values.
pub open spec fn str_pairs(v: Seq<(&str, &str)>) -> Seq<(Seq<char>, Seq<char>)> {
    v.map_values(|p: (&str, &str)| (p.0@, p.1@))
}

/// The pieces of a text between its colons.
pub fn split_colons(s: &str) -> (r: Vec<String>)
    ensures
        texts(r@) == split(s@, ':'),
{
    let n: usize = s.unicode_len();
    let mut out: Vec<String> = Vec::new();
    let mut start: usize = 0;
    let mut i: usize = 0;
    assert(s@.skip(0) =~= s@);
    assert(texts(out@) + split(s@, ':') =~= split(s@, ':'));
    while i < n
        invariant
            start <= i <= n,
            n == s@.len(),
            forall|j: int| start <= j < i ==> s@[j] != ':',
            texts(out@) + split(s@.skip(start as int), ':') == split(s@, ':'),
        decreases n - i,
    {
        if s.get_char(i) == ':' {
            let piece = s.substring_char(start, i);
            let ghost before = out@;
            proof {
                let rest = s@.skip(start as int);
                lemma_split_at(rest, ':', i - start);
                assert(rest.take(i - start) =~= piece@);
                assert(rest.skip(i - start + 1) =~= s@.skip(i + 1));
            }
            out.push(piece.to_owned());
            assert(texts(out@) =~= texts(before) + seq![piece@]);
            assert(texts(out@) + split(s@.skip(i + 1), ':') =~= texts(before) + (seq![piece@]
                + split(s@.skip(i + 1), ':')));
            start = i + 1;
        }
        i = i + 1;
    }
    let piece = s.substring_char(start, n);
    let ghost before = out@;
    proof {
        let rest = s@.skip(start as int);
        lemma_split_at(rest, ':', n - start);
        assert(rest =~= piece@);
    }
    out.push(piece.to_owned());
    assert(texts(out@) =~= texts(before) + seq![piece@]);
    out
}

/// The digit of value `d`, in lower case.
pub open spec fn digit(d: int) -> char {
    if d < 10 {
        ('0' as int + d) as char
    } else {
        ('a' as int + d - 10) as char
    }
}

/// A number written in a base, without leading zeros.
pub open spec fn numeral(n: nat, base: nat) -> Seq<char>
    recommends
        base >= 2,
    decreases n,
{
    if base < 2 || n < base {
        seq![digit(n as int)]
    } else {
        proof {
            assert(n / base < n) by (nonlinear_arith)
                requires
                    n >= base,
                    base >= 2,
            ;
        }
        numeral(n / base, base).push(digit((n % base) as int))
    }
}

/// A number written in base ten.
pub open spec fn decimal(n: int) -> Seq<char> {
    numeral(n as nat, 10)
}

/// A number written in base sixteen.
pub open spec fn hex(n: int) -> Seq<char> {
    numeral(n as nat, 16)
}

/// A text brought to at least `width` characters by zeros in front.
pub open spec fn zero_padded(s: Seq<char>, width: int) -> Seq<char> {
    if s.len() < width {
        Seq::new((width - s.len()) as nat, |i: int| '0') + s
    } else {
        s
    }
}

/// The value of a digit.
pub open spec fn digit_value(c: char) -> int {
    if c as int <= '9' as int {
        c as int - '0' as int
    } else {
        c as int - 'a' as int + 10
    }
}

/// The number that a text of digits stands for.
pub open spec fn number(s: Seq<char>, base: int) -> int
    decreases s.len(),
{
    if s.len() == 0 {
        0
    } else {
        number(s.drop_last(), base) * base + digit_value(s.last())
    }
}

/// A number that is written out can be read again.
pub proof fn law_numerals_stand_for_numbers(n: nat, base: nat)
    requires
        2 <= base <= 16,
    ensures
        number(numeral(n, base), base as int) == n,
    decreases n,
{
    let s = numeral(n, base);
    if n < base {
        assert(s.drop_last() =~= Seq::empty());
        assert(number(s.drop_last(), base as int) == 0);
    } else {
        assert(n / base < n) by (nonlinear_arith)
            requires
                n >= base,
                base >= 2,
        ;
        law_numerals_stand_for_numbers(n / base, base);
        assert(s.drop_last() =~= numeral(n / base, base));
        vstd::arithmetic::div_mod::lemma_fundamental_div_mod(n as int, base as int);
        assert(n % base < base) by (nonlinear_arith)
            requires
                base >= 2,
        ;
        assert((n / base) * base == base * (n / base)) by (nonlinear_arith);
    }
}

/// The one-character text of a digit.
fn digit_text(d: u64) -> (r: &'static str)
    requires
        d < 16,
    ensures
        r@ == seq![digit(d as int)],
{
    proof {
        reveal_strlit("0");
        reveal_strlit("1");
        reveal_strlit("2");
        reveal_strlit("3");
        reveal_strlit("4");
        reveal_strlit("5");
        reveal_strlit("6");
        reveal_strlit("7");
        reveal_strlit("8");
        reveal_strlit("9");
        reveal_strlit("a");
        reveal_strlit("b");
        reveal_strlit("c");
        reveal_strlit("d");
        reveal_strlit("e");
        reveal_strlit("f");
    }
    let r = match d {
        0 => "0",
        1 => "1",
        2 => "2",
        3 => "3",
        4 => "4",
        5 => "5",
        6 => "6",
        7 => "7",
        8 => "8",
        9 => "9",
        10 => "a",
        11 => "b",
        12 => "c",
        13 => "d",
        14 => "e",
        _ => "f",
    };
    assert(r@ =~= seq![digit(d as int)]);
    r
}

/// Writes a number in a base.
fn write_number(n: u64, base: u64) -> (r: String)
    requires
        2 <= base <= 16,
    ensures
        r@ == numeral(n as nat, base as nat),
    decreases n,
{
    if n < base {
        return digit_text(n).to_owned();
    }
    assert(n / base < n) by (nonlinear_arith)
        requires
            n >= base,
            base >= 2,
    ;
    let mut out = write_number(n / base, base);
    let ghost head = out@;
    assert(n % base < base) by (nonlinear_arith)
        requires
            base >= 2,
    ;
    out.append(digit_text(n % base));
    assert(out@ =~= head.push(digit((n % base) as int)));
    out
}

/// Writes a number in base ten.
pub fn decimal_text(n: u64) -> (r: String)
    ensures
        r@ == decimal(n as int),
{
    write_number(n, 10)
}

/// Writes a number in base sixteen.
pub fn hex_text(n: u64) -> (r: String)
    ensures
        r@ == hex(n as int),
{
    write_number(n, 16)
}

/// Writes a number in base sixteen with at least `width` digits.
pub fn padded_hex_text(n: u64, width: usize) -> (r: String)
    ensures
        r@ == zero_padded(hex(n as int), width as int),
{
    let digits = hex_text(n);
    let len: usize = digits.as_str().unicode_len();
    if len >= width {
        return digits;
    }
    let mut out = String::new();
    let mut i: usize = 0;
    while i < width - len
        invariant
            len < width,
            i <= width - len,
            out@ == Seq::new(i as nat, |j: int| '0'),
        decreases width - len - i,
    {
        let ghost before = out@;
        out.append("0");
        proof {
            reveal_strlit("0");
            assert(out@ =~= Seq::new((i + 1) as nat, |j: int| '0'));
        }
        i = i + 1;
    }
    out.append(digits.as_str());
    assert(out@ =~= zero_padded(hex(n as int), width as int));
    out
}

} // verus!
