//! Operations on manifest files: the line/word lexical layer, binary-safe
//! word escaping, the manifest parser and the path -> volume index.

use vstd::prelude::*;
use vstd::utf8::*;
use crate::rawpath::RawPath;

verus! {

// ---------------------------------------------------------------------------
// Lines
// ---------------------------------------------------------------------------

/// Position of the first line feed at or after `pos`, or the end of input.
pub open spec fn spec_line_end(input: Seq<u8>, pos: int) -> int
    decreases input.len() - pos,
{
    if pos < 0 || pos >= input.len() {
        pos
    } else if input[pos] == 10 {
        pos
    } else {
        spec_line_end(input, pos + 1)
    }
}

/// The line starting at `pos`: bytes up to the next line feed, with one
/// trailing carriage return stripped.
pub open spec fn spec_line(input: Seq<u8>, pos: int) -> Seq<u8> {
    let raw = input.subrange(pos, spec_line_end(input, pos));
    if raw.len() > 0 && raw.last() == 13 {
        raw.drop_last()
    } else {
        raw
    }
}

/// Position just after the line starting at `pos`.
pub open spec fn spec_next_pos(input: Seq<u8>, pos: int) -> int {
    let e = spec_line_end(input, pos);
    if e < input.len() {
        e + 1
    } else {
        e
    }
}

proof fn lemma_line_end_bounds(input: Seq<u8>, pos: int)
    requires
        0 <= pos <= input.len(),
    ensures
        pos <= spec_line_end(input, pos) <= input.len(),
    decreases input.len() - pos,
{
    if pos < input.len() && input[pos] != 10 {
        lemma_line_end_bounds(input, pos + 1);
    }
}

// ---------------------------------------------------------------------------
// Words
// ---------------------------------------------------------------------------

/// Position of the first space at or after `pos`, or the end of the line.
pub open spec fn spec_space_end(line: Seq<u8>, pos: int) -> int
    decreases line.len() - pos,
{
    if pos < 0 || pos >= line.len() {
        pos
    } else if line[pos] == 32 {
        pos
    } else {
        spec_space_end(line, pos + 1)
    }
}

proof fn lemma_space_end_bounds(line: Seq<u8>, pos: int)
    requires
        0 <= pos <= line.len(),
    ensures
        pos <= spec_space_end(line, pos) <= line.len(),
        pos < line.len() && line[pos] != 32 ==> spec_space_end(line, pos) > pos,
    decreases line.len() - pos,
{
    if pos < line.len() && line[pos] != 32 {
        lemma_space_end_bounds(line, pos + 1);
    }
}

/// The space-separated words of the line from `pos` on: runs of spaces
/// separate words, empty words are dropped.
pub open spec fn spec_words_from(line: Seq<u8>, pos: int) -> Seq<Seq<u8>>
    decreases line.len() - pos,
    when 0 <= pos <= line.len()
    via spec_words_from_decreases
{
    if pos >= line.len() {
        Seq::empty()
    } else if line[pos] == 32 {
        spec_words_from(line, pos + 1)
    } else {
        let e = spec_space_end(line, pos);
        seq![line.subrange(pos, e)] + spec_words_from(line, e)
    }
}

#[via_fn]
proof fn spec_words_from_decreases(line: Seq<u8>, pos: int) {
    if 0 <= pos < line.len() && line[pos] != 32 {
        lemma_space_end_bounds(line, pos);
    }
}

/// The words of a whole line.
pub open spec fn spec_words(line: Seq<u8>) -> Seq<Seq<u8>> {
    spec_words_from(line, 0)
}

/// Splits a line into its space-separated words.
pub fn split_words(line: &[u8]) -> (r: Vec<Vec<u8>>)
    ensures
        r.deep_view() == spec_words(line@),
{
    let ghost l = line@;
    let mut r: Vec<Vec<u8>> = Vec::new();
    let mut pos: usize = 0;
    while pos < line.len()
        invariant
            0 <= pos <= l.len(),
            l == line@,
            spec_words(l) == r.deep_view() + spec_words_from(l, pos as int),
        decreases l.len() - pos,
    {
        if line[pos] == 32 {
            proof {
                assert(spec_words_from(l, pos as int) == spec_words_from(l, pos + 1));
            }
            pos = pos + 1;
        } else {
            let ghost e_spec = spec_space_end(l, pos as int);
            proof {
                lemma_space_end_bounds(l, pos as int);
            }
            let mut e: usize = pos;
            while e < line.len() && line[e] != 32
                invariant
                    pos <= e <= l.len(),
                    l == line@,
                    spec_space_end(l, pos as int) == spec_space_end(l, e as int),
                decreases l.len() - e,
            {
                e = e + 1;
            }
            proof {
                assert(spec_space_end(l, e as int) == e);
                assert(e_spec == e);
            }
            let mut w: Vec<u8> = Vec::new();
            let mut i: usize = pos;
            while i < e
                invariant
                    pos <= i <= e <= l.len(),
                    l == line@,
                    w@ == l.subrange(pos as int, i as int),
                decreases e - i,
            {
                w.push(line[i]);
                proof {
                    assert(w@ =~= l.subrange(pos as int, i + 1));
                }
                i = i + 1;
            }
            let ghost prev = r.deep_view();
            r.push(w);
            proof {
                assert(r.deep_view() =~~= prev + seq![w@]);
            }
            pos = e;
        }
    }
    proof {
        assert(spec_words_from(l, pos as int) == Seq::<Seq<u8>>::empty());
        assert(spec_words(l) =~= r.deep_view());
    }
    r
}

// ---------------------------------------------------------------------------
// Escaping
// ---------------------------------------------------------------------------

/// Whether a byte is an ASCII hexadecimal digit.
pub open spec fn spec_is_hex(b: u8) -> bool {
    (48 <= b <= 57) || (97 <= b <= 102) || (65 <= b <= 70)
}

/// The value of an ASCII hexadecimal digit.
pub open spec fn spec_hex_val(b: u8) -> u8 {
    if 48 <= b <= 57 {
        (b - 48) as u8
    } else if 97 <= b <= 102 {
        (b - 87) as u8
    } else {
        (b - 55) as u8
    }
}

/// Unescaping of the bytes of a word from `pos` on: `\xHH` with two hex
/// digits denotes a single byte, a backslash starting no valid escape is
/// dropped, everything else passes through.
pub open spec fn spec_unescape_from(s: Seq<u8>, pos: int) -> Seq<u8>
    decreases s.len() - pos,
{
    if pos < 0 || pos >= s.len() {
        Seq::empty()
    } else if s[pos] != 92 {
        seq![s[pos]] + spec_unescape_from(s, pos + 1)
    } else if pos + 3 < s.len() && s[pos + 1] == 120 && spec_is_hex(s[pos + 2]) && spec_is_hex(
        s[pos + 3],
    ) {
        seq![(16 * spec_hex_val(s[pos + 2]) + spec_hex_val(s[pos + 3])) as u8]
            + spec_unescape_from(s, pos + 4)
    } else {
        spec_unescape_from(s, pos + 1)
    }
}

/// A word surrounded by double quotes loses them (the first byte and the
/// last, whatever it is); anything else is kept whole.
pub open spec fn spec_strip_quotes(s: Seq<u8>) -> Seq<u8> {
    if s.len() > 1 && s[0] == 34 {
        s.subrange(1, s.len() - 1)
    } else {
        s
    }
}

/// The unescaped bytes of a (possibly quoted) word.
pub open spec fn spec_unescape(s: Seq<u8>) -> Seq<u8> {
    spec_unescape_from(spec_strip_quotes(s), 0)
}

/// Decodes a (possibly quoted) word: strips surrounding quotes and replaces
/// every `\xHH` escape by the byte with hexadecimal value `HH`.
pub fn unescape(word: &[u8]) -> (r: Vec<u8>)
    ensures
        r@ == spec_unescape(word@),
{
    let stripped: &[u8] = if word.len() > 1 && word[0] == 34 {
        &word[1..word.len() - 1]
    } else {
        word
    };
    let ghost s = spec_strip_quotes(word@);
    proof {
        assert(stripped@ =~= s);
    }
    let mut r: Vec<u8> = Vec::new();
    let mut i: usize = 0;
    while i < stripped.len()
        invariant
            0 <= i <= s.len(),
            s == stripped@,
            spec_unescape_from(s, 0) == r@ + spec_unescape_from(s, i as int),
        decreases s.len() - i,
    {
        let b = stripped[i];
        if b != 92 {
            r.push(b);
            i = i + 1;
        } else if stripped.len() - i >= 4 && stripped[i + 1] == 120 && is_hex_digit(
            stripped[i + 2],
        ) && is_hex_digit(stripped[i + 3]) {
            let v = 16 * hex_val(stripped[i + 2]) + hex_val(stripped[i + 3]);
            r.push(v);
            i = i + 4;
        } else {
            i = i + 1;
        }
    }
    r
}

fn is_hex_digit(b: u8) -> (r: bool)
    ensures
        r == spec_is_hex(b),
{
    (48 <= b && b <= 57) || (97 <= b && b <= 102) || (65 <= b && b <= 70)
}

fn hex_val(b: u8) -> (r: u8)
    requires
        spec_is_hex(b),
    ensures
        r == spec_hex_val(b),
        r < 16,
{
    if 48 <= b && b <= 57 {
        b - 48
    } else if 97 <= b && b <= 102 {
        b - 87
    } else {
        b - 55
    }
}

/// Whether a byte may stand unescaped inside a quoted word.
pub open spec fn spec_is_plain(b: u8) -> bool {
    (65 <= b <= 90) || (97 <= b <= 122) || (48 <= b <= 57) || b == 95 || b == 46 || b == 47 || b
        == 58 || b == 45
}

/// The lowercase ASCII hexadecimal digit of a value below 16.
pub open spec fn spec_hex_digit(n: u8) -> u8 {
    if n < 10 {
        (n + 48) as u8
    } else {
        (n + 87) as u8
    }
}

/// Escaping of bytes from `pos` on: bytes in `[A-Za-z0-9_./:-]` pass
/// through, every other byte becomes `\xHH`.
pub open spec fn spec_escape_from(s: Seq<u8>, pos: int) -> Seq<u8>
    decreases s.len() - pos,
{
    if pos < 0 || pos >= s.len() {
        Seq::empty()
    } else if spec_is_plain(s[pos]) {
        seq![s[pos]] + spec_escape_from(s, pos + 1)
    } else {
        seq![92u8, 120u8, spec_hex_digit(s[pos] / 16), spec_hex_digit(s[pos] % 16)]
            + spec_escape_from(s, pos + 1)
    }
}

/// The quoted, escaped form of a byte word.
pub open spec fn spec_quote_escape(s: Seq<u8>) -> Seq<u8> {
    seq![34u8] + spec_escape_from(s, 0) + seq![34u8]
}

/// Quotes a byte word, escaping every byte outside `[A-Za-z0-9_./:-]` as
/// `\xHH`.
pub fn quote_and_escape(word: &[u8]) -> (r: Vec<u8>)
    ensures
        r@ == spec_quote_escape(word@),
{
    let ghost s = word@;
    let mut r: Vec<u8> = Vec::new();
    r.push(34);
    let mut i: usize = 0;
    while i < word.len()
        invariant
            0 <= i <= s.len(),
            s == word@,
            r@ == seq![34u8] + spec_escape_from(s, 0).subrange(0, spec_escape_len(s, i as int)),
            spec_escape_from(s, 0).subrange(0, spec_escape_len(s, i as int)) + spec_escape_from(
                s,
                i as int,
            ) == spec_escape_from(s, 0),
        decreases s.len() - i,
    {
        let b = word[i];
        proof {
            lemma_escape_split(s, i as int);
        }
        if is_plain(b) {
            r.push(b);
        } else {
            r.push(92);
            r.push(120);
            r.push(hex_digit(b / 16));
            r.push(hex_digit(b % 16));
        }
        proof {
            lemma_escape_len_step(s, i as int);
            assert(r@ =~= seq![34u8] + spec_escape_from(s, 0).subrange(
                0,
                spec_escape_len(s, i + 1),
            ));
            assert(spec_escape_from(s, 0).subrange(0, spec_escape_len(s, i + 1))
                + spec_escape_from(s, i + 1) =~= spec_escape_from(s, 0));
        }
        i = i + 1;
    }
    r.push(34);
    proof {
        assert(spec_escape_from(s, i as int) == Seq::<u8>::empty());
        assert(spec_escape_from(s, 0).subrange(0, spec_escape_len(s, i as int)) =~= spec_escape_from(
            s,
            0,
        ));
        assert(r@ =~= spec_quote_escape(s));
    }
    r
}

/// Length of the escaped form of the first `pos` bytes.
pub open spec fn spec_escape_len(s: Seq<u8>, pos: int) -> int
    decreases pos,
{
    if pos <= 0 || s.len() == 0 {
        0
    } else if pos > s.len() {
        spec_escape_len(s, s.len() as int)
    } else {
        spec_escape_len(s, pos - 1) + (if spec_is_plain(s[pos - 1]) {
            1int
        } else {
            4int
        })
    }
}

proof fn lemma_escape_split(s: Seq<u8>, i: int)
    requires
        0 <= i <= s.len(),
    ensures
        spec_escape_from(s, 0).subrange(0, spec_escape_len(s, i)) + spec_escape_from(s, i)
            == spec_escape_from(s, 0),
        0 <= spec_escape_len(s, i) <= spec_escape_from(s, 0).len(),
    decreases i,
{
    if i == 0 {
        assert(spec_escape_len(s, 0) == 0);
        assert(spec_escape_from(s, 0).subrange(0, 0) + spec_escape_from(s, 0) =~= spec_escape_from(
            s,
            0,
        ));
    } else {
        lemma_escape_split(s, i - 1);
        lemma_escape_len_step(s, i - 1);
        let full = spec_escape_from(s, 0);
        let l0 = spec_escape_len(s, i - 1);
        let l1 = spec_escape_len(s, i);
        let head = if spec_is_plain(s[i - 1]) {
            seq![s[i - 1]]
        } else {
            seq![92u8, 120u8, spec_hex_digit(s[i - 1] / 16), spec_hex_digit(s[i - 1] % 16)]
        };
        assert(spec_escape_from(s, i - 1) == head + spec_escape_from(s, i));
        assert(full.subrange(0, l0) + (head + spec_escape_from(s, i)) == full);
        assert(l1 == l0 + head.len());
        assert(full.subrange(0, l1) =~= full.subrange(0, l0) + head);
        assert(full.subrange(0, l1) + spec_escape_from(s, i) =~= full);
    }
}

proof fn lemma_escape_len_step(s: Seq<u8>, i: int)
    requires
        0 <= i < s.len(),
    ensures
        spec_escape_len(s, i + 1) == spec_escape_len(s, i) + (if spec_is_plain(s[i]) {
            1int
        } else {
            4int
        }),
{
}

fn is_plain(b: u8) -> (r: bool)
    ensures
        r == spec_is_plain(b),
{
    (65 <= b && b <= 90) || (97 <= b && b <= 122) || (48 <= b && b <= 57) || b == 95 || b == 46
        || b == 47 || b == 58 || b == 45
}

fn hex_digit(n: u8) -> (r: u8)
    requires
        n < 16,
    ensures
        r == spec_hex_digit(n),
{
    if n < 10 {
        n + 48
    } else {
        n + 87
    }
}

// ---------------------------------------------------------------------------
// Escaping round trip
// ---------------------------------------------------------------------------

proof fn lemma_unescape_shift(s: Seq<u8>, i: int)
    requires
        0 <= i <= s.len(),
    ensures
        spec_unescape_from(s, i) == spec_unescape_from(s.skip(i), 0),
    decreases s.len() - i,
{
    let t = s.skip(i);
    if i >= s.len() {
        assert(t.len() == 0);
    } else {
        assert(t[0] == s[i]);
        if s[i] != 92 {
            lemma_unescape_shift(s, i + 1);
            assert(s.skip(i + 1) =~= t.skip(1));
            lemma_unescape_shift(t, 1);
        } else if i + 3 < s.len() && s[i + 1] == 120 && spec_is_hex(s[i + 2]) && spec_is_hex(
            s[i + 3],
        ) {
            assert(t[1] == s[i + 1] && t[2] == s[i + 2] && t[3] == s[i + 3]);
            lemma_unescape_shift(s, i + 4);
            assert(s.skip(i + 4) =~= t.skip(4));
            lemma_unescape_shift(t, 4);
        } else {
            lemma_unescape_shift(s, i + 1);
            assert(s.skip(i + 1) =~= t.skip(1));
            lemma_unescape_shift(t, 1);
            if t.len() >= 4 {
                assert(t[1] == s[i + 1] && t[2] == s[i + 2] && t[3] == s[i + 3]);
            }
        }
    }
}

proof fn lemma_unescape_escape_from(s: Seq<u8>)
    ensures
        spec_unescape_from(spec_escape_from(s, 0), 0) == s,
    decreases s.len(),
{
    let e = spec_escape_from(s, 0);
    if s.len() == 0 {
        assert(e.len() == 0);
        assert(spec_unescape_from(e, 0) =~= s);
    } else {
        let b = s[0];
        let tail = s.skip(1);
        assert(spec_escape_from(s, 1) == spec_escape_from(tail, 0)) by {
            lemma_escape_shift(s, 1);
        }
        lemma_unescape_escape_from(tail);
        if spec_is_plain(b) {
            assert(e == seq![b] + spec_escape_from(tail, 0));
            assert(b != 92);
            assert(e[0] == b);
            assert(spec_unescape_from(e, 0) == seq![b] + spec_unescape_from(e, 1));
            lemma_unescape_shift(e, 1);
            assert(e.skip(1) =~= spec_escape_from(tail, 0));
            assert(spec_unescape_from(e, 0) =~= s);
        } else {
            let h1 = spec_hex_digit(b / 16);
            let h2 = spec_hex_digit(b % 16);
            assert(e == seq![92u8, 120u8, h1, h2] + spec_escape_from(tail, 0));
            assert(e[0] == 92 && e[1] == 120 && e[2] == h1 && e[3] == h2);
            assert(spec_is_hex(h1) && spec_is_hex(h2));
            assert(spec_hex_val(h1) == b / 16 && spec_hex_val(h2) == b % 16);
            assert(e.len() >= 4 && 3 < e.len());
            assert((16 * spec_hex_val(h1) + spec_hex_val(h2)) as u8 == b) by {
                assert(b / 16 < 16 && b % 16 < 16);
                assert(16 * (b / 16) + b % 16 == b) by (nonlinear_arith);
            }
            assert(spec_unescape_from(e, 0) == seq![b] + spec_unescape_from(e, 4));
            lemma_unescape_shift(e, 4);
            assert(e.skip(4) =~= spec_escape_from(tail, 0));
            assert(spec_unescape_from(e, 0) =~= s);
        }
    }
}

proof fn lemma_escape_shift(s: Seq<u8>, i: int)
    requires
        0 <= i <= s.len(),
    ensures
        spec_escape_from(s, i) == spec_escape_from(s.skip(i), 0),
    decreases s.len() - i,
{
    let t = s.skip(i);
    if i >= s.len() {
        assert(t.len() == 0);
    } else {
        assert(t[0] == s[i]);
        lemma_escape_shift(s, i + 1);
        assert(s.skip(i + 1) =~= t.skip(1));
        lemma_escape_shift(t, 1);
    }
}

/// Unescaping a quoted, escaped word gives back exactly the original bytes.
pub proof fn lemma_unescape_quote_roundtrip(s: Seq<u8>)
    ensures
        spec_unescape(spec_quote_escape(s)) == s,
{
    let q = spec_quote_escape(s);
    let e = spec_escape_from(s, 0);
    assert(q.len() == e.len() + 2);
    assert(q[0] == 34);
    assert(spec_strip_quotes(q) =~= e);
    lemma_unescape_escape_from(s);
}

// ---------------------------------------------------------------------------
// Decimal and hexadecimal words
// ---------------------------------------------------------------------------

/// Whether the word is one or more ASCII decimal digits.
pub open spec fn spec_all_digits(w: Seq<u8>) -> bool {
    w.len() > 0 && forall|i: int| 0 <= i < w.len() ==> 48 <= #[trigger] w[i] <= 57
}

/// The value of a string of decimal digits.
pub open spec fn spec_digits_val(w: Seq<u8>) -> int
    decreases w.len(),
{
    if w.len() == 0 {
        0
    } else {
        spec_digits_val(w.drop_last()) * 10 + (w.last() - 48)
    }
}

/// The number denoted by a word: digits only, and within `usize` range.
pub open spec fn spec_parse_usize(w: Seq<u8>) -> Option<usize> {
    if spec_all_digits(w) && spec_digits_val(w) <= usize::MAX {
        Some(spec_digits_val(w) as usize)
    } else {
        None
    }
}

proof fn lemma_digits_val_nonneg(w: Seq<u8>)
    requires
        forall|i: int| 0 <= i < w.len() ==> 48 <= #[trigger] w[i] <= 57,
    ensures
        spec_digits_val(w) >= 0,
    decreases w.len(),
{
    if w.len() > 0 {
        lemma_digits_val_nonneg(w.drop_last());
    }
}

proof fn lemma_digits_val_prefix_le(w: Seq<u8>, i: int)
    requires
        forall|k: int| 0 <= k < w.len() ==> 48 <= #[trigger] w[k] <= 57,
        0 <= i <= w.len(),
    ensures
        spec_digits_val(w.take(i)) <= spec_digits_val(w),
    decreases w.len() - i,
{
    if i == w.len() {
        assert(w.take(i) =~= w);
    } else {
        lemma_digits_val_prefix_le(w, i + 1);
        let p = w.take(i + 1);
        assert(p.drop_last() =~= w.take(i));
        lemma_digits_val_nonneg(w.take(i));
        assert(spec_digits_val(p) == spec_digits_val(w.take(i)) * 10 + (w[i] - 48));
        assert(spec_digits_val(w.take(i)) * 10 >= spec_digits_val(w.take(i))) by (nonlinear_arith)
            requires spec_digits_val(w.take(i)) >= 0;
    }
}

/// Parses a word as a decimal number.
pub fn parse_usize_word(w: &[u8]) -> (r: Option<usize>)
    ensures
        r == spec_parse_usize(w@),
{
    if w.len() == 0 {
        return None;
    }
    let mut acc: usize = 0;
    let mut i: usize = 0;
    while i < w.len()
        invariant
            0 <= i <= w@.len(),
            w@.len() > 0,
            forall|k: int| 0 <= k < i ==> 48 <= #[trigger] w@[k] <= 57,
            acc == spec_digits_val(w@.take(i as int)),
        decreases w@.len() - i,
    {
        let b = w[i];
        if b < 48 || b > 57 {
            return None;
        }
        let d = (b - 48) as usize;
        proof {
            lemma_digits_val_nonneg(w@.take(i as int));
            assert(w@.take(i + 1).drop_last() =~= w@.take(i as int));
        }
        if acc > (usize::MAX - d) / 10 {
            proof {
                assert(acc * 10 + d > usize::MAX) by (nonlinear_arith)
                    requires
                        acc > (usize::MAX - d) / 10,
                        d <= 9,
                        acc >= 0,
                ;
                if spec_all_digits(w@) {
                    lemma_digits_val_prefix_le(w@, i + 1);
                    assert(spec_digits_val(w@.take(i + 1)) == acc * 10 + d);
                }
            }
            return None;
        }
        acc = acc * 10 + d;
        i = i + 1;
    }
    proof {
        assert(w@.take(i as int) =~= w@);
    }
    Some(acc)
}

/// The bytes denoted by an even-length string of hexadecimal digit pairs.
pub open spec fn spec_hex_pairs(w: Seq<u8>) -> Seq<u8> {
    Seq::new((w.len() / 2) as nat, |i: int| (16 * spec_hex_val(w[2 * i]) + spec_hex_val(w[2 * i + 1])) as u8)
}

/// Decodes a word of hexadecimal digit pairs; any other word gives nothing.
pub open spec fn spec_hex_decode(w: Seq<u8>) -> Option<Seq<u8>> {
    if w.len() % 2 == 0 && (forall|i: int| 0 <= i < w.len() ==> spec_is_hex(#[trigger] w[i])) {
        Some(spec_hex_pairs(w))
    } else {
        None
    }
}

/// Parses a word as hexadecimal digit pairs.
pub fn hex_decode_word(w: &[u8]) -> (r: Option<Vec<u8>>)
    ensures
        match r {
            Some(v) => spec_hex_decode(w@) == Some(v@),
            None => spec_hex_decode(w@) is None,
        },
{
    if w.len() % 2 != 0 {
        return None;
    }
    let mut out: Vec<u8> = Vec::new();
    let mut i: usize = 0;
    while i < w.len()
        invariant
            0 <= i <= w@.len(),
            i % 2 == 0,
            w@.len() % 2 == 0,
            forall|k: int| 0 <= k < i ==> spec_is_hex(#[trigger] w@[k]),
            out@.len() == i / 2,
            forall|k: int| 0 <= k < i / 2 ==> out@[k] == (16 * spec_hex_val(w@[2 * k])
                + spec_hex_val(w@[2 * k + 1])) as u8,
        decreases w@.len() - i,
    {
        let a = w[i];
        let b = w[i + 1];
        if !is_hex_digit(a) || !is_hex_digit(b) {
            return None;
        }
        out.push(16 * hex_val(a) + hex_val(b));
        i = i + 2;
    }
    proof {
        assert(out@ =~= spec_hex_pairs(w@));
    }
    Some(out)
}


// ---------------------------------------------------------------------------
// Keywords
// ---------------------------------------------------------------------------

/// The keywords of the manifest grammar.
#[derive(Clone, Copy)]
pub enum Keyword {
    Hostname,
    Localdir,
    Volume,
    StartingPath,
    EndingPath,
    Hash,
}

/// The ASCII bytes of a keyword.
pub open spec fn kw_bytes(k: Keyword) -> Seq<u8> {
    match k {
        Keyword::Hostname => seq![72, 111, 115, 116, 110, 97, 109, 101],
        Keyword::Localdir => seq![76, 111, 99, 97, 108, 100, 105, 114],
        Keyword::Volume => seq![86, 111, 108, 117, 109, 101],
        Keyword::StartingPath => seq![
            83, 116, 97, 114, 116, 105, 110, 103, 80, 97, 116, 104,
        ],
        Keyword::EndingPath => seq![69, 110, 100, 105, 110, 103, 80, 97, 116, 104],
        Keyword::Hash => seq![72, 97, 115, 104],
    }
}

/// The name of a keyword, as it appears in a missing-keyword error.
pub open spec fn kw_name(k: Keyword) -> Seq<char> {
    match k {
        Keyword::Hostname => "Hostname"@,
        Keyword::Localdir => "Localdir"@,
        Keyword::Volume => "Volume"@,
        Keyword::StartingPath => "StartingPath"@,
        Keyword::EndingPath => "EndingPath"@,
        Keyword::Hash => "Hash"@,
    }
}

fn kw_string(k: Keyword) -> (r: String)
    ensures
        r@ == kw_name(k),
{
    match k {
        Keyword::Hostname => String::from_str("Hostname"),
        Keyword::Localdir => String::from_str("Localdir"),
        Keyword::Volume => String::from_str("Volume"),
        Keyword::StartingPath => String::from_str("StartingPath"),
        Keyword::EndingPath => String::from_str("EndingPath"),
        Keyword::Hash => String::from_str("Hash"),
    }
}

fn word_is_kw(w: &Vec<u8>, k: Keyword) -> (r: bool)
    ensures
        r == (w@ == kw_bytes(k)),
{
    let r = match k {
        Keyword::Hostname => w.len() == 8 && w[0] == 72 && w[1] == 111 && w[2] == 115 && w[3]
            == 116 && w[4] == 110 && w[5] == 97 && w[6] == 109 && w[7] == 101,
        Keyword::Localdir => w.len() == 8 && w[0] == 76 && w[1] == 111 && w[2] == 99 && w[3]
            == 97 && w[4] == 108 && w[5] == 100 && w[6] == 105 && w[7] == 114,
        Keyword::Volume => w.len() == 6 && w[0] == 86 && w[1] == 111 && w[2] == 108 && w[3]
            == 117 && w[4] == 109 && w[5] == 101,
        Keyword::StartingPath => w.len() == 12 && w[0] == 83 && w[1] == 116 && w[2] == 97
            && w[3] == 114 && w[4] == 116 && w[5] == 105 && w[6] == 110 && w[7] == 103 && w[8]
            == 80 && w[9] == 97 && w[10] == 116 && w[11] == 104,
        Keyword::EndingPath => w.len() == 10 && w[0] == 69 && w[1] == 110 && w[2] == 100 && w[3]
            == 105 && w[4] == 110 && w[5] == 103 && w[6] == 80 && w[7] == 97 && w[8] == 116
            && w[9] == 104,
        Keyword::Hash => w.len() == 4 && w[0] == 72 && w[1] == 97 && w[2] == 115 && w[3]
            == 104,
    };
    proof {
        if r {
            assert(w@ =~= kw_bytes(k));
        }
    }
    r
}

// ---------------------------------------------------------------------------
// Parse results, at the specification level
// ---------------------------------------------------------------------------

/// Specification-level volume record.
#[verifier::ext_equal]
pub struct VolumeV {
    pub start_path: Seq<u8>,
    pub start_block: Option<usize>,
    pub end_path: Seq<u8>,
    pub end_block: Option<usize>,
    pub hash_type: Seq<char>,
    pub hash: Seq<u8>,
}

/// Specification-level manifest record.
#[verifier::ext_equal]
pub struct ManifestV {
    pub hostname: Seq<char>,
    pub local_dir: Seq<u8>,
    pub volumes: Seq<VolumeV>,
}

/// Specification-level parse error.
pub enum ParseErrorV {
    Io,
    MissingKeyword(Seq<char>),
    MissingHash,
    MissingHashType,
    MissingPath,
    InvalidHash,
    OutOfOrderVolume(usize),
    ParseInt,
    Utf8,
}

/// The keyworded parameter of a line: the line's first word must be the
/// keyword, the second (if any) is the unescaped parameter.
pub open spec fn spec_param_bytes(line: Seq<u8>, k: Keyword) -> Result<Seq<u8>, ParseErrorV> {
    let ws = spec_words(line);
    if ws.len() == 0 || ws[0] != kw_bytes(k) {
        Err(ParseErrorV::MissingKeyword(kw_name(k)))
    } else if ws.len() < 2 {
        Ok(Seq::empty())
    } else {
        Ok(spec_unescape(ws[1]))
    }
}

/// The volume number of a `Volume N[:]` line.
pub open spec fn spec_volume_num(line: Seq<u8>) -> Result<usize, ParseErrorV> {
    match spec_param_bytes(line, Keyword::Volume) {
        Err(e) => Err(e),
        Ok(p) => {
            let q = if p.len() > 0 && p.last() == 58 {
                p.drop_last()
            } else {
                p
            };
            match spec_parse_usize(q) {
                None => Err(ParseErrorV::ParseInt),
                Some(n) => Ok(n),
            }
        },
    }
}

/// The path and optional block number of a `StartingPath`/`EndingPath` line.
pub open spec fn spec_path_block(line: Seq<u8>, k: Keyword) -> Result<
    (Seq<u8>, Option<usize>),
    ParseErrorV,
> {
    let ws = spec_words(line);
    if ws.len() == 0 || ws[0] != kw_bytes(k) {
        Err(ParseErrorV::MissingKeyword(kw_name(k)))
    } else if ws.len() < 2 {
        Err(ParseErrorV::MissingPath)
    } else {
        let path = spec_unescape(ws[1]);
        if ws.len() < 3 {
            Ok((path, None))
        } else {
            match spec_parse_usize(ws[2]) {
                None => Err(ParseErrorV::ParseInt),
                Some(n) => Ok((path, Some(n))),
            }
        }
    }
}

/// The hash type and hash bytes of a `Hash <type> <value>` line.
pub open spec fn spec_hash_param(line: Seq<u8>) -> Result<(Seq<char>, Seq<u8>), ParseErrorV> {
    let ws = spec_words(line);
    if ws.len() == 0 || ws[0] != kw_bytes(Keyword::Hash) {
        Err(ParseErrorV::MissingKeyword(kw_name(Keyword::Hash)))
    } else if ws.len() < 2 {
        Err(ParseErrorV::MissingHashType)
    } else if !valid_utf8(ws[1]) {
        Err(ParseErrorV::Utf8)
    } else if ws.len() < 3 {
        Err(ParseErrorV::MissingHash)
    } else {
        match spec_hex_decode(ws[2]) {
            None => Err(ParseErrorV::InvalidHash),
            Some(h) => Ok((decode_utf8(ws[1]), h)),
        }
    }
}

/// One volume group: four lines starting at `pos`, whose first line is known
/// to be non-empty. Gives the volume, its stated number, and the position
/// after the group.
pub open spec fn spec_read_volume(input: Seq<u8>, pos: int) -> Result<
    (VolumeV, usize, int),
    ParseErrorV,
> {
    let l1 = spec_line(input, pos);
    let p1 = spec_next_pos(input, pos);
    match spec_volume_num(l1) {
        Err(e) => Err(e),
        Ok(num) => {
            let l2 = spec_line(input, p1);
            let p2 = spec_next_pos(input, p1);
            if l2.len() == 0 {
                Err(ParseErrorV::Io)
            } else {
                match spec_path_block(l2, Keyword::StartingPath) {
                    Err(e) => Err(e),
                    Ok(sp) => {
                        let l3 = spec_line(input, p2);
                        let p3 = spec_next_pos(input, p2);
                        if l3.len() == 0 {
                            Err(ParseErrorV::Io)
                        } else {
                            match spec_path_block(l3, Keyword::EndingPath) {
                                Err(e) => Err(e),
                                Ok(ep) => {
                                    let l4 = spec_line(input, p3);
                                    let p4 = spec_next_pos(input, p3);
                                    if l4.len() == 0 {
                                        Err(ParseErrorV::Io)
                                    } else {
                                        match spec_hash_param(l4) {
                                            Err(e) => Err(e),
                                            Ok(hh) => Ok(
                                                (
                                                    VolumeV {
                                                        start_path: sp.0,
                                                        start_block: sp.1,
                                                        end_path: ep.0,
                                                        end_block: ep.1,
                                                        hash_type: hh.0,
                                                        hash: hh.1,
                                                    },
                                                    num,
                                                    p4,
                                                ),
                                            ),
                                        }
                                    }
                                },
                            }
                        }
                    },
                }
            }
        },
    }
}

proof fn lemma_next_pos_bounds(input: Seq<u8>, pos: int)
    requires
        0 <= pos <= input.len(),
    ensures
        pos <= spec_next_pos(input, pos) <= input.len(),
        spec_line(input, pos).len() > 0 ==> spec_next_pos(input, pos) > pos,
{
    lemma_line_end_bounds(input, pos);
}

proof fn lemma_read_volume_pos(input: Seq<u8>, pos: int)
    requires
        0 <= pos <= input.len(),
        spec_line(input, pos).len() > 0,
    ensures
        spec_read_volume(input, pos) matches Ok(t) ==> pos < t.2 <= input.len(),
{
    let p1 = spec_next_pos(input, pos);
    lemma_next_pos_bounds(input, pos);
    let p2 = spec_next_pos(input, p1);
    lemma_next_pos_bounds(input, p1);
    let p3 = spec_next_pos(input, p2);
    lemma_next_pos_bounds(input, p2);
    lemma_next_pos_bounds(input, p3);
}

/// The volume groups from `pos` on: ends at the first empty line (or the end
/// of input); volume numbers must count up from `next`.
pub open spec fn spec_parse_volumes(input: Seq<u8>, pos: int, next: int) -> Result<
    Seq<VolumeV>,
    ParseErrorV,
>
    decreases input.len() - pos,
    when 0 <= pos <= input.len()
    via spec_parse_volumes_decreases
{
    let l = spec_line(input, pos);
    if l.len() == 0 {
        Ok(Seq::empty())
    } else {
        match spec_read_volume(input, pos) {
            Err(e) => Err(e),
            Ok(t) => {
                if t.1 != next {
                    Err(ParseErrorV::OutOfOrderVolume(t.1))
                } else {
                    match spec_parse_volumes(input, t.2, next + 1) {
                        Err(e) => Err(e),
                        Ok(rest) => Ok(seq![t.0] + rest),
                    }
                }
            },
        }
    }
}

#[via_fn]
proof fn spec_parse_volumes_decreases(input: Seq<u8>, pos: int, next: int) {
    if spec_line(input, pos).len() > 0 {
        lemma_read_volume_pos(input, pos);
    }
}

/// The whole manifest: a `Hostname` line, a `Localdir` line, then volume
/// groups until an empty line or the end of input.
pub open spec fn spec_parse_manifest(input: Seq<u8>) -> Result<ManifestV, ParseErrorV> {
    let l1 = spec_line(input, 0);
    let p1 = spec_next_pos(input, 0);
    if l1.len() == 0 {
        Err(ParseErrorV::Io)
    } else {
        match spec_param_bytes(l1, Keyword::Hostname) {
            Err(e) => Err(e),
            Ok(hb) => {
                if !valid_utf8(hb) {
                    Err(ParseErrorV::Utf8)
                } else {
                    let l2 = spec_line(input, p1);
                    let p2 = spec_next_pos(input, p1);
                    if l2.len() == 0 {
                        Err(ParseErrorV::Io)
                    } else {
                        match spec_param_bytes(l2, Keyword::Localdir) {
                            Err(e) => Err(e),
                            Ok(ld) => match spec_parse_volumes(input, p2, 1) {
                                Err(e) => Err(e),
                                Ok(vols) => Ok(
                                    ManifestV {
                                        hostname: decode_utf8(hb),
                                        local_dir: ld,
                                        volumes: vols,
                                    },
                                ),
                            },
                        }
                    }
                }
            },
        }
    }
}

// ---------------------------------------------------------------------------
// Parsed data types
// ---------------------------------------------------------------------------

/// Why a manifest failed to parse.
#[derive(Debug)]
pub enum ParseError {
    /// The input ended where a line was required.
    Io,
    /// A line did not start with the required keyword.
    MissingKeyword(String),
    /// A `Hash` line without a hash value.
    MissingHash,
    /// A `Hash` line without a hash type.
    MissingHashType,
    /// A path line without a path word.
    MissingPath,
    /// A hash value that is not hexadecimal digit pairs.
    InvalidHash,
    /// A volume number out of the dense increasing order starting at 1.
    OutOfOrderVolume(usize),
    /// A word that should be a decimal number but is not.
    ParseInt,
    /// A textual field that is not valid UTF-8.
    Utf8,
}

impl View for ParseError {
    type V = ParseErrorV;

    closed spec fn view(&self) -> ParseErrorV {
        match self {
            ParseError::Io => ParseErrorV::Io,
            ParseError::MissingKeyword(s) => ParseErrorV::MissingKeyword(s@),
            ParseError::MissingHash => ParseErrorV::MissingHash,
            ParseError::MissingHashType => ParseErrorV::MissingHashType,
            ParseError::MissingPath => ParseErrorV::MissingPath,
            ParseError::InvalidHash => ParseErrorV::InvalidHash,
            ParseError::OutOfOrderVolume(n) => ParseErrorV::OutOfOrderVolume(*n),
            ParseError::ParseInt => ParseErrorV::ParseInt,
            ParseError::Utf8 => ParseErrorV::Utf8,
        }
    }
}

impl ParseError {
    /// A short description of the error.
    pub fn description(&self) -> (r: &'static str)
        ensures
            match self {
                ParseError::Io => r@ == "file ends unexpectedly"@,
                ParseError::MissingKeyword(_) => r@ == "missing keyword in manifest"@,
                ParseError::MissingHash => r@ == "missing required hash"@,
                ParseError::MissingHashType => r@ == "missing required hash type"@,
                ParseError::MissingPath => r@ == "missing required path"@,
                ParseError::InvalidHash => r@ == "hash is not hexadecimal"@,
                ParseError::OutOfOrderVolume(_) => r@
                    == "a volume is missing or volumes are unsorted"@,
                ParseError::ParseInt => r@ == "a number cannot be parsed"@,
                ParseError::Utf8 => r@ == "a textual field is not valid UTF-8"@,
            },
    {
        match self {
            ParseError::Io => "file ends unexpectedly",
            ParseError::MissingKeyword(_) => "missing keyword in manifest",
            ParseError::MissingHash => "missing required hash",
            ParseError::MissingHashType => "missing required hash type",
            ParseError::MissingPath => "missing required path",
            ParseError::InvalidHash => "hash is not hexadecimal",
            ParseError::OutOfOrderVolume(_) => "a volume is missing or volumes are unsorted",
            ParseError::ParseInt => "a number cannot be parsed",
            ParseError::Utf8 => "a textual field is not valid UTF-8",
        }
    }
}

/// A path together with an optional block number within that path.
pub struct PathBlock {
    pub path: RawPath,
    pub block: Option<usize>,
}

/// One volume entry of a manifest.
pub struct Volume {
    start_path: PathBlock,
    end_path: PathBlock,
    hash_type: String,
    hash: Vec<u8>,
}

impl View for Volume {
    type V = VolumeV;

    closed spec fn view(&self) -> VolumeV {
        VolumeV {
            start_path: self.start_path.path@,
            start_block: self.start_path.block,
            end_path: self.end_path.path@,
            end_block: self.end_path.block,
            hash_type: self.hash_type@,
            hash: self.hash@,
        }
    }
}

impl Volume {
    /// The first path covered by the volume.
    pub fn start_path(&self) -> (r: &RawPath)
        ensures
            r@ == self@.start_path,
    {
        &self.start_path.path
    }

    /// The last path covered by the volume.
    pub fn end_path(&self) -> (r: &RawPath)
        ensures
            r@ == self@.end_path,
    {
        &self.end_path.path
    }

    /// The first path, as bytes.
    pub fn start_path_bytes(&self) -> (r: &[u8])
        ensures
            r@ == self@.start_path,
    {
        self.start_path.path.as_bytes()
    }

    /// The last path, as bytes.
    pub fn end_path_bytes(&self) -> (r: &[u8])
        ensures
            r@ == self@.end_path,
    {
        self.end_path.path.as_bytes()
    }

    /// The block of the first path at which the volume starts, if stated.
    pub fn start_block(&self) -> (r: Option<usize>)
        ensures
            r == self@.start_block,
    {
        self.start_path.block
    }

    /// The block of the last path at which the volume ends, if stated.
    pub fn end_block(&self) -> (r: Option<usize>)
        ensures
            r == self@.end_block,
    {
        self.end_path.block
    }

    /// The stated hash algorithm.
    pub fn hash_type(&self) -> (r: &str)
        ensures
            r@ == self@.hash_type,
    {
        self.hash_type.as_str()
    }

    /// The stated hash bytes.
    pub fn hash(&self) -> (r: &[u8])
        ensures
            r@ == self@.hash,
    {
        self.hash.as_slice()
    }
}

/// A parsed manifest: hostname, local directory, and volumes in file order.
pub struct Manifest {
    hostname: String,
    local_dir: RawPath,
    volumes: Vec<Volume>,
}

impl View for Manifest {
    type V = ManifestV;

    closed spec fn view(&self) -> ManifestV {
        ManifestV {
            hostname: self.hostname@,
            local_dir: self.local_dir@,
            volumes: self.volumes@.map_values(|v: Volume| v@),
        }
    }
}

// ---------------------------------------------------------------------------
// The exec parser
// ---------------------------------------------------------------------------

/// Line-oriented parser over a byte input.
pub struct ManifestParser<'a> {
    input: &'a [u8],
    pos: usize,
    buf: Vec<u8>,
}

impl<'a> ManifestParser<'a> {
    /// The whole input.
    pub closed spec fn src(&self) -> Seq<u8> {
        self.input@
    }

    /// The current position in the input.
    pub closed spec fn at(&self) -> int {
        self.pos as int
    }

    /// The most recently read line.
    pub closed spec fn line_buf(&self) -> Seq<u8> {
        self.buf@
    }

    /// The position never leaves the input.
    pub open spec fn wf(&self) -> bool {
        0 <= self.at() <= self.src().len()
    }

    /// A parser at the start of the given input.
    pub fn new(input: &'a [u8]) -> (r: ManifestParser<'a>)
        ensures
            r.wf(),
            r.src() == input@,
            r.at() == 0,
    {
        ManifestParser { input, pos: 0, buf: Vec::new() }
    }

    /// Reads the next line into the internal buffer; false means the line is
    /// empty (an empty line proper, or the end of the input).
    pub fn read_line(&mut self) -> (r: bool)
        requires
            old(self).wf(),
        ensures
            final(self).wf(),
            final(self).src() == old(self).src(),
            final(self).line_buf() == spec_line(old(self).src(), old(self).at()),
            final(self).at() == spec_next_pos(old(self).src(), old(self).at()),
            r == (final(self).line_buf().len() > 0),
    {
        let ghost src = self.input@;
        let ghost start = self.pos as int;
        proof {
            lemma_line_end_bounds(src, start);
        }
        let mut end: usize = self.pos;
        while end < self.input.len() && self.input[end] != 10
            invariant
                start <= end as int <= src.len(),
                self.input@ == src,
                spec_line_end(src, start) == spec_line_end(src, end as int),
            decreases src.len() - end,
        {
            end = end + 1;
        }
        proof {
            assert(spec_line_end(src, start) == end as int);
        }
        let input = self.input;
        let mut b: Vec<u8> = Vec::new();
        let mut i: usize = self.pos;
        while i < end
            invariant
                0 <= start <= i as int <= end as int <= src.len(),
                input@ == src,
                b@ == src.subrange(start, i as int),
            decreases end - i,
        {
            let byte = input[i];
            proof {
                assert(byte == src[i as int]);
            }
            b.push(byte);
            proof {
                assert(b@ =~= src.subrange(start, i + 1));
            }
            i = i + 1;
        }
        self.pos = if end < self.input.len() {
            end + 1
        } else {
            end
        };
        if b.len() > 0 && b[b.len() - 1] == 13 {
            b.pop();
            proof {
                assert(b@ =~= spec_line(src, start));
            }
        } else {
            proof {
                assert(b@ =~= spec_line(src, start));
            }
        }
        self.buf = b;
        self.buf.len() > 0
    }

    /// Reads the keyworded parameter of the current line, as raw bytes.
    pub fn read_param_bytes(&self, key: Keyword) -> (r: Result<Vec<u8>, ParseError>)
        ensures
            match r {
                Ok(v) => spec_param_bytes(self.line_buf(), key) matches Ok(b) && b == v@,
                Err(e) => spec_param_bytes(self.line_buf(), key) matches Err(ev) && ev == e@,
            },
    {
        let words = split_words(self.buf.as_slice());
        proof {
            assert(forall|i: int| 0 <= i < words@.len() ==> #[trigger] words@[i]@
                == words.deep_view()[i]);
        }
        if words.len() == 0 {
            return Err(ParseError::MissingKeyword(kw_string(key)));
        }
        if !word_is_kw(&words[0], key) {
            return Err(ParseError::MissingKeyword(kw_string(key)));
        }
        if words.len() < 2 {
            return Ok(Vec::new());
        }
        Ok(unescape(words[1].as_slice()))
    }

    /// Reads the keyworded parameter of the current line, as text.
    pub fn read_param_str(&self, key: Keyword) -> (r: Result<String, ParseError>)
        ensures
            match r {
                Ok(s) => (spec_param_bytes(self.line_buf(), key) matches Ok(b) && valid_utf8(b)
                    && s@ == decode_utf8(b)),
                Err(e) => (spec_param_bytes(self.line_buf(), key) matches Err(ev) && ev == e@) || (
                e@ is Utf8 && (spec_param_bytes(self.line_buf(), key) matches Ok(b)
                    && !valid_utf8(b))),
            },
    {
        let bytes = match self.read_param_bytes(key) {
            Ok(b) => b,
            Err(e) => {
                return Err(e);
            },
        };
        match string_from_utf8(bytes) {
            Some(s) => Ok(s),
            None => Err(ParseError::Utf8),
        }
    }

    /// Reads a `StartingPath`/`EndingPath` line: a path and an optional
    /// block number.
    pub fn read_path_block(&self, key: Keyword) -> (r: Result<PathBlock, ParseError>)
        ensures
            match r {
                Ok(pb) => spec_path_block(self.line_buf(), key) matches Ok(t) && t == (
                    pb.path@,
                    pb.block,
                ),
                Err(e) => spec_path_block(self.line_buf(), key) matches Err(ev) && ev == e@,
            },
    {
        let words = split_words(self.buf.as_slice());
        proof {
            assert(forall|i: int| 0 <= i < words@.len() ==> #[trigger] words@[i]@
                == words.deep_view()[i]);
        }
        if words.len() == 0 {
            return Err(ParseError::MissingKeyword(kw_string(key)));
        }
        if !word_is_kw(&words[0], key) {
            return Err(ParseError::MissingKeyword(kw_string(key)));
        }
        if words.len() < 2 {
            return Err(ParseError::MissingPath);
        }
        let path = RawPath::from_bytes(unescape(words[1].as_slice()));
        if words.len() < 3 {
            return Ok(PathBlock { path, block: None });
        }
        match parse_usize_word(words[2].as_slice()) {
            None => Err(ParseError::ParseInt),
            Some(n) => Ok(PathBlock { path, block: Some(n) }),
        }
    }

    /// Reads a `Hash <type> <value>` line.
    pub fn read_hash_param(&self) -> (r: Result<(String, Vec<u8>), ParseError>)
        ensures
            match r {
                Ok(th) => spec_hash_param(self.line_buf()) matches Ok(t) && t == (th.0@, th.1@),
                Err(e) => spec_hash_param(self.line_buf()) matches Err(ev) && ev == e@,
            },
    {
        let words = split_words(self.buf.as_slice());
        proof {
            assert(forall|i: int| 0 <= i < words@.len() ==> #[trigger] words@[i]@
                == words.deep_view()[i]);
        }
        if words.len() == 0 {
            return Err(ParseError::MissingKeyword(kw_string(Keyword::Hash)));
        }
        if !word_is_kw(&words[0], Keyword::Hash) {
            return Err(ParseError::MissingKeyword(kw_string(Keyword::Hash)));
        }
        if words.len() < 2 {
            return Err(ParseError::MissingHashType);
        }
        let mut tbytes: Vec<u8> = Vec::new();
        tbytes.extend_from_slice(words[1].as_slice());
        proof {
            let ws = spec_words(self.line_buf());
            assert(ws[1] == words@[1]@);
            assert(tbytes@ =~= words@[1]@);
        }
        let htype = match string_from_utf8(tbytes) {
            Some(s) => s,
            None => {
                return Err(ParseError::Utf8);
            },
        };
        if words.len() < 3 {
            return Err(ParseError::MissingHash);
        }
        match hex_decode_word(words[2].as_slice()) {
            None => Err(ParseError::InvalidHash),
            Some(h) => Ok((htype, h)),
        }
    }

    /// Reads one volume group; an empty line (or the end of input) in place
    /// of its first line ends the volume list instead.
    pub fn read_volume(&mut self) -> (r: Result<Option<(Volume, usize)>, ParseError>)
        requires
            old(self).wf(),
        ensures
            final(self).wf(),
            final(self).src() == old(self).src(),
            spec_line(old(self).src(), old(self).at()).len() == 0 ==> (r matches Ok(o) && o
                is None),
            spec_line(old(self).src(), old(self).at()).len() > 0 ==> match spec_read_volume(
                old(self).src(),
                old(self).at(),
            ) {
                Ok(t) => r matches Ok(o) && o matches Some(vn) && vn.0@ == t.0 && vn.1 == t.1
                    && final(self).at() == t.2,
                Err(ev) => r matches Err(e) && e@ == ev,
            },
    {
        let ghost src = self.input@;
        let ghost at0 = self.at();
        if !self.read_line() {
            return Ok(None);
        }
        let mut param = match self.read_param_bytes(Keyword::Volume) {
            Ok(p) => p,
            Err(e) => {
                return Err(e);
            },
        };
        if param.len() > 0 && param[param.len() - 1] == 58 {
            let ghost pv = param@;
            param.pop();
            proof {
                assert(param@ =~= pv.drop_last());
            }
        }
        let num = match parse_usize_word(param.as_slice()) {
            Some(n) => n,
            None => {
                return Err(ParseError::ParseInt);
            },
        };
        if !self.read_line() {
            return Err(ParseError::Io);
        }
        let start_path = match self.read_path_block(Keyword::StartingPath) {
            Ok(p) => p,
            Err(e) => {
                return Err(e);
            },
        };
        if !self.read_line() {
            return Err(ParseError::Io);
        }
        let end_path = match self.read_path_block(Keyword::EndingPath) {
            Ok(p) => p,
            Err(e) => {
                return Err(e);
            },
        };
        if !self.read_line() {
            return Err(ParseError::Io);
        }
        let th = match self.read_hash_param() {
            Ok(t) => t,
            Err(e) => {
                return Err(e);
            },
        };
        let vol = Volume { start_path, end_path, hash_type: th.0, hash: th.1 };
        proof {
            assert(spec_read_volume(src, at0) matches Ok(t) && t.0 =~= vol@ && t.1 == num && t.2
                == final(self).at());
        }
        Ok(Some((vol, num)))
    }

    /// Parses the whole input as a manifest.
    #[verifier::rlimit(50)]
    #[verifier::loop_isolation(false)]
    pub fn parse(self) -> (r: Result<Manifest, ParseError>)
        requires
            self.wf(),
            self.at() == 0,
        ensures
            match r {
                Ok(m) => spec_parse_manifest(self.src()) matches Ok(mv) && mv == m@,
                Err(e) => spec_parse_manifest(self.src()) matches Err(ev) && ev == e@,
            },
    {
        let ghost src = self.src();
        let mut p = self;
        if !p.read_line() {
            return Err(ParseError::Io);
        }
        let hostname = match p.read_param_str(Keyword::Hostname) {
            Ok(h) => h,
            Err(e) => {
                return Err(e);
            },
        };
        if !p.read_line() {
            return Err(ParseError::Io);
        }
        let local_dir_bytes = match p.read_param_bytes(Keyword::Localdir) {
            Ok(b) => b,
            Err(e) => {
                return Err(e);
            },
        };
        let local_dir = RawPath::from_bytes(local_dir_bytes);
        let ghost p2 = p.at();
        let ghost hostv = hostname@;
        let ghost ldv = local_dir@;
        proof {
            let l1 = spec_line(src, 0);
            let p1 = spec_next_pos(src, 0);
            assert(l1.len() > 0);
            assert(spec_param_bytes(l1, Keyword::Hostname) matches Ok(hb) && valid_utf8(hb)
                && hostv == decode_utf8(hb));
            let l2 = spec_line(src, p1);
            assert(l2.len() > 0);
            assert(spec_param_bytes(l2, Keyword::Localdir) matches Ok(ld) && ldv == ld);
        }
        let mut volumes: Vec<Volume> = Vec::new();
        loop
            invariant
                p.wf(),
                p.src() == src,
                hostname@ == hostv,
                local_dir@ == ldv,
                0 <= p2 <= src.len(),
                spec_parse_manifest(src) == (match spec_parse_volumes(src, p2, 1) {
                    Err(e) => Err::<ManifestV, ParseErrorV>(e),
                    Ok(vols) => Ok(
                        ManifestV { hostname: hostv, local_dir: ldv, volumes: vols },
                    ),
                }),
                match spec_parse_volumes(src, p.at(), volumes@.len() as int + 1) {
                    Ok(rest) => spec_parse_volumes(src, p2, 1) == Ok::<Seq<VolumeV>, ParseErrorV>(
                        volumes@.map_values(|v: Volume| v@) + rest,
                    ),
                    Err(e) => spec_parse_volumes(src, p2, 1) == Err::<Seq<VolumeV>, ParseErrorV>(e),
                },
            decreases src.len() - p.at(),
        {
            let ghost at0 = p.at();
            let ghost next = volumes@.len() as int + 1;
            let step = match p.read_volume() {
                Ok(s) => s,
                Err(e) => {
                    proof {
                        assert(spec_line(src, at0).len() > 0);
                        assert(spec_parse_volumes(src, at0, next) == Err::<
                            Seq<VolumeV>,
                            ParseErrorV,
                        >(e@));
                    }
                    return Err(e);
                },
            };
            match step {
                None => {
                    proof {
                        assert(spec_line(src, at0).len() == 0);
                        assert(spec_parse_volumes(src, at0, next) == Ok::<
                            Seq<VolumeV>,
                            ParseErrorV,
                        >(Seq::empty()));
                        assert(volumes@.map_values(|v: Volume| v@) + Seq::<VolumeV>::empty()
                            =~= volumes@.map_values(|v: Volume| v@));
                    }
                    let m = Manifest { hostname, local_dir, volumes };
                    proof {
                        assert(spec_parse_volumes(src, p2, 1) matches Ok(vs) && vs
                            =~~= m@.volumes);
                        assert(spec_parse_manifest(src) matches Ok(mv) && mv =~~= m@);
                    }
                    return Ok(m);
                },
                Some(vn) => {
                    let (vol, num) = vn;
                    proof {
                        assert(spec_line(src, at0).len() > 0);
                        lemma_read_volume_pos(src, at0);
                    }
                    if volumes.len() == usize::MAX || num != volumes.len() + 1 {
                        proof {
                            assert(num != next);
                            assert(spec_parse_volumes(src, at0, next) == Err::<
                                Seq<VolumeV>,
                                ParseErrorV,
                            >(ParseErrorV::OutOfOrderVolume(num)));
                        }
                        return Err(ParseError::OutOfOrderVolume(num));
                    }
                    let ghost prevmap = volumes@.map_values(|v: Volume| v@);
                    volumes.push(vol);
                    proof {
                        assert(volumes@.map_values(|v: Volume| v@) =~= prevmap + seq![vol@]);
                        match spec_parse_volumes(src, p.at(), volumes@.len() as int + 1) {
                            Ok(rest) => {
                                assert(prevmap + (seq![vol@] + rest) =~= (prevmap + seq![vol@])
                                    + rest);
                            },
                            Err(e) => {},
                        }
                    }
                },
            }
        }
    }
}

/// Relies on String::from_utf8: succeeds exactly on valid UTF-8 input and
/// decodes it to the corresponding characters.
#[verifier::external_body]
fn string_from_utf8(b: Vec<u8>) -> (r: Option<String>)
    ensures
        r is Some <==> valid_utf8(b@),
        r matches Some(s) ==> s@ == decode_utf8(b@),
{
    String::from_utf8(b).ok()
}

impl Manifest {
    /// Parses manifest text into a manifest.
    pub fn parse(input: &[u8]) -> (r: Result<Manifest, ParseError>)
        ensures
            match r {
                Ok(m) => spec_parse_manifest(input@) matches Ok(mv) && mv == m@,
                Err(e) => spec_parse_manifest(input@) matches Err(ev) && ev == e@,
            },
    {
        ManifestParser::new(input).parse()
    }

    /// The hostname the backup was taken on.
    pub fn hostname(&self) -> (r: Option<&str>)
        ensures
            r matches Some(h) && h@ == self@.hostname,
    {
        Some(self.hostname.as_str())
    }

    /// The directory that was backed up.
    pub fn local_dir(&self) -> (r: &RawPath)
        ensures
            r@ == self@.local_dir,
    {
        &self.local_dir
    }

    /// The number of volumes.
    pub fn max_vol_num(&self) -> (r: usize)
        ensures
            r == self@.volumes.len(),
    {
        self.volumes.len()
    }

    /// The volume with the given 1-based number.
    pub fn volume(&self, num: usize) -> (r: Option<&Volume>)
        ensures
            match r {
                Some(v) => 1 <= num <= self@.volumes.len() && v@ == self@.volumes[num - 1],
                None => num == 0 || num > self@.volumes.len(),
            },
    {
        if num == 0 {
            None
        } else if num > self.volumes.len() {
            None
        } else {
            let v = &self.volumes[num - 1];
            proof {
                assert(self@.volumes[num - 1] == self.volumes@.map_values(|v: Volume| v@)[num
                    - 1]);
            }
            Some(v)
        }
    }
}


// ---------------------------------------------------------------------------
// Byte-lexicographic order
// ---------------------------------------------------------------------------

/// Strict lexicographic order on byte strings.
pub open spec fn lex_lt(a: Seq<u8>, b: Seq<u8>) -> bool
    decreases a.len(),
{
    if b.len() == 0 {
        false
    } else if a.len() == 0 {
        true
    } else if a[0] < b[0] {
        true
    } else if a[0] > b[0] {
        false
    } else {
        lex_lt(a.drop_first(), b.drop_first())
    }
}

/// Lexicographic order on byte strings.
pub open spec fn lex_le(a: Seq<u8>, b: Seq<u8>) -> bool {
    lex_lt(a, b) || a == b
}

pub proof fn lemma_lex_trichotomy(a: Seq<u8>, b: Seq<u8>)
    ensures
        lex_lt(a, b) || a == b || lex_lt(b, a),
        lex_lt(a, b) ==> a != b && !lex_lt(b, a),
        a == b ==> !lex_lt(a, b),
    decreases a.len(),
{
    if a.len() == 0 && b.len() == 0 {
        assert(a =~= b);
    } else if a.len() == 0 || b.len() == 0 {
    } else if a[0] < b[0] {
    } else if a[0] > b[0] {
    } else {
        lemma_lex_trichotomy(a.drop_first(), b.drop_first());
        if a.drop_first() == b.drop_first() {
            assert forall|k: int| 0 <= k < a.len() implies a[k] == b[k] by {
                if k > 0 {
                    assert(a.drop_first()[k - 1] == b.drop_first()[k - 1]);
                }
            }
            assert(a =~= b);
        }
        if a == b {
            assert(a.drop_first() =~= b.drop_first());
        }
    }
}

pub proof fn lemma_lex_lt_trans(a: Seq<u8>, b: Seq<u8>, c: Seq<u8>)
    requires
        lex_lt(a, b),
        lex_lt(b, c),
    ensures
        lex_lt(a, c),
    decreases a.len(),
{
    if a.len() == 0 {
    } else {
        if a[0] == b[0] && b[0] == c[0] {
            lemma_lex_lt_trans(a.drop_first(), b.drop_first(), c.drop_first());
        }
    }
}

pub proof fn lemma_lex_le_trans(a: Seq<u8>, b: Seq<u8>, c: Seq<u8>)
    requires
        lex_le(a, b),
        lex_le(b, c),
    ensures
        lex_le(a, c),
{
    if lex_lt(a, b) && lex_lt(b, c) {
        lemma_lex_lt_trans(a, b, c);
    }
}

pub proof fn lemma_lex_le_lt_trans(a: Seq<u8>, b: Seq<u8>, c: Seq<u8>)
    requires
        lex_le(a, b),
        lex_lt(b, c),
    ensures
        lex_lt(a, c),
{
    if lex_lt(a, b) {
        lemma_lex_lt_trans(a, b, c);
    }
}

proof fn lemma_lex_skip(a: Seq<u8>, b: Seq<u8>, i: int)
    requires
        0 <= i <= a.len(),
        i <= b.len(),
        a.take(i) == b.take(i),
    ensures
        lex_lt(a, b) == lex_lt(a.skip(i), b.skip(i)),
    decreases i,
{
    if i == 0 {
        assert(a.skip(0) =~= a);
        assert(b.skip(0) =~= b);
    } else {
        assert(a.take(i)[0] == a[0] && b.take(i)[0] == b[0]);
        assert(a[0] == b[0]);
        assert(a.len() > 0 && b.len() > 0);
        assert(a.drop_first().take(i - 1) =~= a.take(i).drop_first());
        assert(b.drop_first().take(i - 1) =~= b.take(i).drop_first());
        lemma_lex_skip(a.drop_first(), b.drop_first(), i - 1);
        assert(a.drop_first().skip(i - 1) =~= a.skip(i));
        assert(b.drop_first().skip(i - 1) =~= b.skip(i));
    }
}

/// Three-way outcome of a byte comparison.
pub enum PathOrd {
    Less,
    Equal,
    Greater,
}

/// Three-way byte-lexicographic comparison.
pub fn cmp_bytes(a: &[u8], b: &[u8]) -> (r: PathOrd)
    ensures
        r is Less <==> lex_lt(a@, b@),
        r is Equal <==> a@ == b@,
        r is Greater <==> lex_lt(b@, a@),
{
    proof {
        lemma_lex_trichotomy(a@, b@);
    }
    let n: usize = if a.len() <= b.len() {
        a.len()
    } else {
        b.len()
    };
    let mut i: usize = 0;
    while i < n
        invariant
            0 <= i <= n,
            n <= a@.len(),
            n <= b@.len(),
            a@.take(i as int) == b@.take(i as int),
        decreases n - i,
    {
        if a[i] < b[i] {
            proof {
                lemma_lex_skip(a@, b@, i as int);
                lemma_lex_trichotomy(a@, b@);
            }
            return PathOrd::Less;
        }
        if a[i] > b[i] {
            proof {
                lemma_lex_skip(b@, a@, i as int);
                lemma_lex_trichotomy(a@, b@);
            }
            return PathOrd::Greater;
        }
        proof {
            assert(a@.take(i + 1) =~= b@.take(i + 1));
        }
        i = i + 1;
    }
    if a.len() == b.len() {
        proof {
            assert(a@.take(i as int) =~= a@);
            assert(b@.take(i as int) =~= b@);
            assert(a@ =~= b@);
        }
        PathOrd::Equal
    } else if a.len() < b.len() {
        proof {
            lemma_lex_skip(a@, b@, i as int);
            lemma_lex_trichotomy(a@, b@);
        }
        PathOrd::Less
    } else {
        proof {
            lemma_lex_skip(b@, a@, i as int);
            lemma_lex_trichotomy(a@, b@);
        }
        PathOrd::Greater
    }
}

// ---------------------------------------------------------------------------
// Manifest well-formedness and the path -> volume index
// ---------------------------------------------------------------------------

/// The block number stated in a path line, zero when absent.
pub open spec fn blk(b: Option<usize>) -> int {
    match b {
        Some(n) => n as int,
        None => 0,
    }
}

/// A volume covers a non-empty path range, and where one volume ends in the
/// middle of a path the next must continue it at a later block.
pub open spec fn adjacent_ok(a: VolumeV, b: VolumeV) -> bool {
    lex_lt(a.end_path, b.start_path) || (a.end_path == b.start_path && blk(a.end_block) < blk(
        b.start_block,
    ))
}

/// Well-formedness of a manifest: each volume's range is ordered, and
/// consecutive volumes do not overlap.
pub open spec fn manifest_wf(m: ManifestV) -> bool {
    &&& forall|i: int| 0 <= i < m.volumes.len() ==> lex_le(
        #[trigger] m.volumes[i].start_path,
        m.volumes[i].end_path,
    )
    &&& forall|i: int| 0 <= i < m.volumes.len() - 1 ==> adjacent_ok(
        #[trigger] m.volumes[i],
        m.volumes[i + 1],
    )
}

/// Each volume's end comes no later than the next volume's start, comparing
/// `(path, block)` pairs with a missing block read as zero.
pub open spec fn volumes_ordered(m: ManifestV) -> bool {
    forall|i: int| 0 <= i < m.volumes.len() - 1 ==> (lex_lt(
        #[trigger] m.volumes[i].end_path,
        m.volumes[i + 1].start_path,
    ) || (m.volumes[i].end_path == m.volumes[i + 1].start_path && blk(m.volumes[i].end_block)
        <= blk(m.volumes[i + 1].start_block)))
}

/// In a well-formed manifest, adjacent volumes are ordered by their
/// `(end path, end block) <= (start path, start block)` pairs.
pub proof fn lemma_wf_volumes_ordered(m: ManifestV)
    requires
        manifest_wf(m),
    ensures
        volumes_ordered(m),
{
}

/// A parsed manifest that satisfies the volume well-formedness invariant
/// lists its volumes so that each volume's `(end path, end block)` pair
/// comes no later than the next volume's `(start path, start block)` pair,
/// in raw byte order. (A manifest text whose volumes are out of that order
/// still parses, since the grammar's errors do not cover path order; such a
/// manifest is the one kind left out here, and `check_well_formed` tells it
/// apart.)
pub proof fn lemma_parsed_volumes_ordered(input: Seq<u8>)
    requires
        spec_parse_manifest(input) is Ok,
        manifest_wf(spec_parse_manifest(input)->Ok_0),
    ensures
        volumes_ordered(spec_parse_manifest(input)->Ok_0),
{
    lemma_wf_volumes_ordered(spec_parse_manifest(input)->Ok_0);
}

/// Whether a path lies in the volume's `[start, end]` path range.
pub open spec fn vol_contains(v: VolumeV, p: Seq<u8>) -> bool {
    lex_le(v.start_path, p) && lex_le(p, v.end_path)
}

/// Whether the volume holds the beginning of the path: it contains the path
/// and does not start in its middle.
pub open spec fn vol_first_contains(v: VolumeV, p: Seq<u8>) -> bool {
    vol_contains(v, p) && !(p == v.start_path && blk(v.start_block) > 0)
}

/// The three-way comparison the volume search uses.
pub open spec fn spec_vol_cmp(v: VolumeV, p: Seq<u8>) -> PathOrd {
    if lex_lt(p, v.start_path) {
        PathOrd::Greater
    } else if p == v.start_path {
        if blk(v.start_block) > 0 {
            PathOrd::Greater
        } else {
            PathOrd::Equal
        }
    } else {
        if lex_lt(v.end_path, p) {
            PathOrd::Less
        } else {
            PathOrd::Equal
        }
    }
}

proof fn lemma_cmp_equal_iff(v: VolumeV, p: Seq<u8>)
    requires
        lex_le(v.start_path, v.end_path),
    ensures
        (spec_vol_cmp(v, p) is Equal) <==> vol_first_contains(v, p),
{
    lemma_lex_trichotomy(p, v.start_path);
    lemma_lex_trichotomy(p, v.end_path);
    if p == v.start_path {
    } else if lex_lt(v.start_path, p) {
        assert(lex_le(v.start_path, p));
    }
}

proof fn lemma_end_le_start(m: ManifestV, i: int, j: int)
    requires
        manifest_wf(m),
        0 <= i < j < m.volumes.len(),
    ensures
        lex_le(m.volumes[i].end_path, m.volumes[j].start_path),
    decreases j - i,
{
    if j == i + 1 {
    } else {
        lemma_end_le_start(m, i, j - 1);
        lemma_lex_le_trans(
            m.volumes[i].end_path,
            m.volumes[j - 1].start_path,
            m.volumes[j - 1].end_path,
        );
        lemma_lex_le_trans(
            m.volumes[i].end_path,
            m.volumes[j - 1].end_path,
            m.volumes[j].start_path,
        );
    }
}

proof fn lemma_after_covered(m: ManifestV, p: Seq<u8>, i: int, j: int)
    requires
        manifest_wf(m),
        0 <= i < j < m.volumes.len(),
        lex_le(p, m.volumes[i].end_path),
    ensures
        spec_vol_cmp(m.volumes[j], p) is Greater,
{
    lemma_end_le_start(m, i, j);
    lemma_lex_le_trans(p, m.volumes[i].end_path, m.volumes[j].start_path);
    lemma_lex_trichotomy(p, m.volumes[j].start_path);
    if !lex_lt(p, m.volumes[j].start_path) {
        // p equals the start of volume j; every path between is p too, so the
        // previous volume ends at p and volume j must start at a later block.
        assert(p == m.volumes[j].start_path);
        let e = m.volumes[j - 1].end_path;
        assert(lex_le(e, m.volumes[j].start_path));
        if j - 1 == i {
            lemma_lex_trichotomy(p, e);
        } else {
            lemma_end_le_start(m, i, j - 1);
            lemma_lex_le_trans(p, m.volumes[i].end_path, m.volumes[j - 1].start_path);
            lemma_lex_le_trans(p, m.volumes[j - 1].start_path, e);
            lemma_lex_trichotomy(p, e);
        }
        assert(e == p);
        assert(adjacent_ok(m.volumes[j - 1], m.volumes[j]));
        lemma_lex_trichotomy(e, m.volumes[j].start_path);
        assert(blk(m.volumes[j].start_block) > blk(m.volumes[j - 1].end_block));
        assert(blk(m.volumes[j].start_block) > 0);
    }
}

proof fn lemma_before_uncovered(m: ManifestV, p: Seq<u8>, i: int, k: int)
    requires
        manifest_wf(m),
        0 <= k < i < m.volumes.len(),
        lex_lt(m.volumes[i].end_path, p),
    ensures
        spec_vol_cmp(m.volumes[k], p) is Less,
{
    lemma_end_le_start(m, k, i);
    lemma_lex_le_trans(m.volumes[k].end_path, m.volumes[i].start_path, m.volumes[i].end_path);
    lemma_lex_le_lt_trans(m.volumes[k].end_path, m.volumes[i].end_path, p);
    lemma_lex_le_lt_trans(m.volumes[k].start_path, m.volumes[k].end_path, p);
    lemma_lex_trichotomy(p, m.volumes[k].start_path);
    lemma_lex_trichotomy(p, m.volumes[k].end_path);
}

fn vol_cmp(v: &Volume, p: &[u8]) -> (r: PathOrd)
    ensures
        r == spec_vol_cmp(v@, p@),
{
    match cmp_bytes(p, v.start_path_bytes()) {
        PathOrd::Less => PathOrd::Greater,
        PathOrd::Equal => {
            match v.start_block() {
                Some(n) if n > 0 => PathOrd::Greater,
                _ => PathOrd::Equal,
            }
        },
        PathOrd::Greater => {
            proof {
                lemma_lex_trichotomy(p@, v@.start_path);
            }
            match cmp_bytes(p, v.end_path_bytes()) {
                PathOrd::Greater => PathOrd::Less,
                _ => PathOrd::Equal,
            }
        },
    }
}

impl Manifest {
    /// Checks the manifest's volume ordering invariant.
    pub fn check_well_formed(&self) -> (r: bool)
        ensures
            r == manifest_wf(self@),
    {
        let n = self.volumes.len();
        let mut i: usize = 0;
        while i < n
            invariant
                0 <= i <= n,
                n == self@.volumes.len(),
                forall|j: int| 0 <= j < i ==> lex_le(
                    #[trigger] self@.volumes[j].start_path,
                    self@.volumes[j].end_path,
                ),
                forall|j: int| 0 <= j < i - 1 ==> adjacent_ok(
                    #[trigger] self@.volumes[j],
                    self@.volumes[j + 1],
                ),
            decreases n - i,
        {
            let v = self.volume(i + 1).unwrap();
            match cmp_bytes(v.start_path_bytes(), v.end_path_bytes()) {
                PathOrd::Greater => {
                    proof {
                        lemma_lex_trichotomy(self@.volumes[i as int].start_path, self@.volumes[i as int].end_path);
                    }
                    return false;
                },
                _ => {},
            }
            if i > 0 {
                let prev = self.volume(i).unwrap();
                let ok = match cmp_bytes(prev.end_path_bytes(), v.start_path_bytes()) {
                    PathOrd::Less => true,
                    PathOrd::Equal => {
                        let eb = match prev.end_block() {
                            Some(e) => e,
                            None => 0,
                        };
                        let sb = match v.start_block() {
                            Some(b) => b,
                            None => 0,
                        };
                        eb < sb
                    },
                    PathOrd::Greater => false,
                };
                if !ok {
                    proof {
                        lemma_lex_trichotomy(
                            self@.volumes[i - 1].end_path,
                            self@.volumes[i as int].start_path,
                        );
                        assert(!adjacent_ok(self@.volumes[i - 1], self@.volumes[i as int]));
                    }
                    return false;
                }
            }
            i = i + 1;
        }
        true
    }

    /// Binary search for the first volume whose path range holds the given
    /// path; meaningful on well-formed manifests.
    pub fn first_volume_of_path(&self, path: &[u8]) -> (r: Option<usize>)
        ensures
            manifest_wf(self@) ==> match r {
                Some(k) => 1 <= k <= self@.volumes.len() && vol_first_contains(
                    self@.volumes[k - 1],
                    path@,
                ) && forall|j: int|
                    0 <= j < self@.volumes.len() && j != k - 1 ==> !vol_first_contains(
                        #[trigger] self@.volumes[j],
                        path@,
                    ),
                None => forall|j: int|
                    0 <= j < self@.volumes.len() ==> !vol_first_contains(
                        #[trigger] self@.volumes[j],
                        path@,
                    ),
            },
    {
        let ghost mv = self@;
        let ghost pv = path@;
        let n = self.volumes.len();
        let mut lo: usize = 0;
        let mut hi: usize = n;
        while lo < hi
            invariant
                0 <= lo <= hi <= n,
                n == mv.volumes.len(),
                mv == self@,
                pv == path@,
                manifest_wf(mv) ==> forall|j: int| 0 <= j < lo ==> spec_vol_cmp(
                    #[trigger] mv.volumes[j],
                    pv,
                ) is Less,
                manifest_wf(mv) ==> forall|j: int| hi <= j < n ==> spec_vol_cmp(
                    #[trigger] mv.volumes[j],
                    pv,
                ) is Greater,
            decreases hi - lo,
        {
            let mid = lo + (hi - lo) / 2;
            let v = &self.volumes[mid];
            proof {
                assert(v@ == mv.volumes[mid as int]);
            }
            match vol_cmp(v, path) {
                PathOrd::Less => {
                    proof {
                        if manifest_wf(mv) {
                            assert(lex_lt(mv.volumes[mid as int].end_path, pv)) by {
                                lemma_lex_trichotomy(pv, mv.volumes[mid as int].end_path);
                                lemma_lex_trichotomy(pv, mv.volumes[mid as int].start_path);
                            }
                            assert forall|j: int| 0 <= j < mid + 1 implies spec_vol_cmp(
                                #[trigger] mv.volumes[j],
                                pv,
                            ) is Less by {
                                if j < mid {
                                    lemma_before_uncovered(mv, pv, mid as int, j);
                                }
                            }
                        }
                    }
                    lo = mid + 1;
                },
                PathOrd::Greater => {
                    proof {
                        if manifest_wf(mv) {
                            assert forall|j: int| mid <= j < n implies spec_vol_cmp(
                                #[trigger] mv.volumes[j],
                                pv,
                            ) is Greater by {
                                if j > mid {
                                    assert(lex_le(pv, mv.volumes[mid as int].end_path)) by {
                                        lemma_lex_trichotomy(pv, mv.volumes[mid as int].start_path);
                                        lemma_lex_le_trans(
                                            pv,
                                            mv.volumes[mid as int].start_path,
                                            mv.volumes[mid as int].end_path,
                                        );
                                    }
                                    lemma_after_covered(mv, pv, mid as int, j);
                                }
                            }
                        }
                    }
                    hi = mid;
                },
                PathOrd::Equal => {
                    proof {
                        if manifest_wf(mv) {
                            lemma_cmp_equal_iff(mv.volumes[mid as int], pv);
                            assert(vol_first_contains(mv.volumes[mid as int], pv));
                            assert forall|j: int|
                                0 <= j < n && j != mid as int implies !vol_first_contains(
                                #[trigger] mv.volumes[j],
                                pv,
                            ) by {
                                if j > mid as int {
                                    lemma_after_covered(mv, pv, mid as int, j);
                                    lemma_cmp_equal_iff(mv.volumes[j], pv);
                                } else {
                                    if vol_first_contains(mv.volumes[j], pv) {
                                        lemma_after_covered(mv, pv, j, mid as int);
                                    }
                                }
                            }
                        }
                    }
                    return Some(mid + 1);
                },
            }
        }
        proof {
            if manifest_wf(mv) {
                assert forall|j: int| 0 <= j < n implies !vol_first_contains(
                    #[trigger] mv.volumes[j],
                    pv,
                ) by {
                    lemma_cmp_equal_iff(mv.volumes[j], pv);
                }
            }
        }
        None
    }

    /// Whether block `k` of path `p` lies in the volume's range: at or after
    /// `(start path, start block)` and, unless the volume ends past the
    /// path, at or before `(end path, end block)`.
    pub open spec fn spec_contains_block(v: VolumeV, p: Seq<u8>, k: int) -> bool {
        &&& (lex_lt(v.start_path, p) || (v.start_path == p && blk(v.start_block) <= k))
        &&& (lex_lt(p, v.end_path) || (p == v.end_path && match v.end_block {
            None => true,
            Some(e) => k <= e,
        }))
    }

    /// The smallest volume number holding block `block` of the given path.
    pub fn volume_of_block(&self, path: &[u8], block: usize) -> (r: Option<usize>)
        ensures
            match r {
                Some(k) => 1 <= k <= self@.volumes.len() && Self::spec_contains_block(
                    self@.volumes[k - 1],
                    path@,
                    block as int,
                ) && forall|j: int|
                    0 <= j < k - 1 ==> !Self::spec_contains_block(
                        #[trigger] self@.volumes[j],
                        path@,
                        block as int,
                    ),
                None => forall|j: int|
                    0 <= j < self@.volumes.len() ==> !Self::spec_contains_block(
                        #[trigger] self@.volumes[j],
                        path@,
                        block as int,
                    ),
            },
    {
        let n = self.volumes.len();
        let mut i: usize = 0;
        while i < n
            invariant
                0 <= i <= n,
                n == self@.volumes.len(),
                forall|j: int| 0 <= j < i ==> !Self::spec_contains_block(
                    #[trigger] self@.volumes[j],
                    path@,
                    block as int,
                ),
            decreases n - i,
        {
            let v = &self.volumes[i];
            proof {
                assert(v@ == self@.volumes[i as int]);
            }
            let start_ok = match cmp_bytes(v.start_path_bytes(), path) {
                PathOrd::Less => true,
                PathOrd::Equal => {
                    let sb = match v.start_block() {
                        Some(b) => b,
                        None => 0,
                    };
                    sb <= block
                },
                PathOrd::Greater => false,
            };
            let end_ok = match cmp_bytes(path, v.end_path_bytes()) {
                PathOrd::Less => true,
                PathOrd::Equal => {
                    match v.end_block() {
                        None => true,
                        Some(e) => block <= e,
                    }
                },
                PathOrd::Greater => false,
            };
            if start_ok && end_ok {
                proof {
                    lemma_lex_trichotomy(v@.start_path, path@);
                    lemma_lex_trichotomy(path@, v@.end_path);
                }
                return Some(i + 1);
            }
            proof {
                lemma_lex_trichotomy(v@.start_path, path@);
                lemma_lex_trichotomy(path@, v@.end_path);
            }
            i = i + 1;
        }
        None
    }
}


/// Manifests indexed by snapshot number: 0 is the full backup, later ones
/// its incremental successors.
pub struct ManifestChain {
    manifests: Vec<Manifest>,
}

impl ManifestChain {
    /// The manifests, in snapshot order.
    pub closed spec fn spec_manifests(&self) -> Seq<ManifestV> {
        self.manifests@.map_values(|m: Manifest| m@)
    }

    /// An empty chain.
    pub fn new() -> (r: ManifestChain)
        ensures
            r.spec_manifests().len() == 0,
    {
        ManifestChain { manifests: Vec::new() }
    }

    /// Appends the manifest of the next snapshot.
    pub fn push(&mut self, m: Manifest)
        ensures
            final(self).spec_manifests() == old(self).spec_manifests().push(m@),
    {
        self.manifests.push(m);
        proof {
            assert(self.spec_manifests() =~= old(self).spec_manifests().push(m@));
        }
    }

    /// How many snapshots the chain holds.
    pub fn len(&self) -> (r: usize)
        ensures
            r == self.spec_manifests().len(),
    {
        self.manifests.len()
    }

    /// The manifest of snapshot `i`.
    pub fn get(&self, i: usize) -> (r: Option<&Manifest>)
        ensures
            match r {
                Some(m) => i < self.spec_manifests().len() && m@ == self.spec_manifests()[i as int],
                None => i >= self.spec_manifests().len(),
            },
    {
        if i < self.manifests.len() {
            Some(&self.manifests[i])
        } else {
            None
        }
    }
}
} // verus!

// The parser section: spec-level parse of the manifest grammar, the exec
// parser proved equal to it, and the parsed data types.
