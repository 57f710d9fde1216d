//! Coordinates over the text buffer: character offsets, byte offsets and lines.
//!
//! The buffer is a `ropey::Rope`. Its contents are modelled as a sequence of
//! characters, and every conversion is stated over that sequence.
use ropey::Rope;
use vstd::prelude::*;
use vstd::utf8::{encode_scalar, encode_utf8};

verus! {

/// `ropey::Rope`, the text buffer.
#[verifier::external_type_specification]
#[verifier::external_body]
pub struct ExRope(ropey::Rope);

/// The characters that a rope holds, in order.
pub uninterp spec fn rope_chars(text: Rope) -> Seq<char>;

/// Number of bytes that the first `n` characters of `chars` take in UTF-8.
pub open spec fn prefix_bytes(chars: Seq<char>, n: int) -> int {
    encode_utf8(chars.take(n)).len() as int
}

/// Number of bytes that the whole of `chars` takes in UTF-8.
pub open spec fn total_bytes(chars: Seq<char>) -> int {
    prefix_bytes(chars, chars.len() as int)
}

/// The index of the character that byte `b` belongs to: the largest `n` for
/// which the first `n` characters take at most `b` bytes.
pub open spec fn char_of_byte(chars: Seq<char>, b: int) -> int
    decreases chars.len(),
{
    if chars.len() == 0 {
        0
    } else if total_bytes(chars) <= b {
        chars.len() as int
    } else {
        char_of_byte(chars.drop_last(), b)
    }
}

/// Number of line feeds among the first `n` characters of `chars`.
pub open spec fn prefix_lines(chars: Seq<char>, n: int) -> int
    decreases n,
{
    if n <= 0 {
        0
    } else {
        prefix_lines(chars, n - 1) + if chars[n - 1] == '\n' { 1int } else { 0int }
    }
}

/// Number of lines of `chars`: one more than its line feeds.
pub open spec fn total_lines(chars: Seq<char>) -> int {
    prefix_lines(chars, chars.len() as int) + 1
}

/// The character offset at which line `line` starts: just behind the
/// `line`-th line feed, or the end of the text where there are fewer.
pub open spec fn line_start(chars: Seq<char>, line: int) -> int
    decreases chars.len(),
{
    if line <= 0 || chars.len() == 0 {
        0
    } else if chars[0] == '\n' {
        1 + line_start(chars.drop_first(), line - 1)
    } else {
        1 + line_start(chars.drop_first(), line)
    }
}

/// The byte offset at which line `line` starts.
pub open spec fn line_start_byte(chars: Seq<char>, line: int) -> int {
    prefix_bytes(chars, line_start(chars, line))
}

/// `Rope::try_char_to_byte`: the byte offset of the character at `char_idx`,
/// which is the UTF-8 length of everything before it. An offset beyond the
/// end of the text gives `None`.
#[verifier::external_body]
pub(crate) fn char_to_byte(text: &Rope, char_idx: usize) -> (found: Option<usize>)
    ensures
        found is Some <==> char_idx <= rope_chars(*text).len(),
        found is Some ==> found.unwrap() as int == prefix_bytes(rope_chars(*text), char_idx as int),
{
    text.try_char_to_byte(char_idx).ok()
}

/// `Rope::try_byte_to_char`: the index of the character that the byte at
/// `byte_idx` belongs to; the end of the text gives the number of
/// characters. An offset beyond the end of the text gives `None`.
#[verifier::external_body]
pub(crate) fn byte_to_char(text: &Rope, byte_idx: usize) -> (found: Option<usize>)
    ensures
        found is Some <==> byte_idx <= total_bytes(rope_chars(*text)),
        found is Some ==> found.unwrap() as int == char_of_byte(rope_chars(*text), byte_idx as int),
{
    text.try_byte_to_char(byte_idx).ok()
}

/// `Rope::try_char_to_line`: the number of line breaks before the character
/// at `char_idx`. The rope is built to break lines at line feeds only. An
/// offset beyond the end of the text gives `None`.
#[verifier::external_body]
pub(crate) fn char_to_line(text: &Rope, char_idx: usize) -> (found: Option<usize>)
    ensures
        found is Some <==> char_idx <= rope_chars(*text).len(),
        found is Some ==> found.unwrap() as int == prefix_lines(rope_chars(*text), char_idx as int),
{
    text.try_char_to_line(char_idx).ok()
}

/// `Rope::try_line_to_byte`: the byte offset at which line `line_idx` starts.
/// The line one past the last starts at the end of the text. A line beyond
/// that gives `None`.
#[verifier::external_body]
pub(crate) fn line_to_byte(text: &Rope, line_idx: usize) -> (found: Option<usize>)
    ensures
        found is Some <==> line_idx <= total_lines(rope_chars(*text)),
        found is Some ==> found.unwrap() as int == line_start_byte(rope_chars(*text), line_idx as int),
{
    text.try_line_to_byte(line_idx).ok()
}

/// `Rope::bytes`: the bytes of the text, which are its characters in UTF-8.
#[verifier::external_body]
pub(crate) fn text_bytes(text: &Rope) -> (bytes: Vec<u8>)
    ensures
        bytes@ == encode_utf8(rope_chars(*text)),
{
    text.bytes().collect()
}

/// Every character takes at least one byte.
pub proof fn lemma_scalar_nonempty(c: char)
    ensures
        encode_scalar(c as u32).len() >= 1,
{
}

/// The encoding of a concatenation is the concatenation of the encodings.
pub proof fn lemma_encode_concat(a: Seq<char>, b: Seq<char>)
    ensures
        encode_utf8(a + b) =~= encode_utf8(a) + encode_utf8(b),
    decreases a.len(),
{
    if a.len() == 0 {
        assert(a + b =~= b);
    } else {
        assert((a + b).drop_first() =~= a.drop_first() + b);
        lemma_encode_concat(a.drop_first(), b);
    }
}

/// One more character takes at least one more byte.
pub proof fn lemma_prefix_bytes_step(chars: Seq<char>, n: int)
    requires
        0 <= n < chars.len(),
    ensures
        prefix_bytes(chars, n) < prefix_bytes(chars, n + 1),
        prefix_bytes(chars, 0) == 0,
{
    let a = chars.take(n);
    let b = seq![chars[n]];
    assert(chars.take(n + 1) =~= a + b);
    lemma_encode_concat(a, b);
    assert(b.drop_first() =~= Seq::<char>::empty());
    assert(encode_utf8(b) =~= encode_scalar(chars[n] as u32)) by {
        reveal_with_fuel(encode_utf8, 2);
    }
    lemma_scalar_nonempty(chars[n]);
    assert(chars.take(0) =~= Seq::<char>::empty());
}

/// Byte offsets grow strictly with character offsets.
pub proof fn lemma_prefix_bytes_increasing(chars: Seq<char>, m: int, n: int)
    requires
        0 <= m <= n <= chars.len(),
    ensures
        prefix_bytes(chars, m) <= prefix_bytes(chars, n),
        m < n ==> prefix_bytes(chars, m) < prefix_bytes(chars, n),
        n - m <= prefix_bytes(chars, n) - prefix_bytes(chars, m),
    decreases n - m,
{
    if m < n {
        lemma_prefix_bytes_increasing(chars, m, n - 1);
        lemma_prefix_bytes_step(chars, n - 1);
    }
}

/// What `char_of_byte` returns: a character offset within the text whose
/// byte offset is at most `b`, while the next character starts beyond `b`.
pub proof fn lemma_char_of_byte(chars: Seq<char>, b: int)
    requires
        0 <= b,
    ensures
        0 <= char_of_byte(chars, b) <= chars.len(),
        prefix_bytes(chars, char_of_byte(chars, b)) <= b,
        char_of_byte(chars, b) < chars.len() ==> b < prefix_bytes(
            chars,
            char_of_byte(chars, b) + 1,
        ),
    decreases chars.len(),
{
    if chars.len() == 0 {
        assert(chars.take(0) =~= Seq::<char>::empty());
    } else if total_bytes(chars) <= b {
    } else {
        let front = chars.drop_last();
        lemma_char_of_byte(front, b);
        let c = char_of_byte(front, b);
        assert(front.take(c) =~= chars.take(c));
        if c < front.len() {
            assert(front.take(c + 1) =~= chars.take(c + 1));
        } else {
            assert(chars.take(c + 1) =~= chars);
            assert(chars.take(chars.len() as int) =~= chars);
        }
    }
}

/// A character offset is found again from its byte offset.
pub proof fn lemma_char_round_trip(chars: Seq<char>, c: int)
    requires
        0 <= c <= chars.len(),
    ensures
        char_of_byte(chars, prefix_bytes(chars, c)) == c,
{
    let b = prefix_bytes(chars, c);
    lemma_char_of_byte(chars, b);
    let d = char_of_byte(chars, b);
    if d < c {
        lemma_prefix_bytes_increasing(chars, d + 1, c);
    } else if c < d {
        lemma_prefix_bytes_increasing(chars, c, d);
    }
}

/// A later byte belongs to a later or the same character.
pub proof fn lemma_char_of_byte_monotonic(chars: Seq<char>, a: int, b: int)
    requires
        0 <= a <= b,
    ensures
        char_of_byte(chars, a) <= char_of_byte(chars, b),
{
    lemma_char_of_byte(chars, a);
    lemma_char_of_byte(chars, b);
    let ca = char_of_byte(chars, a);
    let cb = char_of_byte(chars, b);
    if cb < ca {
        lemma_prefix_bytes_increasing(chars, cb + 1, ca);
    }
}

} // verus!
