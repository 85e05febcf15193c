//! Text primitives shared by the line-based tree builder and the line
//! pairing: decoding raw bytes, splitting on newlines, trimming.

use vstd::prelude::*;

verus! {

/// The text `String::from_utf8_lossy` decodes from `bytes`: every invalid
/// sequence replaced by U+FFFD.
pub uninterp spec fn lossy_text(bytes: Seq<u8>) -> Seq<char>;

/// The pieces of `t` between `'\n'` characters, in order; an empty text, or
/// a text ending in a newline, yields an empty last piece.
pub open spec fn split_lines(t: Seq<char>) -> Seq<Seq<char>>
    decreases t.len(),
{
    if t.len() == 0 {
        seq![seq![]]
    } else {
        let prev = split_lines(t.drop_last());
        if t.last() == '\n' {
            prev.push(seq![])
        } else {
            prev.update(prev.len() - 1, prev.last().push(t.last()))
        }
    }
}

/// `t` without one trailing `'\r'`, if it has one.
pub open spec fn strip_cr(t: Seq<char>) -> Seq<char> {
    if t.len() > 0 && t.last() == '\r' {
        t.drop_last()
    } else {
        t
    }
}

/// Splitting always yields at least one piece.
pub proof fn lemma_split_lines_nonempty(t: Seq<char>)
    ensures
        split_lines(t).len() >= 1,
    decreases t.len(),
{
    if t.len() > 0 {
        lemma_split_lines_nonempty(t.drop_last());
    }
}

/// UTF-8 encoding distributes over concatenation.
pub proof fn lemma_encode_concat(a: Seq<char>, b: Seq<char>)
    ensures
        vstd::utf8::encode_utf8(a + b) == vstd::utf8::encode_utf8(a) + vstd::utf8::encode_utf8(b),
    decreases a.len(),
{
    if a.len() > 0 {
        lemma_encode_concat(a.drop_first(), b);
        assert((a + b).drop_first() =~= a.drop_first() + b);
        assert((a + b)[0] == a[0]);
    } else {
        assert(a + b =~= b);
    }
}

/// Bytes taken by the first `k` pieces, each followed by its newline.
pub open spec fn pieces_bytes(pieces: Seq<Seq<char>>, k: int) -> int
    decreases k,
{
    if k <= 0 {
        0
    } else {
        pieces_bytes(pieces, k - 1) + vstd::utf8::encode_utf8(pieces[k - 1]).len() + 1
    }
}

/// The pieces of a text, with their newlines, take exactly its bytes (plus
/// one for the newline the last piece lacks).
pub proof fn lemma_split_bytes(t: Seq<char>)
    ensures
        pieces_bytes(split_lines(t), split_lines(t).len() as int) == vstd::utf8::encode_utf8(t).len()
            + 1,
    decreases t.len(),
{
    lemma_split_lines_nonempty(t);
    if t.len() == 0 {
        assert(split_lines(t) == seq![Seq::<char>::empty()]);
        assert(pieces_bytes(split_lines(t), 0) == 0);
    } else {
        let t0 = t.drop_last();
        let c = t.last();
        lemma_split_bytes(t0);
        lemma_split_lines_nonempty(t0);
        let prev = split_lines(t0);
        let m = prev.len() as int;
        assert(t =~= t0 + seq![c]);
        lemma_encode_concat(t0, seq![c]);
        let ec = vstd::utf8::encode_utf8(seq![c]);
        if c == '\n' {
            let now = prev.push(seq![]);
            assert(split_lines(t) == now);
            assert(ec.len() == 1) by {
                assert(seq![c].drop_first() =~= Seq::<char>::empty());
                assert(seq![c][0] == '\n');
                assert(('\n' as u32) == 10u32);
                assert(vstd::utf8::has_width_1_encoding(10u32));
                assert(vstd::utf8::encode_scalar(10u32).len() == 1);
                assert(vstd::utf8::encode_utf8(Seq::<char>::empty()) =~= Seq::<u8>::empty());
                assert(vstd::utf8::encode_utf8(seq![c].drop_first()) =~= Seq::<u8>::empty());
                assert(ec == vstd::utf8::encode_scalar(10u32) + vstd::utf8::encode_utf8(seq![c].drop_first()));
            }
            lemma_pieces_bytes_prefix(prev, now, m);
            assert(vstd::utf8::encode_utf8(now[m]) =~= Seq::<u8>::empty());
        } else {
            let last = prev.last();
            let now = prev.update(m - 1, last.push(c));
            assert(split_lines(t) == now);
            assert(last.push(c) =~= last + seq![c]);
            lemma_encode_concat(last, seq![c]);
            lemma_pieces_bytes_prefix(prev, now, m - 1);
        }
    }
}

/// Byte counts only depend on the pieces counted.
pub proof fn lemma_pieces_bytes_prefix(a: Seq<Seq<char>>, b: Seq<Seq<char>>, k: int)
    requires
        0 <= k <= a.len(),
        k <= b.len(),
        forall|j: int| 0 <= j < k ==> a[j] == b[j],
    ensures
        pieces_bytes(a, k) == pieces_bytes(b, k),
    decreases k,
{
    if k > 0 {
        lemma_pieces_bytes_prefix(a, b, k - 1);
    }
}

/// Byte counts grow with the number of pieces counted.
pub proof fn lemma_pieces_bytes_monotone(a: Seq<Seq<char>>, k: int, m: int)
    requires
        0 <= k <= m <= a.len(),
    ensures
        pieces_bytes(a, k) + (if k < m { vstd::utf8::encode_utf8(a[k]).len() + 1 } else { 0 }) <= pieces_bytes(a, m),
    decreases m - k,
{
    if k < m {
        if k + 1 < m {
            lemma_pieces_bytes_monotone(a, k + 1, m);
        }
    }
}

/// Dropping a trailing `'\r'` never lengthens the encoding.
pub proof fn lemma_strip_cr_shorter(p: Seq<char>)
    ensures
        vstd::utf8::encode_utf8(strip_cr(p)).len() <= vstd::utf8::encode_utf8(p).len(),
{
    if p.len() > 0 && p.last() == '\r' {
        assert(p =~= p.drop_last() + seq![p.last()]);
        lemma_encode_concat(p.drop_last(), seq![p.last()]);
    }
}

/// Decodes `bytes` as UTF-8, replacing invalid sequences with U+FFFD
/// (`String::from_utf8_lossy`). The result is named by [`lossy_text`];
/// valid input comes back unchanged, and like every `String` it holds at
/// most `isize::MAX` bytes.
#[verifier::external_body]
pub(crate) fn decode_lossy(bytes: &[u8]) -> (text: String)
    ensures
        text@ == lossy_text(bytes@),
        vstd::utf8::valid_utf8(bytes@) ==> vstd::utf8::encode_utf8(text@) == bytes@,
        vstd::utf8::encode_utf8(text@).len() <= isize::MAX,
{
    String::from_utf8_lossy(bytes).into_owned()
}

/// The pieces of `text` between `'\n'` characters (`str::split('\n')`).
#[verifier::external_body]
pub(crate) fn split_on_newlines<'a>(text: &'a str) -> (pieces: Vec<&'a str>)
    ensures
        pieces@.len() == split_lines(text@).len(),
        forall|k: int| 0 <= k < pieces@.len() ==> #[trigger] pieces@[k]@ == split_lines(text@)[k],
{
    text.split('\n').collect()
}

/// Whether `c` has the Unicode `White_Space` property, the whitespace that
/// `char::is_whitespace` and `str::trim` go by.
pub open spec fn is_white_space(c: char) -> bool {
    ||| ('\u{9}' <= c && c <= '\u{d}')
    ||| c == ' '
    ||| c == '\u{85}'
    ||| c == '\u{a0}'
    ||| c == '\u{1680}'
    ||| ('\u{2000}' <= c && c <= '\u{200a}')
    ||| c == '\u{2028}'
    ||| c == '\u{2029}'
    ||| c == '\u{202f}'
    ||| c == '\u{205f}'
    ||| c == '\u{3000}'
}

/// `t` without its leading and trailing whitespace: what `str::trim`
/// leaves.
pub open spec fn trimmed(t: Seq<char>) -> Seq<char>
    decreases t.len(),
{
    if t.len() > 0 && is_white_space(t[0]) {
        trimmed(t.drop_first())
    } else if t.len() > 0 && is_white_space(t.last()) {
        trimmed(t.drop_last())
    } else {
        t
    }
}

/// `text` without leading and trailing whitespace (`str::trim`), which
/// std documents as removing the characters with the Unicode `White_Space`
/// property from both ends.
#[verifier::external_body]
pub(crate) fn trim_text(text: &str) -> (r: &str)
    ensures
        r@ == trimmed(text@),
{
    text.trim()
}

/// Whether two texts are equal (`str == str`).
#[verifier::external_body]
pub(crate) fn same_text(a: &str, b: &str) -> (r: bool)
    ensures
        r == (a@ == b@),
{
    a == b
}

/// The characters of `text`, in order (`str::chars`).
#[verifier::external_body]
pub(crate) fn chars_of(text: &str) -> (r: Vec<char>)
    ensures
        r@ == text@,
{
    text.chars().collect()
}

/// Appends one character (`String::push`).
#[verifier::external_body]
pub(crate) fn push_char(text: &mut String, c: char)
    ensures
        final(text)@ == old(text)@.push(c),
{
    text.push(c)
}

/// `text` without one trailing `'\r'` (`str::strip_suffix('\r')`, keeping
/// `text` when there is none).
#[verifier::external_body]
pub(crate) fn without_trailing_cr(text: &str) -> (r: &str)
    ensures
        r@ == strip_cr(text@),
{
    text.strip_suffix('\r').unwrap_or(text)
}

} // verus!
