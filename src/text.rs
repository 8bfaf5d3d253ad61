//! Byte-bounded, character-safe text operations.
use vstd::prelude::*;
use vstd::string::StringSliceAdditionalSpecFns;
use vstd::utf8::*;

verus! {

broadcast use vstd::utf8::group_utf8_lib, vstd::string::group_string_axioms;

/// The UTF-8 encoding of a text.
pub open spec fn bytes_of(s: Seq<char>) -> Seq<u8> {
    encode_utf8(s)
}

/// The largest character boundary of `b` that is at most `n`.
pub open spec fn cut_point(b: Seq<u8>, n: int) -> int
    decreases n,
{
    if n <= 0 {
        0
    } else if is_char_boundary(b, n) {
        n
    } else {
        cut_point(b, n - 1)
    }
}

/// `b` bounded to at most `n` bytes: unchanged when it fits, else its
/// longest prefix that ends on a character boundary within the bound.
pub open spec fn truncated(b: Seq<u8>, n: int) -> Seq<u8> {
    if b.len() <= n {
        b
    } else {
        b.subrange(0, cut_point(b, n))
    }
}

proof fn lemma_cut_point(b: Seq<u8>, n: int)
    requires
        0 <= n,
        valid_utf8(b),
    ensures
        0 <= cut_point(b, n) <= n,
        is_char_boundary(b, cut_point(b, n)),
        forall|j: int| cut_point(b, n) < j <= n ==> !is_char_boundary(b, j),
    decreases n,
{
    if n > 0 && !is_char_boundary(b, n) {
        lemma_cut_point(b, n - 1);
    }
}

/// Bounds `s` to at most `max_len` bytes without splitting a character.
pub fn truncate(s: &str, max_len: usize) -> (r: &str)
    ensures
        r.spec_bytes() == truncated(s.spec_bytes(), max_len as int),
{
    if s.as_bytes().len() <= max_len {
        return s;
    }
    let mut end: usize = max_len;
    while end > 0 && !s.is_char_boundary(end)
        invariant
            end <= max_len < s.spec_bytes().len(),
            cut_point(s.spec_bytes(), max_len as int) == cut_point(s.spec_bytes(), end as int),
        decreases end,
    {
        end = end - 1;
    }
    proof {
        lemma_cut_point(s.spec_bytes(), max_len as int);
    }
    let (head, _) = s.split_at(end);
    head
}

/// The text whose UTF-8 encoding is `b`.
pub open spec fn text_of(b: Seq<u8>) -> Seq<char> {
    decode_utf8(b)
}

/// `s` bounded to at most `n` bytes, as text.
pub open spec fn preview_of(s: Seq<char>, n: int) -> Seq<char> {
    text_of(truncated(bytes_of(s), n))
}

/// A copy of `s` bounded to at most `max_len` bytes.
pub fn preview(s: &str, max_len: usize) -> (r: String)
    ensures
        r@ == preview_of(s@, max_len as int),
{
    let t = truncate(s, max_len);
    t.to_string()
}

/// Unicode White_Space: the characters that leading and trailing blank
/// space is made of.
pub open spec fn is_space(c: char) -> bool {
    let u = c as u32;
    (0x09 <= u <= 0x0d) || u == 0x20 || u == 0x85 || u == 0xa0 || u == 0x1680 || (0x2000 <= u
        <= 0x200a) || u == 0x2028 || u == 0x2029 || u == 0x202f || u == 0x205f || u == 0x3000
}

/// `s` without its leading and trailing white space.
pub open spec fn trimmed(s: Seq<char>) -> Seq<char>
    decreases s.len(),
{
    if s.len() > 0 && is_space(s[0]) {
        trimmed(s.drop_first())
    } else if s.len() > 0 && is_space(s.last()) {
        trimmed(s.drop_last())
    } else {
        s
    }
}

/// Relies on str::trim: removes the leading and trailing characters that
/// have the Unicode White_Space property.
#[verifier::external_body]
pub(crate) fn trim(s: &str) -> (r: &str)
    ensures
        r@ == trimmed(s@),
{
    s.trim()
}

/// Relies on std::str::from_utf8: accepts exactly the well-formed UTF-8
/// byte strings, and then views the same bytes as text.
#[verifier::external_body]
pub(crate) fn utf8_text(b: &[u8]) -> (r: Option<&str>)
    ensures
        r is Some <==> valid_utf8(b@),
        r matches Some(s) ==> s.spec_bytes() == b@,
{
    std::str::from_utf8(b).ok()
}

/// Whether two texts are equal.
pub fn text_eq(a: &str, b: &str) -> (r: bool)
    ensures
        r == (a@ == b@),
{
    let x = a.as_bytes();
    let y = b.as_bytes();
    if x.len() != y.len() {
        return false;
    }
    let mut i: usize = 0;
    while i < x.len()
        invariant
            x@.len() == y@.len(),
            x@ == bytes_of(a@),
            y@ == bytes_of(b@),
            i <= x@.len(),
            forall|j: int| 0 <= j < i ==> x@[j] == y@[j],
        decreases x.len() - i,
    {
        if x[i] != y[i] {
            return false;
        }
        i = i + 1;
    }
    assert(x@ =~= y@);
    proof {
        encode_utf8_decode_utf8(a@);
        encode_utf8_decode_utf8(b@);
    }
    true
}

/// A preview holds at most its bound of bytes, is the whole text when the
/// text fits, and is a prefix of the text's bytes that ends on a character
/// boundary.
pub proof fn lemma_preview_bounded(s: Seq<char>, n: int)
    requires
        0 <= n,
    ensures
        bytes_of(preview_of(s, n)).len() <= n,
        bytes_of(s).len() <= n ==> preview_of(s, n) == s,
        bytes_of(preview_of(s, n)) == bytes_of(s).subrange(
            0,
            bytes_of(preview_of(s, n)).len() as int,
        ),
        is_char_boundary(bytes_of(s), bytes_of(preview_of(s, n)).len() as int),
{
    let b = bytes_of(s);
    lemma_cut_point(b, n);
    if b.len() > n {
        let k = cut_point(b, n);
        valid_utf8_split(b, k);
        decode_utf8_encode_utf8(b.subrange(0, k));
        assert(truncated(b, n).len() == k);
    } else {
        encode_utf8_decode_utf8(s);
        is_char_boundary_start_end_of_seq(b);
        assert(b.subrange(0, b.len() as int) =~= b);
    }
}

} // verus!
