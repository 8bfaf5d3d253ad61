//! Plain text out of an archived attributed-string blob: the bytes after a
//! `NSString` marker, a `0x01 '+'` pair and a one-byte length.
use vstd::prelude::*;
use vstd::slice::slice_subrange;
use vstd::utf8::{decode_utf8, valid_utf8};

verus! {

/// `needle` stands in `hay` at `i`.
pub open spec fn occurs_at(hay: Seq<u8>, needle: Seq<u8>, i: int) -> bool {
    0 <= i && i + needle.len() <= hay.len() && hay.subrange(i, i + needle.len()) == needle
}

/// The first position from `i` on where `needle` stands in `hay`.
pub open spec fn first_occurrence_from(hay: Seq<u8>, needle: Seq<u8>, i: int) -> Option<int>
    decreases hay.len() + 1 - i,
{
    if i < 0 || i + needle.len() > hay.len() {
        None
    } else if occurs_at(hay, needle, i) {
        Some(i)
    } else {
        first_occurrence_from(hay, needle, i + 1)
    }
}

/// The first position where `needle` stands in `hay`.
pub open spec fn first_occurrence(hay: Seq<u8>, needle: Seq<u8>) -> Option<int> {
    first_occurrence_from(hay, needle, 0)
}

/// The text std makes of bytes, each ill-formed sequence replaced by U+FFFD.
pub uninterp spec fn lossy_text(b: Seq<u8>) -> Seq<char>;

/// Relies on memchr::memmem::Finder::find: the index of the first
/// occurrence of the needle in the haystack.
#[verifier::external_body]
fn find_bytes(hay: &[u8], needle: &[u8]) -> (r: Option<usize>)
    ensures
        match r {
            Some(i) => first_occurrence(hay@, needle@) == Some(i as int),
            None => first_occurrence(hay@, needle@) is None,
        },
{
    memchr::memmem::Finder::new(needle).find(hay)
}

/// Relies on String::from_utf8_lossy: well-formed UTF-8 is read as it is,
/// each ill-formed sequence becomes U+FFFD.
#[verifier::external_body]
fn lossy_string(b: &[u8]) -> (r: String)
    ensures
        r@ == lossy_text(b@),
        valid_utf8(b@) ==> r@ == decode_utf8(b@),
{
    String::from_utf8_lossy(b).into_owned()
}

pub open spec fn ns_string_marker() -> Seq<u8> {
    seq![78u8, 83u8, 83u8, 116u8, 114u8, 105u8, 110u8, 103u8]
}

pub open spec fn length_marker() -> Seq<u8> {
    seq![1u8, 43u8]
}

/// The bytes of the text: after the first `NSString`, the first `0x01 '+'`
/// pair, then a length byte and that many bytes (fewer at the blob's end).
pub open spec fn body_span(blob: Seq<u8>) -> Option<Seq<u8>> {
    if blob.len() == 0 {
        None
    } else {
        match first_occurrence(blob, ns_string_marker()) {
            None => None,
            Some(i) => {
                let start = i + 8;
                match first_occurrence(blob.subrange(start, blob.len() as int), length_marker()) {
                    None => None,
                    Some(j) => {
                        let at = start + j + 2;
                        if at >= blob.len() {
                            None
                        } else {
                            let end = at + 1 + blob[at];
                            Some(
                                blob.subrange(
                                    at + 1,
                                    if end > blob.len() {
                                        blob.len() as int
                                    } else {
                                        end
                                    },
                                ),
                            )
                        }
                    },
                }
            },
        }
    }
}

/// The text of an attributed-string blob, empty when it holds no marker.
pub open spec fn attributed_text(blob: Seq<u8>) -> Seq<char> {
    match body_span(blob) {
        Some(b) => lossy_text(b),
        None => Seq::empty(),
    }
}

/// Extracts the plain text of an archived attributed-string blob.
pub fn extract_attributed_body_text(blob: &[u8]) -> (r: String)
    ensures
        r@ == attributed_text(blob@),
        match body_span(blob@) {
            Some(b) => valid_utf8(b) ==> r@ == decode_utf8(b),
            None => r@.len() == 0,
        },
{
    if blob.len() == 0 {
        return String::new();
    }
    let marker: Vec<u8> = vec![78u8, 83u8, 83u8, 116u8, 114u8, 105u8, 110u8, 103u8];
    assert(marker@ =~= ns_string_marker());
    let idx = match find_bytes(blob, marker.as_slice()) {
        Some(i) => i,
        None => return String::new(),
    };
    proof {
        lemma_occurrence_fits(blob@, ns_string_marker(), 0);
    }
    let start = idx + 8;
    let rest = slice_subrange(blob, start, blob.len());
    let pair: Vec<u8> = vec![1u8, 43u8];
    assert(pair@ =~= length_marker());
    let j = match find_bytes(rest, pair.as_slice()) {
        Some(j) => j,
        None => return String::new(),
    };
    proof {
        lemma_occurrence_fits(rest@, length_marker(), 0);
    }
    let at = start + j + 2;
    if at >= blob.len() {
        return String::new();
    }
    let text_start = at + 1;
    let len = blob[at] as usize;
    let end = if len > blob.len() - text_start {
        blob.len()
    } else {
        text_start + len
    };
    lossy_string(slice_subrange(blob, text_start, end))
}

proof fn lemma_occurrence_fits(hay: Seq<u8>, needle: Seq<u8>, i: int)
    requires
        first_occurrence_from(hay, needle, i) is Some,
    ensures
        i <= first_occurrence_from(hay, needle, i)->0,
        first_occurrence_from(hay, needle, i)->0 + needle.len() <= hay.len(),
    decreases hay.len() + 1 - i,
{
    if !(i < 0 || i + needle.len() > hay.len()) && !occurs_at(hay, needle, i) {
        lemma_occurrence_fits(hay, needle, i + 1);
    }
}

} // verus!
