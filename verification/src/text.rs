//! Texts as UTF-8 byte strings: parts between offsets, and trimming.

use crate::range::Range;
use vstd::prelude::*;
use vstd::string::StringExecFns;
use vstd::string::StringSliceAdditionalSpecFns;
use vstd::utf8::{
    decode_utf8_split, encode_utf8, encode_utf8_decode_utf8, encode_utf8_valid_utf8,
    is_char_boundary, is_char_boundary_iff_not_is_continuation_byte,
    is_char_boundary_start_end_of_seq, valid_utf8, valid_utf8_split,
};

verus! {

/// In a valid text, an offset that is a character boundary is one in every
/// part of the text that starts at a boundary before it.
pub proof fn lemma_boundary_after(bytes: Seq<u8>, from: int, at: int)
    requires
        valid_utf8(bytes),
        0 <= from <= at <= bytes.len(),
        is_char_boundary(bytes, from),
        is_char_boundary(bytes, at),
    ensures
        valid_utf8(bytes.subrange(from, bytes.len() as int)),
        is_char_boundary(bytes.subrange(from, bytes.len() as int), at - from),
{
    let rest = bytes.subrange(from, bytes.len() as int);
    valid_utf8_split(bytes, from);
    if at == bytes.len() {
        is_char_boundary_start_end_of_seq(rest);
    } else {
        is_char_boundary_iff_not_is_continuation_byte(bytes, at);
        is_char_boundary_iff_not_is_continuation_byte(rest, at - from);
    }
}

/// In a valid text, an offset that is a character boundary is one in every
/// part of the text that ends at a boundary behind it.
pub proof fn lemma_boundary_before(bytes: Seq<u8>, at: int, to: int)
    requires
        valid_utf8(bytes),
        0 <= at <= to <= bytes.len(),
        is_char_boundary(bytes, at),
        is_char_boundary(bytes, to),
    ensures
        valid_utf8(bytes.subrange(0, to)),
        is_char_boundary(bytes.subrange(0, to), at),
{
    let part = bytes.subrange(0, to);
    valid_utf8_split(bytes, to);
    if at == to {
        is_char_boundary_start_end_of_seq(part);
    } else {
        is_char_boundary_iff_not_is_continuation_byte(bytes, at);
        is_char_boundary_iff_not_is_continuation_byte(part, at);
    }
}

/// The part of a valid text between two character boundaries is a valid text.
pub proof fn lemma_valid_between(bytes: Seq<u8>, from: int, to: int)
    requires
        valid_utf8(bytes),
        0 <= from <= to <= bytes.len(),
        is_char_boundary(bytes, from),
        is_char_boundary(bytes, to),
    ensures
        valid_utf8(bytes.subrange(from, to)),
{
    lemma_boundary_before(bytes, from, to);
    let part = bytes.subrange(0, to);
    valid_utf8_split(part, from);
    assert(part.subrange(from, part.len() as int) =~= bytes.subrange(from, to));
}

/// The part of `text` between two byte offsets.
pub fn part_between<'a>(text: &'a str, from: usize, to: usize) -> (r: &'a str)
    requires
        from <= to <= text.spec_bytes().len(),
        is_char_boundary(text.spec_bytes(), from as int),
        is_char_boundary(text.spec_bytes(), to as int),
    ensures
        r.spec_bytes() == text.spec_bytes().subrange(from as int, to as int),
{
    let ghost bytes = text.spec_bytes();
    proof {
        encode_utf8_valid_utf8(text@);
        lemma_boundary_before(bytes, from as int, to as int);
    }
    let (head, _) = text.split_at(to);
    let (_, part) = head.split_at(from);
    part
}

/// A text in three parts: what stands before a range, in it and behind it.
#[derive(Debug, PartialEq, Eq)]
pub struct SplittedText {
    pub head: String,
    pub middle: String,
    pub tail: String,
}

impl Clone for SplittedText {
    fn clone(&self) -> (r: Self)
        ensures
            r.head@ == self.head@,
            r.middle@ == self.middle@,
            r.tail@ == self.tail@,
    {
        SplittedText {
            head: self.head.clone(),
            middle: self.middle.clone(),
            tail: self.tail.clone(),
        }
    }
}

impl SplittedText {
    pub fn head(&self) -> (r: String)
        ensures
            r@ == self.head@,
    {
        self.head.clone()
    }

    pub fn middle(&self) -> (r: String)
        ensures
            r@ == self.middle@,
    {
        self.middle.clone()
    }

    pub fn tail(&self) -> (r: String)
        ensures
            r@ == self.tail@,
    {
        self.tail.clone()
    }
}

/// Whether a range can be cut out of a text of these bytes: it is ordered,
/// lies inside the text and splits no character.
pub open spec fn cuts_cleanly(bytes: Seq<u8>, range: Range) -> bool {
    &&& range.fits(bytes.len())
    &&& is_char_boundary(bytes, range.start as int)
    &&& is_char_boundary(bytes, range.end as int)
}

/// Tells whether a range can be cut out of a text.
pub fn range_cuts_cleanly(text: &str, range: Range) -> (r: bool)
    ensures
        r == cuts_cleanly(text.spec_bytes(), range),
{
    range.start <= range.end && range.end <= text.as_bytes().len() && text.is_char_boundary(
        range.start,
    ) && text.is_char_boundary(range.end)
}

/// Splits a text at the two ends of a byte range. Without a range the whole
/// text is the head, and the other two parts are empty.
pub fn split_by_range(text: &str, range: Option<Range>) -> (r: SplittedText)
    requires
        range matches Some(span) ==> cuts_cleanly(text.spec_bytes(), span),
    ensures
        match range {
            Some(span) => {
                &&& encode_utf8(r.head@) == text.spec_bytes().subrange(0, span.start as int)
                &&& encode_utf8(r.middle@) == text.spec_bytes().subrange(
                    span.start as int,
                    span.end as int,
                )
                &&& encode_utf8(r.tail@) == text.spec_bytes().subrange(
                    span.end as int,
                    text.spec_bytes().len() as int,
                )
            },
            None => r.head@ == text@ && r.middle@.len() == 0 && r.tail@.len() == 0,
        },
        r.head@ + r.middle@ + r.tail@ == text@,
{
    let ghost bytes = text.spec_bytes();
    proof {
        encode_utf8_valid_utf8(text@);
        encode_utf8_decode_utf8(text@);
        is_char_boundary_start_end_of_seq(bytes);
    }
    match range {
        Some(span) => {
            let head = part_between(text, 0, span.start);
            let middle = part_between(text, span.start, span.end);
            let tail = part_between(text, span.end, text.as_bytes().len());
            proof {
                let start = span.start as int;
                let end = span.end as int;
                let rest = bytes.subrange(start, bytes.len() as int);
                lemma_boundary_after(bytes, start, end);
                decode_utf8_split(bytes, start);
                decode_utf8_split(rest, end - start);
                assert(rest.subrange(0, end - start) =~= bytes.subrange(start, end));
                assert(rest.subrange(end - start, rest.len() as int) =~= bytes.subrange(
                    end,
                    bytes.len() as int,
                ));
                encode_utf8_decode_utf8(head@);
                encode_utf8_decode_utf8(middle@);
                encode_utf8_decode_utf8(tail@);
            }
            SplittedText {
                head: String::from_str(head),
                middle: String::from_str(middle),
                tail: String::from_str(tail),
            }
        },
        None => {
            SplittedText {
                head: String::from_str(text),
                middle: String::new(),
                tail: String::new(),
            }
        },
    }
}

/// A text without the characters at its start for which `blank` holds.
pub open spec fn strip_start(text: Seq<char>, blank: spec_fn(char) -> bool) -> Seq<char>
    decreases text.len(),
{
    if text.len() > 0 && blank(text.first()) {
        strip_start(text.drop_first(), blank)
    } else {
        text
    }
}

/// A text without the characters at its end for which `blank` holds.
pub open spec fn strip_end(text: Seq<char>, blank: spec_fn(char) -> bool) -> Seq<char>
    decreases text.len(),
{
    if text.len() > 0 && blank(text.last()) {
        strip_end(text.drop_last(), blank)
    } else {
        text
    }
}

/// Whether a character is white space: whether it has the Unicode property
/// `White_Space`.
pub open spec fn white_space(c: char) -> bool {
    let code = c as u32;
    ||| 0x09 <= code <= 0x0d
    ||| code == 0x20
    ||| code == 0x85
    ||| code == 0xa0
    ||| code == 0x1680
    ||| 0x2000 <= code <= 0x200a
    ||| code == 0x2028
    ||| code == 0x2029
    ||| code == 0x202f
    ||| code == 0x205f
    ||| code == 0x3000
}

/// A text without the white space at its two ends.
pub open spec fn trimmed(text: Seq<char>) -> Seq<char> {
    strip_end(strip_start(text, |c: char| white_space(c)), |c: char| white_space(c))
}

/// `str::trim` returns the text without its leading and trailing white space,
/// white space being the characters with the Unicode property `White_Space`.
pub assume_specification[ str::trim ](s: &str) -> (r: &str)
    ensures
        r@ == strip_end(strip_start(s@, |c: char| white_space(c)), |c: char| white_space(c)),
;

/// Trimming leaves a text as it is that neither starts nor ends with white
/// space.
pub proof fn lemma_trimmed_keeps(text: Seq<char>)
    requires
        text.len() > 0 ==> !white_space(text.first()) && !white_space(text.last()),
    ensures
        trimmed(text) == text,
{
}

/// `String::from_utf8`: the text that the bytes encode, if they are valid
/// UTF-8, and nothing if they are not.
#[verifier::external_body]
pub(crate) fn text_of(bytes: Vec<u8>) -> (r: Option<String>)
    ensures
        r is Some <==> valid_utf8(bytes@),
        r matches Some(text) ==> encode_utf8(text@) == bytes@,
{
    String::from_utf8(bytes).ok()
}

} // verus!
