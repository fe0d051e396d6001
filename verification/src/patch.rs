//! The text patch engine: positional changes applied to the first text.

use crate::change::Change;
use crate::order::{
    by_descending_start, lemma_sorted_pair, lemma_sorted_single, lemma_sorted_whatever_the_order,
    lemma_sorting_keeps, sort_changes, starts_differ,
};
use crate::range::Range;
use crate::text::{
    cuts_cleanly, lemma_valid_between, part_between, range_cuts_cleanly, text_of, trimmed,
};
use vstd::prelude::*;
use vstd::seq_lib::{to_multiset_build, to_multiset_remove};
use vstd::slice::{slice_subrange, slice_to_vec};
use vstd::string::StringSliceAdditionalSpecFns;
use vstd::utf8::{
    decode_utf8, decode_utf8_encode_utf8, encode_utf8, encode_utf8_decode_utf8,
    encode_utf8_valid_utf8, is_ascii_chars_encode_utf8, is_char_boundary,
    is_char_boundary_iff_not_is_continuation_byte, is_char_boundary_start_end_of_seq, valid_utf8,
    valid_utf8_concat,
};

verus! {

/// The offset of the first `>` at or after `from`, the length of the text
/// where there is none.
pub open spec fn tag_close(text: Seq<u8>, from: int) -> int
    decreases text.len() - from,
{
    if from < 0 || from >= text.len() {
        text.len() as int
    } else if text[from] == 0x3e {
        from
    } else {
        tag_close(text, from + 1)
    }
}

/// Where a new attribute goes into the opening tag that starts at `anchor`:
/// just before the `>` that closes the tag, or before the `/` of a tag that
/// closes itself with `/>`.
pub open spec fn attribute_slot(text: Seq<u8>, anchor: int) -> int {
    let close = tag_close(text, anchor);
    if close > 0 && text[close - 1] == 0x2f {
        close - 1
    } else {
        close
    }
}

/// A change with its insertion point made exact. The insertion of an
/// attribute comes with the start of the element as an anchor and is moved
/// into the opening tag; any other change stays as it is.
pub open spec fn corrected(text1: Seq<u8>, change: Change) -> Change {
    if change.is_insertion() && change.is_attribute {
        Change {
            insert_pos: Some(attribute_slot(text1, change.insert_pos->0 as int) as usize),
            ..change
        }
    } else {
        change
    }
}

/// Every change of a list with its insertion point made exact.
pub open spec fn corrected_all(text1: Seq<u8>, changes: Seq<Change>) -> Seq<Change> {
    Seq::new(changes.len(), |i: int| corrected(text1, changes[i]))
}

/// One space in UTF-8.
pub open spec fn space() -> Seq<u8> {
    seq![0x20u8]
}

/// Space, tab, carriage return and line feed.
pub open spec fn is_blank(byte: u8) -> bool {
    byte == 0x20 || byte == 0x09 || byte == 0x0d || byte == 0x0a
}

/// The space set before a new attribute, unless the byte before it in the
/// first text is blank already.
pub open spec fn space_before(text1: Seq<u8>, change: Change) -> Seq<u8> {
    let pos = change.insert_pos->0 as int;
    if change.is_attribute && !(0 < pos <= text1.len() && is_blank(text1[pos - 1])) {
        space()
    } else {
        Seq::empty()
    }
}

/// The space set behind a new attribute where a `/` follows it in the first
/// text.
pub open spec fn space_after(text1: Seq<u8>, change: Change) -> Seq<u8> {
    let pos = change.insert_pos->0 as int;
    if change.is_attribute && pos < text1.len() && text1[pos] == 0x2f {
        space()
    } else {
        Seq::empty()
    }
}

/// What an insertion brings: the part of the second text at `range`, without
/// the white space at its two ends.
pub open spec fn inserted_text(text2: Seq<u8>, range: Range) -> Seq<u8> {
    encode_utf8(trimmed(decode_utf8(text2.subrange(range.start as int, range.end as int))))
}

/// The output after one change. `out` is the output so far, `text1` and
/// `text2` the two texts that the offsets of the change point into.
pub open spec fn apply_change(out: Seq<u8>, text1: Seq<u8>, text2: Seq<u8>, change: Change) -> Seq<
    u8,
> {
    if change.is_insertion() {
        let pos = change.insert_pos->0 as int;
        out.subrange(0, pos) + space_before(text1, change) + inserted_text(
            text2,
            change.range2->0,
        ) + space_after(text1, change) + out.subrange(pos, out.len() as int)
    } else if change.is_deletion() {
        let gone = change.range1->0;
        out.subrange(0, gone.start as int) + out.subrange(gone.end as int, out.len() as int)
    } else if change.is_replacement() {
        let gone = change.range1->0;
        let new = change.range2->0;
        out.subrange(0, gone.start as int) + text2.subrange(new.start as int, new.end as int)
            + out.subrange(gone.end as int, out.len() as int)
    } else {
        out
    }
}

/// The first text after the given changes, applied one after the other.
pub open spec fn apply_in_order(text1: Seq<u8>, text2: Seq<u8>, changes: Seq<Change>) -> Seq<u8>
    decreases changes.len(),
{
    if changes.len() == 0 {
        text1
    } else {
        apply_change(
            apply_in_order(text1, text2, changes.drop_last()),
            text1,
            text2,
            changes.last(),
        )
    }
}

/// The edited text: the insertion points are made exact, the changes put in
/// descending order of start, and then applied to the first text from its end
/// toward its start, so that no change moves the place of one that follows.
pub open spec fn patched(text1: Seq<u8>, text2: Seq<u8>, changes: Seq<Change>) -> Seq<u8> {
    apply_in_order(text1, text2, by_descending_start(corrected_all(text1, changes)))
}

/// Whether a change can be applied as it is: it has one of the three shapes,
/// its ranges can be cut out of their texts, and its insertion point is a
/// place between two characters of the first text.
pub open spec fn ready(text1: Seq<u8>, text2: Seq<u8>, change: Change) -> bool {
    &&& change.well_shaped()
    &&& change.range1 matches Some(range) ==> cuts_cleanly(text1, range)
    &&& change.range2 matches Some(range) ==> cuts_cleanly(text2, range)
    &&& change.insert_pos matches Some(pos) ==> pos <= text1.len() && is_char_boundary(
        text1,
        pos as int,
    )
}

/// Whether a change fits the two texts as the caller gives it: as for
/// [`ready`], but the insertion of an attribute needs an anchor that a `>`
/// follows, at which the opening tag ends.
pub open spec fn change_fits(text1: Seq<u8>, text2: Seq<u8>, change: Change) -> bool {
    &&& change.well_shaped()
    &&& change.range1 matches Some(range) ==> cuts_cleanly(text1, range)
    &&& change.range2 matches Some(range) ==> cuts_cleanly(text2, range)
    &&& change.insert_pos matches Some(pos) ==> if change.is_attribute {
        tag_close(text1, pos as int) < text1.len()
    } else {
        pos <= text1.len() && is_char_boundary(text1, pos as int)
    }
}

/// Whether no change of a list in application order reaches into what was
/// changed before it: each ends at or before the start of the one before.
pub open spec fn separated(changes: Seq<Change>) -> bool {
    forall|i: int| 0 < i < changes.len() ==> (#[trigger] changes[i]).end() <= changes[i - 1].start()
}

/// What the engine asks of its input: every change fits the two texts, and in
/// application order the changes do not overlap.
pub open spec fn changes_applicable(text1: Seq<u8>, text2: Seq<u8>, changes: Seq<Change>) -> bool {
    &&& forall|i: int| 0 <= i < changes.len() ==> change_fits(text1, text2, #[trigger] changes[i])
    &&& separated(by_descending_start(corrected_all(text1, changes)))
}

/// Where a tag closes: at or after the place the search starts from, and on
/// a `>` unless the text ends first.
pub proof fn lemma_tag_close(text: Seq<u8>, from: int)
    requires
        0 <= from <= text.len(),
    ensures
        from <= tag_close(text, from) <= text.len(),
        tag_close(text, from) < text.len() ==> text[tag_close(text, from)] == 0x3e,
        forall|k: int| from <= k < tag_close(text, from) ==> text[k] != 0x3e,
    decreases text.len() - from,
{
    if from < text.len() && text[from] != 0x3e {
        lemma_tag_close(text, from + 1);
    }
}

/// A change that fits the two texts is ready once its insertion point is made
/// exact: the place found for an attribute is that of a `>` or a `/`, and so
/// lies between two characters.
pub proof fn lemma_corrected_ready(text1: Seq<u8>, text2: Seq<u8>, change: Change)
    requires
        valid_utf8(text1),
        text1.len() <= usize::MAX,
        change_fits(text1, text2, change),
    ensures
        ready(text1, text2, corrected(text1, change)),
{
    if change.is_insertion() && change.is_attribute {
        let anchor = change.insert_pos->0 as int;
        lemma_tag_close(text1, anchor);
        let slot = attribute_slot(text1, anchor);
        is_char_boundary_iff_not_is_continuation_byte(text1, slot);
    }
}

/// The offset of the first `>` at or after `from`, the length of the text
/// where there is none.
fn find_tag_close(text: &[u8], from: usize) -> (r: usize)
    ensures
        r == tag_close(text@, from as int),
{
    if from >= text.len() {
        return text.len();
    }
    let mut at = from;
    while at < text.len() && text[at] != 0x3e
        invariant
            from <= at <= text@.len(),
            tag_close(text@, from as int) == tag_close(text@, at as int),
        decreases text@.len() - at,
    {
        at = at + 1;
    }
    at
}

/// Makes the insertion point of a change exact.
fn correct_change(text1: &[u8], change: Change) -> (r: Change)
    ensures
        r == corrected(text1@, change),
{
    match (change.range1, change.range2, change.insert_pos) {
        (None, Some(_), Some(anchor)) => {
            if change.is_attribute {
                let close = find_tag_close(text1, anchor);
                proof {
                    if anchor <= text1@.len() {
                        lemma_tag_close(text1@, anchor as int);
                    }
                }
                let slot = if close > 0 && text1[close - 1] == 0x2f {
                    close - 1
                } else {
                    close
                };
                Change { insert_pos: Some(slot), ..change }
            } else {
                change
            }
        },
        _ => change,
    }
}

/// Makes the insertion points of all changes exact.
fn correct_changes(text1: &[u8], changes: &Vec<Change>) -> (r: Vec<Change>)
    ensures
        r@ == corrected_all(text1@, changes@),
{
    let mut exact: Vec<Change> = Vec::new();
    let mut i: usize = 0;
    while i < changes.len()
        invariant
            i <= changes.len(),
            exact@.len() == i,
            forall|k: int| 0 <= k < i ==> #[trigger] exact@[k] == corrected(text1@, changes@[k]),
        decreases changes.len() - i,
    {
        exact.push(correct_change(text1, changes[i]));
        i = i + 1;
    }
    exact
}

/// A space alone is a valid text.
proof fn lemma_space_valid()
    ensures
        valid_utf8(space()),
{
    let chars = seq![' '];
    is_ascii_chars_encode_utf8(chars);
    encode_utf8_valid_utf8(chars);
}

/// A copy of `out` in which the bytes from `from` to `to` give way to
/// `body`, with a space before it and behind it where asked for.
fn spliced(out: &Vec<u8>, from: usize, to: usize, lead: bool, body: &[u8], trail: bool) -> (r: Vec<
    u8,
>)
    requires
        from <= out@.len(),
        to <= out@.len(),
    ensures
        r@ == out@.subrange(0, from as int) + (if lead {
            space()
        } else {
            Seq::empty()
        }) + body@ + (if trail {
            space()
        } else {
            Seq::empty()
        }) + out@.subrange(to as int, out@.len() as int),
{
    let mut r: Vec<u8> = Vec::new();
    r.extend_from_slice(slice_subrange(out.as_slice(), 0, from));
    assert(r@ =~= out@.subrange(0, from as int));
    if lead {
        r.push(0x20u8);
    }
    let ghost with_lead = r@;
    r.extend_from_slice(body);
    assert(r@ =~= with_lead + body@);
    if trail {
        r.push(0x20u8);
    }
    r.extend_from_slice(slice_subrange(out.as_slice(), to, out.len()));
    assert(r@ =~= out@.subrange(0, from as int) + (if lead {
        space()
    } else {
        Seq::empty()
    }) + body@ + (if trail {
        space()
    } else {
        Seq::empty()
    }) + out@.subrange(to as int, out@.len() as int));
    r
}

/// What stands behind the start of a change once it is applied: what the
/// change brings, then what was behind its end before.
pub open spec fn rest_after(
    text1: Seq<u8>,
    text2: Seq<u8>,
    untouched: int,
    rest: Seq<u8>,
    change: Change,
) -> Seq<u8> {
    let kept = text1.subrange(change.end() as int, untouched) + rest;
    if change.is_insertion() {
        space_before(text1, change) + inserted_text(text2, change.range2->0) + space_after(
            text1,
            change,
        ) + kept
    } else if change.is_replacement() {
        text2.subrange(change.range2->0.start as int, change.range2->0.end as int) + kept
    } else {
        kept
    }
}

/// One step of the engine. Where the output is the first text up to
/// `untouched` and a valid text behind it, and the change ends at or before
/// `untouched`, the output after the change is the first text up to the start
/// of the change and a valid text behind it.
proof fn lemma_apply_step(
    text1: Seq<u8>,
    text2: Seq<u8>,
    out: Seq<u8>,
    untouched: int,
    rest: Seq<u8>,
    change: Change,
)
    requires
        valid_utf8(text1),
        valid_utf8(text2),
        ready(text1, text2, change),
        0 <= untouched <= text1.len(),
        is_char_boundary(text1, untouched),
        valid_utf8(rest),
        out == text1.subrange(0, untouched) + rest,
        change.end() <= untouched,
    ensures
        change.start() <= change.end(),
        is_char_boundary(text1, change.start() as int),
        valid_utf8(rest_after(text1, text2, untouched, rest, change)),
        apply_change(out, text1, text2, change) == text1.subrange(0, change.start() as int)
            + rest_after(text1, text2, untouched, rest, change),
{
    let from = change.start() as int;
    let to = change.end() as int;
    let kept = text1.subrange(to, untouched) + rest;
    lemma_valid_between(text1, to, untouched);
    valid_utf8_concat(text1.subrange(to, untouched), rest);
    lemma_space_valid();
    assert(out.subrange(0, from) =~= text1.subrange(0, from));
    assert(out.subrange(to, out.len() as int) =~= kept);
    if change.is_insertion() {
        let new = change.range2->0;
        let lead = space_before(text1, change);
        let body = inserted_text(text2, new);
        let trail = space_after(text1, change);
        encode_utf8_valid_utf8(
            trimmed(decode_utf8(text2.subrange(new.start as int, new.end as int))),
        );
        valid_utf8_concat(lead, body);
        valid_utf8_concat(lead + body, trail);
        valid_utf8_concat(lead + body + trail, kept);
        assert(apply_change(out, text1, text2, change) =~= text1.subrange(0, from) + (lead + body
            + trail + kept));
    } else if change.is_replacement() {
        let new = change.range2->0;
        let body = text2.subrange(new.start as int, new.end as int);
        lemma_valid_between(text2, new.start as int, new.end as int);
        valid_utf8_concat(body, kept);
        assert(apply_change(out, text1, text2, change) =~= text1.subrange(0, from) + (body
            + kept));
    } else {
        assert(apply_change(out, text1, text2, change) =~= text1.subrange(0, from) + kept);
    }
}

/// Applies one change that is ready to the output so far.
fn apply_one(text1: &str, text2: &str, out: Vec<u8>, change: Change) -> (r: Vec<u8>)
    requires
        ready(text1.spec_bytes(), text2.spec_bytes(), change),
        change.start() <= out@.len(),
        change.end() <= out@.len(),
    ensures
        r@ == apply_change(out@, text1.spec_bytes(), text2.spec_bytes(), change),
{
    let bytes1 = text1.as_bytes();
    let bytes2 = text2.as_bytes();
    match (change.range1, change.range2, change.insert_pos) {
        (None, Some(new), Some(pos)) => {
            let lead = change.is_attribute && !(pos > 0 && is_blank_byte(bytes1[pos - 1]));
            let trail = change.is_attribute && pos < bytes1.len() && bytes1[pos] == 0x2f;
            let part = part_between(text2, new.start, new.end);
            let body = part.trim();
            proof {
                encode_utf8_decode_utf8(part@);
            }
            spliced(&out, pos, pos, lead, body.as_bytes(), trail)
        },
        (Some(gone), None, None) => {
            let nothing = slice_subrange(bytes2, 0, 0);
            spliced(&out, gone.start, gone.end, false, nothing, false)
        },
        (Some(gone), Some(new), None) => {
            let body = slice_subrange(bytes2, new.start, new.end);
            spliced(&out, gone.start, gone.end, false, body, false)
        },
        _ => out,
    }
}

/// Applies changes that are ready and in application order.
fn apply_sorted(text1: &str, text2: &str, sorted: &Vec<Change>) -> (r: String)
    requires
        forall|i: int|
            0 <= i < sorted@.len() ==> ready(
                text1.spec_bytes(),
                text2.spec_bytes(),
                #[trigger] sorted@[i],
            ),
        separated(sorted@),
    ensures
        encode_utf8(r@) == apply_in_order(text1.spec_bytes(), text2.spec_bytes(), sorted@),
{
    let ghost t1 = text1.spec_bytes();
    let ghost t2 = text2.spec_bytes();
    proof {
        encode_utf8_valid_utf8(text1@);
        encode_utf8_valid_utf8(text2@);
        is_char_boundary_start_end_of_seq(t1);
    }
    let mut out: Vec<u8> = slice_to_vec(text1.as_bytes());
    // The output is the first text up to `untouched`, then `rest`.
    let ghost mut untouched: int = t1.len() as int;
    let ghost mut rest: Seq<u8> = Seq::empty();
    let mut i: usize = 0;
    while i < sorted.len()
        invariant
            i <= sorted.len(),
            t1 == text1.spec_bytes(),
            t2 == text2.spec_bytes(),
            valid_utf8(t1),
            valid_utf8(t2),
            forall|k: int| 0 <= k < sorted@.len() ==> ready(t1, t2, #[trigger] sorted@[k]),
            separated(sorted@),
            out@ == apply_in_order(t1, t2, sorted@.take(i as int)),
            0 <= untouched <= t1.len(),
            is_char_boundary(t1, untouched),
            valid_utf8(rest),
            out@ == t1.subrange(0, untouched) + rest,
            i == 0 ==> untouched == t1.len(),
            i > 0 ==> untouched == sorted@[i - 1].start(),
        decreases sorted.len() - i,
    {
        let change = sorted[i];
        proof {
            assert(sorted@.take(i as int + 1).drop_last() =~= sorted@.take(i as int));
            lemma_apply_step(t1, t2, out@, untouched, rest, change);
            rest = rest_after(t1, t2, untouched, rest, change);
            untouched = change.start() as int;
        }
        out = apply_one(text1, text2, out, change);
        i = i + 1;
    }
    proof {
        assert(sorted@.take(sorted@.len() as int) =~= sorted@);
        lemma_valid_between(t1, 0, untouched);
        valid_utf8_concat(t1.subrange(0, untouched), rest);
    }
    match text_of(out) {
        Some(text) => text,
        // The output is valid UTF-8: there is always a text.
        None => String::new(),
    }
}

/// Whether the byte is a space, a tab, a carriage return or a line feed.
fn is_blank_byte(byte: u8) -> (r: bool)
    ensures
        r == is_blank(byte),
{
    byte == 0x20 || byte == 0x09 || byte == 0x0d || byte == 0x0a
}

/// Makes the insertion points exact and puts the changes in the order in
/// which they are applied.
fn arranged(text1: &str, text2: &str, changes: &Vec<Change>) -> (r: Vec<Change>)
    requires
        forall|i: int|
            0 <= i < changes@.len() ==> change_fits(
                text1.spec_bytes(),
                text2.spec_bytes(),
                #[trigger] changes@[i],
            ),
    ensures
        r@ == by_descending_start(corrected_all(text1.spec_bytes(), changes@)),
        forall|i: int|
            0 <= i < r@.len() ==> ready(text1.spec_bytes(), text2.spec_bytes(), #[trigger] r@[i]),
{
    let ghost t1 = text1.spec_bytes();
    let ghost t2 = text2.spec_bytes();
    let bytes1 = text1.as_bytes();
    let exact = correct_changes(bytes1, changes);
    proof {
        encode_utf8_valid_utf8(text1@);
        assert(t1.len() == bytes1.len());
        assert forall|i: int| 0 <= i < exact@.len() implies ready(t1, t2, #[trigger] exact@[i]) by {
            lemma_corrected_ready(t1, t2, changes@[i]);
        }
        lemma_sorting_keeps(exact@, |change: Change| ready(t1, t2, change));
    }
    sort_changes(&exact)
}

/// Applies the changes to the first text and returns the edited text.
///
/// The insertion points of new attributes are moved into their opening tags;
/// then the changes are applied in descending order of start. The offsets of
/// every change are those of the texts as given: `range1` and `insert_pos`
/// point into `text1`, `range2` into `text2`.
pub fn apply_changes(text1: &str, text2: &str, changes: Vec<Change>) -> (r: String)
    requires
        changes_applicable(text1.spec_bytes(), text2.spec_bytes(), changes@),
    ensures
        encode_utf8(r@) == patched(text1.spec_bytes(), text2.spec_bytes(), changes@),
        changes@.len() == 0 ==> r@ == text1@,
{
    let sorted = arranged(text1, text2, &changes);
    let r = apply_sorted(text1, text2, &sorted);
    proof {
        if changes@.len() == 0 {
            encode_utf8_decode_utf8(r@);
            encode_utf8_decode_utf8(text1@);
        }
    }
    r
}

/// Tells whether a change fits the two texts.
fn fits(text1: &str, text2: &str, change: &Change) -> (r: bool)
    ensures
        r == change_fits(text1.spec_bytes(), text2.spec_bytes(), *change),
{
    let shaped = match (change.range1, change.range2, change.insert_pos) {
        (None, Some(_), Some(_)) => true,
        (Some(_), None, None) => true,
        (Some(_), Some(_), None) => true,
        _ => false,
    };
    if !shaped {
        return false;
    }
    match change.range1 {
        Some(range) => {
            if !range_cuts_cleanly(text1, range) {
                return false;
            }
        },
        None => {},
    }
    match change.range2 {
        Some(range) => {
            if !range_cuts_cleanly(text2, range) {
                return false;
            }
        },
        None => {},
    }
    match change.insert_pos {
        Some(pos) => {
            let bytes1 = text1.as_bytes();
            if change.is_attribute {
                find_tag_close(bytes1, pos) < bytes1.len()
            } else {
                pos <= bytes1.len() && text1.is_char_boundary(pos)
            }
        },
        None => true,
    }
}

/// Tells whether no change of a list reaches into what the one before it
/// changed.
fn is_separated(changes: &Vec<Change>) -> (r: bool)
    ensures
        r == separated(changes@),
{
    let mut i: usize = 1;
    while i < changes.len()
        invariant
            1 <= i,
            forall|k: int| 0 < k < i && k < changes@.len() ==> (#[trigger] changes@[k]).end()
                <= changes@[k - 1].start(),
        decreases changes.len() - i,
    {
        if changes[i].end_offset() > changes[i - 1].start_offset() {
            return false;
        }
        i = i + 1;
    }
    true
}

/// Applies the changes to the first text if they can be applied, and tells
/// so if they cannot: where a change has none of the three shapes or does not
/// fit the texts, or where two changes overlap.
pub fn try_apply_changes(text1: &str, text2: &str, changes: Vec<Change>) -> (r: Option<String>)
    ensures
        r is Some <==> changes_applicable(text1.spec_bytes(), text2.spec_bytes(), changes@),
        r matches Some(text) ==> encode_utf8(text@) == patched(
            text1.spec_bytes(),
            text2.spec_bytes(),
            changes@,
        ),
{
    let ghost t1 = text1.spec_bytes();
    let ghost t2 = text2.spec_bytes();
    let mut i: usize = 0;
    while i < changes.len()
        invariant
            i <= changes.len(),
            t1 == text1.spec_bytes(),
            t2 == text2.spec_bytes(),
            forall|k: int| 0 <= k < i ==> change_fits(t1, t2, #[trigger] changes@[k]),
        decreases changes.len() - i,
    {
        if !fits(text1, text2, &changes[i]) {
            return None;
        }
        i = i + 1;
    }
    let sorted = arranged(text1, text2, &changes);
    if !is_separated(&sorted) {
        return None;
    }
    Some(apply_sorted(text1, text2, &sorted))
}

/// Without changes the edited text is the first text.
pub proof fn lemma_no_changes(text1: Seq<u8>, text2: Seq<u8>)
    ensures
        patched(text1, text2, Seq::empty()) == text1,
        changes_applicable(text1, text2, Seq::empty()),
{
}

/// Two changes that start at different offsets give the same edited text in
/// whichever order the caller hands them over, and can be applied in the one
/// order exactly if they can in the other.
pub proof fn lemma_order_of_two(text1: Seq<u8>, text2: Seq<u8>, first: Change, second: Change)
    requires
        corrected(text1, first).start() != corrected(text1, second).start(),
    ensures
        patched(text1, text2, seq![first, second]) == patched(text1, text2, seq![second, first]),
        changes_applicable(text1, text2, seq![first, second]) == changes_applicable(
            text1,
            text2,
            seq![second, first],
        ),
{
    let one = corrected(text1, first);
    let other = corrected(text1, second);
    let given = seq![first, second];
    let turned = seq![second, first];
    assert(corrected_all(text1, given) =~= seq![one, other]);
    assert(corrected_all(text1, turned) =~= seq![other, one]);
    lemma_sorted_pair(one, other);
    lemma_sorted_pair(other, one);
    assert(by_descending_start(seq![one, other]) == by_descending_start(seq![other, one]));
    let both_fit = change_fits(text1, text2, first) && change_fits(text1, text2, second);
    assert(given[0] == first && given[1] == second);
    assert(turned[0] == second && turned[1] == first);
    assert((forall|i: int|
        0 <= i < given.len() ==> change_fits(text1, text2, #[trigger] given[i])) == both_fit);
    assert((forall|i: int|
        0 <= i < turned.len() ==> change_fits(text1, text2, #[trigger] turned[i])) == both_fit);
}

/// Lists that hold the same changes hold the same changes once the insertion
/// points are made exact.
proof fn lemma_corrected_holds_the_same(text1: Seq<u8>, given: Seq<Change>, other: Seq<Change>)
    requires
        given.to_multiset() == other.to_multiset(),
    ensures
        corrected_all(text1, given).to_multiset() == corrected_all(text1, other).to_multiset(),
    decreases given.len(),
{
    given.to_multiset_ensures();
    other.to_multiset_ensures();
    if given.len() == 0 {
        assert(corrected_all(text1, given) =~= corrected_all(text1, other));
    } else {
        let last = given.last();
        assert(given.to_multiset().count(last) > 0);
        let at = choose|at: int| 0 <= at < other.len() && other[at] == last;
        let shorter = given.drop_last();
        let rest = other.remove(at);
        to_multiset_build(shorter, last);
        assert(shorter.push(last) =~= given);
        assert(shorter.to_multiset() =~= shorter.to_multiset().insert(last).remove(last));
        to_multiset_remove(other, at);
        lemma_corrected_holds_the_same(text1, shorter, rest);
        let exact = corrected(text1, last);
        let all = corrected_all(text1, other);
        to_multiset_build(corrected_all(text1, shorter), exact);
        assert(corrected_all(text1, shorter).push(exact) =~= corrected_all(text1, given));
        to_multiset_remove(all, at);
        assert(all.remove(at) =~= corrected_all(text1, rest));
        all.to_multiset_ensures();
    }
}

/// Changes of which no two start at the same offset give the same edited
/// text in whichever order the caller hands them over, and can be applied in
/// the one order exactly if they can in the other.
pub proof fn lemma_order_does_not_matter(
    text1: Seq<u8>,
    text2: Seq<u8>,
    given: Seq<Change>,
    other: Seq<Change>,
)
    requires
        given.to_multiset() == other.to_multiset(),
        starts_differ(corrected_all(text1, given)),
    ensures
        patched(text1, text2, given) == patched(text1, text2, other),
        changes_applicable(text1, text2, given) == changes_applicable(text1, text2, other),
{
    lemma_corrected_holds_the_same(text1, given, other);
    lemma_sorted_whatever_the_order(corrected_all(text1, given), corrected_all(text1, other));
    given.to_multiset_ensures();
    other.to_multiset_ensures();
    if changes_applicable(text1, text2, given) {
        assert forall|i: int| 0 <= i < other.len() implies change_fits(
            text1,
            text2,
            #[trigger] other[i],
        ) by {
            assert(other.to_multiset().count(other[i]) > 0);
        }
    }
    if changes_applicable(text1, text2, other) {
        assert forall|i: int| 0 <= i < given.len() implies change_fits(
            text1,
            text2,
            #[trigger] given[i],
        ) by {
            assert(given.to_multiset().count(given[i]) > 0);
        }
    }
}

/// The edited text for one change: the change, its insertion point made
/// exact, applied to the first text.
proof fn lemma_patched_single(text1: Seq<u8>, text2: Seq<u8>, change: Change)
    ensures
        patched(text1, text2, seq![change]) == apply_change(
            text1,
            text1,
            text2,
            corrected(text1, change),
        ),
{
    let exact = corrected(text1, change);
    assert(corrected_all(text1, seq![change]) =~= seq![exact]);
    lemma_sorted_single(exact);
    assert(seq![exact].drop_last() =~= Seq::<Change>::empty());
    assert(apply_in_order(text1, text2, seq![exact]) == apply_change(
        apply_in_order(text1, text2, Seq::empty()),
        text1,
        text2,
        exact,
    ));
}

/// A new attribute lands inside the opening tag that closes first behind its
/// anchor: before the `>`, or before the `/` of a tag that closes itself. A
/// space leads it unless a blank stands before the place already, and a space
/// follows it where the place is that of a `/`.
pub proof fn lemma_attribute_lands_in_tag(
    text1: Seq<u8>,
    text2: Seq<u8>,
    new: Range,
    anchor: usize,
)
    requires
        text1.len() <= usize::MAX,
        tag_close(text1, anchor as int) < text1.len(),
    ensures
        ({
            let slot = attribute_slot(text1, anchor as int);
            let change = Change {
                range1: None,
                range2: Some(new),
                insert_pos: Some(anchor),
                is_attribute: true,
            };
            &&& 0 <= slot < text1.len()
            &&& text1[slot] == 0x3e || (text1[slot] == 0x2f && text1[slot + 1] == 0x3e)
            &&& patched(text1, text2, seq![change]) == text1.subrange(0, slot) + (if slot > 0
                && is_blank(text1[slot - 1]) {
                Seq::empty()
            } else {
                space()
            }) + inserted_text(text2, new) + (if text1[slot] == 0x2f {
                space()
            } else {
                Seq::empty()
            }) + text1.subrange(slot, text1.len() as int)
        }),
{
    let change = Change {
        range1: None,
        range2: Some(new),
        insert_pos: Some(anchor),
        is_attribute: true,
    };
    lemma_tag_close(text1, anchor as int);
    lemma_patched_single(text1, text2, change);
}

/// Two texts that differ in one part only: the replacement of that part of
/// the first text by that part of the second gives the second text.
pub proof fn lemma_replacement_gives_second(
    text1: Seq<u8>,
    text2: Seq<u8>,
    gone: Range,
    new: Range,
    is_attribute: bool,
)
    requires
        gone.fits(text1.len()),
        new.fits(text2.len()),
        text1.subrange(0, gone.start as int) == text2.subrange(0, new.start as int),
        text1.subrange(gone.end as int, text1.len() as int) == text2.subrange(
            new.end as int,
            text2.len() as int,
        ),
    ensures
        patched(
            text1,
            text2,
            seq![Change { range1: Some(gone), range2: Some(new), insert_pos: None, is_attribute }],
        ) == text2,
{
    let change = Change { range1: Some(gone), range2: Some(new), insert_pos: None, is_attribute };
    lemma_patched_single(text1, text2, change);
}

/// A second text that is the first without one part: the deletion of that
/// part gives the second text.
pub proof fn lemma_deletion_gives_second(
    text1: Seq<u8>,
    text2: Seq<u8>,
    gone: Range,
    is_attribute: bool,
)
    requires
        gone.fits(text1.len()),
        text2 == text1.subrange(0, gone.start as int) + text1.subrange(
            gone.end as int,
            text1.len() as int,
        ),
    ensures
        patched(
            text1,
            text2,
            seq![Change { range1: Some(gone), range2: None, insert_pos: None, is_attribute }],
        ) == text2,
{
    let change = Change { range1: Some(gone), range2: None, insert_pos: None, is_attribute };
    lemma_patched_single(text1, text2, change);
}

/// A second text that is the first with one part more, which trimming leaves
/// as it is: the insertion of that part at its place gives the second text.
pub proof fn lemma_insertion_gives_second(text1: Seq<u8>, text2: Seq<u8>, new: Range)
    requires
        new.fits(text2.len()),
        new.start <= text1.len(),
        valid_utf8(text2.subrange(new.start as int, new.end as int)),
        trimmed(decode_utf8(text2.subrange(new.start as int, new.end as int))) == decode_utf8(
            text2.subrange(new.start as int, new.end as int),
        ),
        text1.subrange(0, new.start as int) == text2.subrange(0, new.start as int),
        text1.subrange(new.start as int, text1.len() as int) == text2.subrange(
            new.end as int,
            text2.len() as int,
        ),
    ensures
        patched(
            text1,
            text2,
            seq![
                Change {
                    range1: None,
                    range2: Some(new),
                    insert_pos: Some(new.start),
                    is_attribute: false,
                },
            ],
        ) == text2,
{
    let change = Change {
        range1: None,
        range2: Some(new),
        insert_pos: Some(new.start),
        is_attribute: false,
    };
    lemma_patched_single(text1, text2, change);
    decode_utf8_encode_utf8(text2.subrange(new.start as int, new.end as int));
}

/// Where the counterpart of a change stands in the second text: at `range2`,
/// or, for a deletion, at the place from which the deleted part is missing.
pub open spec fn counterpart(change: Change, place: int) -> (int, int) {
    match change.range2 {
        Some(range) => (range.start as int, range.end as int),
        None => (place, place),
    }
}

/// Whether a change brings the part of the second text at `range2` as it
/// stands there: a replacement does, a deletion brings nothing, and an
/// insertion does where it is not that of an attribute and trimming leaves the
/// part as it is.
pub open spec fn brings_as_it_is(text2: Seq<u8>, change: Change) -> bool {
    ||| change.is_replacement()
    ||| change.is_deletion()
    ||| change.is_insertion() && !change.is_attribute && inserted_text(text2, change.range2->0)
        == text2.subrange(change.range2->0.start as int, change.range2->0.end as int)
}

/// Whether the `i`-th change brings its part of the second text as it stands
/// there, and lies inside the first text as its counterpart does inside the
/// second.
pub open spec fn lies_in_both(
    text1: Seq<u8>,
    text2: Seq<u8>,
    changes: Seq<Change>,
    places: Seq<int>,
    i: int,
) -> bool {
    &&& brings_as_it_is(text2, changes[i])
    &&& changes[i].start() <= changes[i].end() <= text1.len()
    &&& 0 <= counterpart(changes[i], places[i]).0 <= counterpart(changes[i], places[i]).1
        <= text2.len()
}

/// Whether the `i`-th change stands before the one applied before it, in both
/// texts, and the two texts hold the same between the two.
pub open spec fn same_between(
    text1: Seq<u8>,
    text2: Seq<u8>,
    changes: Seq<Change>,
    places: Seq<int>,
    i: int,
) -> bool {
    &&& changes[i].end() <= changes[i - 1].start()
    &&& counterpart(changes[i], places[i]).1 <= counterpart(changes[i - 1], places[i - 1]).0
    &&& text1.subrange(changes[i].end() as int, changes[i - 1].start() as int) == text2.subrange(
        counterpart(changes[i], places[i]).1,
        counterpart(changes[i - 1], places[i - 1]).0,
    )
}

/// Whether two texts agree everywhere but in the parts that the changes
/// name. The changes stand in the order in which they are applied, and
/// `places` tells for each deletion where its part is missing from the second
/// text. Each change stands before the one applied before it, in both texts;
/// what stands between two of them, behind the first and before the last, is
/// the same in both texts.
pub open spec fn agree_elsewhere(
    text1: Seq<u8>,
    text2: Seq<u8>,
    changes: Seq<Change>,
    places: Seq<int>,
) -> bool {
    &&& places.len() == changes.len()
    &&& forall|i: int|
        0 <= i < changes.len() ==> #[trigger] lies_in_both(text1, text2, changes, places, i)
    &&& forall|i: int|
        0 < i < changes.len() ==> #[trigger] same_between(text1, text2, changes, places, i)
    &&& changes.len() == 0 ==> text1 == text2
    &&& changes.len() > 0 ==> text1.subrange(changes[0].end() as int, text1.len() as int)
        == text2.subrange(counterpart(changes[0], places[0]).1, text2.len() as int)
    &&& changes.len() > 0 ==> text1.subrange(0, changes.last().start() as int) == text2.subrange(
        0,
        counterpart(changes.last(), places.last()).0,
    )
}

/// One change that brings its part of the second text as it stands there,
/// applied to an output that holds the first text before the change and the
/// second text behind its counterpart: the output then holds the second text
/// from the start of the counterpart on.
proof fn lemma_change_joins(
    text1: Seq<u8>,
    text2: Seq<u8>,
    before: Seq<u8>,
    change: Change,
    place: int,
)
    requires
        brings_as_it_is(text2, change),
        change.start() <= change.end() <= before.len(),
        0 <= counterpart(change, place).0 <= counterpart(change, place).1 <= text2.len(),
        before.subrange(0, change.start() as int) == text1.subrange(0, change.start() as int),
        before.subrange(change.end() as int, before.len() as int) == text2.subrange(
            counterpart(change, place).1,
            text2.len() as int,
        ),
    ensures
        apply_change(before, text1, text2, change) == text1.subrange(0, change.start() as int)
            + text2.subrange(counterpart(change, place).0, text2.len() as int),
{
    let from = change.start() as int;
    let (from2, to2) = counterpart(change, place);
    let behind = text2.subrange(to2, text2.len() as int);
    if change.is_deletion() {
        assert(apply_change(before, text1, text2, change) =~= text1.subrange(0, from) + behind);
    } else {
        let part = text2.subrange(from2, to2);
        assert(apply_change(before, text1, text2, change) =~= text1.subrange(0, from) + part
            + behind);
        assert(part + behind =~= text2.subrange(from2, text2.len() as int));
    }
}

/// After the first `count` changes the output is the first text up to the
/// start of the last of them, and the second text from its counterpart on.
proof fn lemma_changed_so_far(
    text1: Seq<u8>,
    text2: Seq<u8>,
    changes: Seq<Change>,
    places: Seq<int>,
    count: int,
)
    requires
        agree_elsewhere(text1, text2, changes, places),
        1 <= count <= changes.len(),
    ensures
        apply_in_order(text1, text2, changes.take(count)) == text1.subrange(
            0,
            changes[count - 1].start() as int,
        ) + text2.subrange(
            counterpart(changes[count - 1], places[count - 1]).0,
            text2.len() as int,
        ),
    decreases count,
{
    let change = changes[count - 1];
    let from = change.start() as int;
    let to = change.end() as int;
    let to2 = counterpart(change, places[count - 1]).1;
    let before = apply_in_order(text1, text2, changes.take(count - 1));
    assert(changes.take(count).drop_last() =~= changes.take(count - 1));
    assert(changes.take(count).last() == change);
    assert(lies_in_both(text1, text2, changes, places, count - 1));
    if count == 1 {
        assert(before == text1);
        assert(before.subrange(0, from) =~= text1.subrange(0, from));
    } else {
        lemma_changed_so_far(text1, text2, changes, places, count - 1);
        let earlier = changes[count - 2].start() as int;
        let earlier2 = counterpart(changes[count - 2], places[count - 2]).0;
        assert(same_between(text1, text2, changes, places, count - 1));
        assert(lies_in_both(text1, text2, changes, places, count - 2));
        assert(before.subrange(0, from) =~= text1.subrange(0, from));
        assert(before.subrange(to, before.len() as int) =~= text1.subrange(to, earlier)
            + text2.subrange(earlier2, text2.len() as int));
        assert(text2.subrange(to2, earlier2) + text2.subrange(earlier2, text2.len() as int)
            =~= text2.subrange(to2, text2.len() as int));
    }
    lemma_change_joins(text1, text2, before, change, places[count - 1]);
}

/// Two texts that agree everywhere but in the parts that the changes name:
/// the changes, all applied, give the second text. This holds of replacements,
/// deletions and insertions together, where no insertion is that of an
/// attribute and each brings its part of the second text as it stands there.
pub proof fn lemma_changes_give_second(
    text1: Seq<u8>,
    text2: Seq<u8>,
    changes: Seq<Change>,
    places: Seq<int>,
)
    requires
        agree_elsewhere(
            text1,
            text2,
            by_descending_start(corrected_all(text1, changes)),
            places,
        ),
    ensures
        patched(text1, text2, changes) == text2,
{
    let sorted = by_descending_start(corrected_all(text1, changes));
    if sorted.len() > 0 {
        lemma_changed_so_far(text1, text2, sorted, places, sorted.len() as int);
        assert(sorted.take(sorted.len() as int) =~= sorted);
        assert(lies_in_both(text1, text2, sorted, places, sorted.len() - 1));
        assert(text1.subrange(0, sorted.last().start() as int) + text2.subrange(
            counterpart(sorted.last(), places.last()).0,
            text2.len() as int,
        ) =~= text2);
    }
}

} // verus!
