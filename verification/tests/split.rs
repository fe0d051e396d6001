use libxdiffer::{range_cuts_cleanly, split_by_range, Range};

#[test]
fn split_without_a_range() {
    let parts = split_by_range("<a>text</a>", None);
    assert_eq!(parts.head(), "<a>text</a>");
    assert_eq!(parts.middle(), "");
    assert_eq!(parts.tail(), "");
}

#[test]
fn split_at_a_range() {
    let parts = split_by_range("<a>text</a>", Some(Range { start: 3, end: 7 }));
    assert_eq!(parts.head(), "<a>");
    assert_eq!(parts.middle(), "text");
    assert_eq!(parts.tail(), "</a>");
}

#[test]
fn split_keeps_white_space() {
    let parts = split_by_range("a  b  c", Some(Range { start: 1, end: 6 }));
    assert_eq!(parts.head(), "a");
    assert_eq!(parts.middle(), "  b  ");
    assert_eq!(parts.tail(), "c");
}

#[test]
fn split_at_the_ends() {
    let whole = split_by_range("abc", Some(Range { start: 0, end: 3 }));
    assert_eq!((whole.head(), whole.middle(), whole.tail()), ("".into(), "abc".into(), "".into()));
    let front = split_by_range("abc", Some(Range { start: 0, end: 0 }));
    assert_eq!((front.head(), front.middle(), front.tail()), ("".into(), "".into(), "abc".into()));
    let back = split_by_range("abc", Some(Range { start: 3, end: 3 }));
    assert_eq!((back.head(), back.middle(), back.tail()), ("abc".into(), "".into(), "".into()));
    let empty = split_by_range("", Some(Range { start: 0, end: 0 }));
    assert_eq!((empty.head(), empty.middle(), empty.tail()), ("".into(), "".into(), "".into()));
}

#[test]
fn split_parts_make_up_the_text() {
    let text = "gr\u{fc}n <b>\u{3b1}\u{3b2}</b>";
    for (start, end) in [(0, 0), (0, 2), (2, 4), (4, 9), (9, 13), (13, 17), (0, 17)] {
        let range = Range { start, end };
        assert!(range_cuts_cleanly(text, range));
        let parts = split_by_range(text, Some(range));
        assert_eq!(parts.middle(), &text[start..end]);
        assert_eq!(format!("{}{}{}", parts.head(), parts.middle(), parts.tail()), text);
    }
}

#[test]
fn ranges_that_cut_cleanly() {
    let text = "a\u{e9}b";
    assert!(range_cuts_cleanly(text, Range { start: 0, end: 4 }));
    assert!(range_cuts_cleanly(text, Range { start: 1, end: 3 }));
    assert!(range_cuts_cleanly(text, Range { start: 4, end: 4 }));
    assert!(!range_cuts_cleanly(text, Range { start: 0, end: 5 }));
    assert!(!range_cuts_cleanly(text, Range { start: 2, end: 3 }));
    assert!(!range_cuts_cleanly(text, Range { start: 1, end: 2 }));
    assert!(!range_cuts_cleanly(text, Range { start: 3, end: 1 }));
}

#[test]
fn range_from_a_std_range() {
    assert_eq!(Range::from(3..8), Range { start: 3, end: 8 });
    assert_eq!(Range::from(8..3), Range { start: 8, end: 3 });
}
