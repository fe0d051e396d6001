use libxdiffer::{apply_changes, try_apply_changes, Change, Range};

fn span(start: usize, end: usize) -> Option<Range> {
    Some(Range { start, end })
}

fn insertion(range2: Option<Range>, at: usize) -> Change {
    Change::new(None, range2, Some(at), false)
}

fn attribute(range2: Option<Range>, anchor: usize) -> Change {
    Change::new(None, range2, Some(anchor), true)
}

fn deletion(range1: Option<Range>) -> Change {
    Change::new(range1, None, None, false)
}

fn replacement(range1: Option<Range>, range2: Option<Range>) -> Change {
    Change::new(range1, range2, None, false)
}

#[test]
fn change_new_keeps_its_arguments() {
    let change = Change::new(span(1, 2), span(3, 4), Some(5), true);
    assert_eq!(change.range1, span(1, 2));
    assert_eq!(change.range2, span(3, 4));
    assert_eq!(change.insert_pos, Some(5));
    assert!(change.is_attribute);
    assert_eq!(change.copy(), change);
}

#[test]
fn change_start_and_end() {
    assert_eq!(replacement(span(4, 9), span(0, 1)).start_offset(), 4);
    assert_eq!(replacement(span(4, 9), span(0, 1)).end_offset(), 9);
    assert_eq!(insertion(span(0, 1), 7).start_offset(), 7);
    assert_eq!(insertion(span(0, 1), 7).end_offset(), 7);
    assert_eq!(Change::new(span(4, 9), None, Some(2), false).start_offset(), 4);
    assert_eq!(Change::new(None, None, None, false).start_offset(), 0);
    assert_eq!(Change::new(None, None, None, false).end_offset(), 0);
}

#[test]
fn no_changes_leave_the_text() {
    assert_eq!(apply_changes("<a></a>", "<b/>", Vec::new()), "<a></a>");
    assert_eq!(apply_changes("", "", Vec::new()), "");
    assert_eq!(try_apply_changes("gr\u{fc}n", "", Vec::new()), Some("gr\u{fc}n".to_string()));
}

#[test]
fn replacement_of_an_attribute() {
    let text1 = "<a x=\"1\"></a>";
    let text2 = "<a x=\"2\"></a>";
    let change = Change::new(span(3, 8), span(3, 8), None, true);
    assert_eq!(apply_changes(text1, text2, vec![change]), "<a x=\"2\"></a>");
}

#[test]
fn replacement_of_an_attribute_value_alone() {
    let text1 = "<a x=\"1\"></a>";
    let text2 = "<a x=\"2\"></a>";
    assert_eq!(
        apply_changes(text1, text2, vec![replacement(span(6, 7), span(6, 7))]),
        "<a x=\"2\"></a>"
    );
}

#[test]
fn replacement_is_not_trimmed() {
    assert_eq!(
        apply_changes("<a>x</a>", "<a> y </a>", vec![replacement(span(3, 4), span(3, 6))]),
        "<a> y </a>"
    );
}

#[test]
fn attribute_goes_before_a_self_closing_mark() {
    let text1 = "<a/>";
    let text2 = "<a y=\"9\"/>";
    let patched = apply_changes(text1, text2, vec![attribute(span(3, 8), 0)]);
    // A space leads because `a` stands before the slot, and a space trails
    // because the slot is at the `/`.
    assert_eq!(patched, "<a y=\"9\" />");
    assert!(patched.find("y=\"9\"").unwrap() < patched.find("/>").unwrap());
}

#[test]
fn attribute_goes_before_the_end_of_the_opening_tag() {
    let text1 = "<a><b/></a>";
    let text2 = "<a k=\"v\"><b/></a>";
    assert_eq!(
        apply_changes(text1, text2, vec![attribute(span(3, 8), 0)]),
        "<a k=\"v\"><b/></a>"
    );
}

#[test]
fn attribute_behind_a_blank_gets_no_leading_space() {
    for blank in [" ", "\t", "\r", "\n"] {
        let text1 = format!("<a{blank}></a>");
        let text2 = "<a k=\"v\"></a>";
        assert_eq!(
            apply_changes(&text1, text2, vec![attribute(span(3, 8), 0)]),
            format!("<a{blank}k=\"v\"></a>")
        );
    }
}

#[test]
fn attribute_behind_a_blank_before_a_slash() {
    assert_eq!(
        apply_changes("<a />", "<a k=\"v\"/>", vec![attribute(span(3, 8), 0)]),
        "<a k=\"v\" />"
    );
}

#[test]
fn attribute_anchor_inside_the_text() {
    let text1 = "<r><a/><b></b></r>";
    let text2 = "<r><a/><b n=\"1\"></b></r>";
    assert_eq!(
        apply_changes(text1, text2, vec![attribute(span(10, 15), 7)]),
        "<r><a/><b n=\"1\"></b></r>"
    );
}

#[test]
fn attribute_at_the_very_start() {
    // The tag closes at offset 0: nothing stands before the slot.
    assert_eq!(apply_changes(">x", "k", vec![attribute(span(0, 1), 0)]), " k>x");
    assert_eq!(apply_changes("/>", "k", vec![attribute(span(0, 1), 0)]), " k />");
}

#[test]
fn attribute_behind_a_wide_character() {
    // The byte before the slot is the last of a two-byte character.
    assert_eq!(
        apply_changes("<\u{e9}>", "k=\"v\"", vec![attribute(span(0, 5), 0)]),
        "<\u{e9} k=\"v\">"
    );
}

#[test]
fn inserted_text_is_trimmed() {
    let text1 = "<a></a>";
    let text2 = "<a>  <b/>\n </a>";
    assert_eq!(apply_changes(text1, text2, vec![insertion(span(3, 11), 3)]), "<a><b/></a>");
}

#[test]
fn inserted_text_is_trimmed_of_wide_white_space() {
    let text2 = "\u{a0}\u{2003}x y\u{3000}";
    assert_eq!(apply_changes("[]", text2, vec![insertion(span(0, text2.len()), 1)]), "[x y]");
}

#[test]
fn exactly_the_white_space_characters_are_trimmed() {
    let white = |code: u32| {
        matches!(
            code,
            0x09..=0x0d
                | 0x20
                | 0x85
                | 0xa0
                | 0x1680
                | 0x2000..=0x200a
                | 0x2028
                | 0x2029
                | 0x202f
                | 0x205f
                | 0x3000
        )
    };
    let mut count = 0;
    for code in 0..=0x10ffff_u32 {
        if let Some(c) = char::from_u32(code) {
            let text2 = format!("{c}x{c}");
            let whole = span(0, text2.len());
            let patched = apply_changes("[]", &text2, vec![insertion(whole, 1)]);
            if white(code) {
                count += 1;
                assert_eq!(patched, "[x]");
            } else {
                assert_eq!(patched, format!("[{text2}]"));
            }
        }
    }
    assert_eq!(count, 25);
}

#[test]
fn attribute_text_is_left_as_it_is() {
    let text2 = "<a y=\"9\"/>";
    let patched = apply_changes("<a/>", text2, vec![attribute(span(3, 8), 0)]);
    assert!(patched.starts_with("<a y=\"9\""));
    assert!(patched.ends_with("/>"));
    assert_eq!(patched.matches(' ').count(), 2);
}

#[test]
fn plain_insertion_gets_no_spaces() {
    assert_eq!(apply_changes("<a/>", "<a>t</a>", vec![insertion(span(3, 4), 2)]), "<at/>");
}

#[test]
fn deletion_of_a_nested_element() {
    let text1 = "<a><b>text</b></a>";
    assert_eq!(apply_changes(text1, "<a></a>", vec![deletion(span(3, 14))]), "<a></a>");
}

#[test]
fn deletion_of_everything_and_of_nothing() {
    assert_eq!(apply_changes("abc", "", vec![deletion(span(0, 3))]), "");
    assert_eq!(apply_changes("abc", "", vec![deletion(span(1, 1))]), "abc");
}

#[test]
fn changes_apply_from_the_end_whatever_the_order() {
    let text1 = "0123456789";
    let text2 = "abcdefghij";
    let first = replacement(span(1, 3), span(0, 4));
    let second = deletion(span(5, 6));
    let third = insertion(span(7, 9), 8);
    let expected = "0abcd3467hi89";
    let orders = [
        vec![first, second, third],
        vec![first, third, second],
        vec![second, first, third],
        vec![second, third, first],
        vec![third, first, second],
        vec![third, second, first],
    ];
    for order in orders {
        assert_eq!(apply_changes(text1, text2, order), expected);
    }
}

#[test]
fn two_changes_in_either_order() {
    let text1 = "<a x=\"1\"><b/></a>";
    let text2 = "<a x=\"2\"></a>";
    let update = replacement(span(3, 8), span(3, 8));
    let remove = deletion(span(9, 13));
    assert_eq!(apply_changes(text1, text2, vec![update, remove]), text2);
    assert_eq!(apply_changes(text1, text2, vec![remove, update]), text2);
}

#[test]
fn changes_that_start_alike_keep_their_order() {
    let text2 = "XY";
    let x = insertion(span(0, 1), 1);
    let y = insertion(span(1, 2), 1);
    assert_eq!(apply_changes("ab", text2, vec![x, y]), "aYXb");
    assert_eq!(apply_changes("ab", text2, vec![y, x]), "aXYb");
}

#[test]
fn two_attributes_for_one_element() {
    let text1 = "<a></a>";
    let text2 = "<a p=\"1\" q=\"2\"></a>";
    let p = attribute(span(3, 8), 0);
    let q = attribute(span(9, 14), 0);
    assert_eq!(apply_changes(text1, text2, vec![p, q]), "<a q=\"2\" p=\"1\"></a>");
}

#[test]
fn insertion_at_the_start_of_a_deletion() {
    let delete = deletion(span(1, 3));
    let insert = insertion(span(0, 1), 1);
    assert_eq!(try_apply_changes("abcd", "X", vec![delete, insert]), Some("aXd".to_string()));
    // Given the other way round, the deletion would reach into the inserted text.
    assert_eq!(try_apply_changes("abcd", "X", vec![insert, delete]), None);
}

#[test]
fn wide_characters_outside_the_ranges() {
    let text1 = "<\u{e4}>gr\u{fc}n</\u{e4}>";
    let text2 = "<\u{e4}>bl\u{e5}</\u{e4}>";
    let change = replacement(span(4, 9), span(4, 8));
    assert_eq!(apply_changes(text1, text2, vec![change]), text2);
}

#[test]
fn malformed_changes_are_turned_down() {
    let text = "<a></a>";
    let none = Change::new(None, None, None, false);
    let position_only = Change::new(None, None, Some(1), false);
    let range2_only = Change::new(None, span(0, 1), None, false);
    let attribute_without_position = Change::new(None, span(0, 1), None, true);
    let deletion_with_position = Change::new(span(0, 1), None, Some(1), false);
    let all_three = Change::new(span(0, 1), span(0, 1), Some(1), false);
    for change in [
        none,
        position_only,
        range2_only,
        attribute_without_position,
        deletion_with_position,
        all_three,
    ] {
        assert_eq!(try_apply_changes(text, text, vec![change]), None);
    }
}

#[test]
fn changes_outside_the_texts_are_turned_down() {
    assert_eq!(try_apply_changes("abc", "xyz", vec![deletion(span(2, 4))]), None);
    assert_eq!(try_apply_changes("abc", "xyz", vec![deletion(span(2, 1))]), None);
    assert_eq!(try_apply_changes("abc", "xyz", vec![replacement(span(0, 1), span(3, 4))]), None);
    assert_eq!(try_apply_changes("abc", "xyz", vec![replacement(span(0, 1), span(2, 1))]), None);
    assert_eq!(try_apply_changes("abc", "xyz", vec![insertion(span(0, 1), 4)]), None);
    assert_eq!(
        try_apply_changes("abc", "xyz", vec![insertion(span(0, 1), 3)]),
        Some("abcx".to_string())
    );
}

#[test]
fn changes_that_split_a_character_are_turned_down() {
    let wide = "a\u{e9}b";
    assert_eq!(try_apply_changes(wide, "x", vec![deletion(span(1, 2))]), None);
    assert_eq!(try_apply_changes(wide, "x", vec![deletion(span(2, 3))]), None);
    assert_eq!(try_apply_changes(wide, "x", vec![insertion(span(0, 1), 2)]), None);
    assert_eq!(try_apply_changes("abc", wide, vec![replacement(span(0, 1), span(0, 2))]), None);
    assert_eq!(try_apply_changes(wide, "x", vec![deletion(span(1, 3))]), Some("ab".to_string()));
}

#[test]
fn attribute_without_a_closing_bracket_is_turned_down() {
    assert_eq!(try_apply_changes("<a", "k", vec![attribute(span(0, 1), 0)]), None);
    assert_eq!(try_apply_changes("<a>b", "k", vec![attribute(span(0, 1), 3)]), None);
    assert_eq!(try_apply_changes("<a>", "k", vec![attribute(span(0, 1), 9)]), None);
    assert_eq!(
        try_apply_changes("<a>", "k", vec![attribute(span(0, 1), 2)]),
        Some("<a k>".to_string())
    );
}

#[test]
fn overlapping_changes_are_turned_down() {
    let text = "0123456789";
    assert_eq!(try_apply_changes(text, "", vec![deletion(span(2, 5)), deletion(span(4, 7))]), None);
    assert_eq!(try_apply_changes(text, "", vec![deletion(span(2, 8)), deletion(span(4, 6))]), None);
    assert_eq!(try_apply_changes(text, "", vec![deletion(span(2, 5)), deletion(span(2, 3))]), None);
    assert_eq!(
        try_apply_changes(text, "x", vec![deletion(span(2, 5)), insertion(span(0, 1), 3)]),
        None
    );
    assert_eq!(
        try_apply_changes(text, "", vec![deletion(span(2, 5)), deletion(span(5, 7))]),
        Some("01789".to_string())
    );
}

#[test]
fn try_apply_agrees_with_apply() {
    let text1 = "<a><b>text</b></a>";
    let changes = vec![deletion(span(3, 14))];
    assert_eq!(
        try_apply_changes(text1, "<a></a>", changes.clone()),
        Some(apply_changes(text1, "<a></a>", changes))
    );
}
