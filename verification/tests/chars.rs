use rect_packer::chars::Chars;

#[test]
fn iter() {
    let mut chars = Chars::from("abcd");
    assert_eq!(chars.head(), Some('a'));
    assert_eq!(chars.next(), Some('a'));
    assert_eq!(chars.head(), Some('b'));
    assert_eq!(chars.next(), Some('b'));
    assert_eq!(chars.head(), Some('c'));
}

#[test]
fn chars_reach_the_end_and_stay_there() {
    let mut chars = Chars::from("ab");
    assert_eq!(chars.next(), Some('a'));
    assert_eq!(chars.next(), Some('b'));
    assert_eq!(chars.head(), None);
    assert_eq!(chars.offset_from_source_str(), 2);
    assert_eq!(chars.next(), None);
    assert_eq!(chars.next(), None);
    assert_eq!(chars.head(), None);
    assert_eq!(chars.offset_from_source_str(), 2);
    assert_eq!(chars.tail(), "");
}

#[test]
fn chars_of_nothing() {
    let mut chars = Chars::from("");
    assert_eq!(chars.head(), None);
    assert_eq!(chars.next(), None);
    assert_eq!(chars.source(), "");
    assert_eq!(chars.tail(), "");
    assert_eq!(chars.offset_from_source_str(), 0);
}

#[test]
fn chars_tail_follows_the_head() {
    let mut chars = Chars::from("abcd");
    assert_eq!(chars.tail(), "bcd");
    chars.next();
    assert_eq!(chars.tail(), "cd");
    assert_eq!(chars.source(), "abcd");
}

#[test]
fn chars_offsets_count_bytes() {
    // one, two, three and four bytes
    let text = "a\u{e9}\u{20ac}\u{1f600}z";
    let mut chars = Chars::from(text);
    let mut offsets = Vec::new();
    let mut seen = Vec::new();
    while let Some(c) = chars.head() {
        offsets.push(chars.offset_from_source_str());
        seen.push(c);
        chars.next();
    }
    assert_eq!(seen, vec!['a', '\u{e9}', '\u{20ac}', '\u{1f600}', 'z']);
    assert_eq!(offsets, vec![0, 1, 3, 6, 10]);
    assert_eq!(chars.offset_from_source_str(), 11);
}

#[test]
fn chars_sub_str_from_cursor() {
    let text = "let \u{e9}t\u{e9} = 1";
    let mut chars = Chars::from(text);
    for _ in 0..4 {
        chars.next();
    }
    let start = chars.cursor();
    assert_eq!(chars.sub_str_from_cursor(start), "");
    while chars.head() != Some(' ') {
        chars.next();
    }
    assert_eq!(chars.sub_str_from_cursor(start), "\u{e9}t\u{e9}");
    while chars.next().is_some() {}
    assert_eq!(chars.sub_str_from_cursor(start), "\u{e9}t\u{e9} = 1");
    let all = Chars::from(text).cursor();
    assert_eq!(chars.sub_str_from_cursor(all), text);
}
