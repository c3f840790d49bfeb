use split_paragraphs::{Paragraphs, SplitParagraphs};

fn forward(text: &str) -> Vec<&str> {
    let mut paragraphs = text.paragraphs();
    let mut found = Vec::new();
    while let Some(paragraph) = paragraphs.next() {
        found.push(paragraph);
    }
    found
}

fn backward(text: &str) -> Vec<&str> {
    let mut paragraphs = text.paragraphs();
    let mut found = Vec::new();
    while let Some(paragraph) = paragraphs.next_back() {
        found.push(paragraph);
    }
    found
}

#[test]
fn crlf_inside_and_lone_cr_at_the_end() {
    assert_eq!(forward("foo\r\nbar\n\nbaz\r"), vec!["foo\r\nbar", "baz\r"]);
    assert_eq!(backward("foo\r\nbar\n\nbaz\r"), vec!["baz\r", "foo\r\nbar"]);
}

#[test]
fn leading_blank_lines_and_no_final_terminator() {
    assert_eq!(forward("\n\n\nfoo\nbar\n\r\nbaz"), vec!["foo\nbar", "baz"]);
    assert_eq!(backward("\n\n\nfoo\nbar\n\r\nbaz"), vec!["baz", "foo\nbar"]);
}

#[test]
fn single_line() {
    assert_eq!(forward("Hello world"), vec!["Hello world"]);
    assert_eq!(backward("Hello world"), vec!["Hello world"]);
}

#[test]
fn single_line_with_terminator() {
    assert_eq!(forward("Hello world\n"), vec!["Hello world"]);
    assert_eq!(backward("Hello world\n"), vec!["Hello world"]);
    assert_eq!(forward("Hello world\r\n"), vec!["Hello world"]);
    assert_eq!(backward("Hello world\r\n"), vec!["Hello world"]);
}

#[test]
fn empty_text_has_no_paragraph() {
    let mut paragraphs = "".paragraphs();
    assert_eq!(paragraphs.next(), None);
    assert_eq!(paragraphs.next_back(), None);
    assert_eq!(paragraphs.next(), None);
}

#[test]
fn blank_lines_alone_have_no_paragraph() {
    assert_eq!(forward("\n \n\t\n"), Vec::<&str>::new());
    assert_eq!(backward("\n \n\t\n"), Vec::<&str>::new());
    assert_eq!(forward("\r\n\r\n"), Vec::<&str>::new());
    assert_eq!(forward(" "), Vec::<&str>::new());
    assert_eq!(forward("\n"), Vec::<&str>::new());
    assert_eq!(backward("\r"), Vec::<&str>::new());
}

#[test]
fn one_from_the_front_then_two_from_the_back() {
    let mut paragraphs = "A\n\nB\n\nC".paragraphs();
    assert_eq!(paragraphs.next(), Some("A"));
    assert_eq!(paragraphs.next_back(), Some("C"));
    assert_eq!(paragraphs.next_back(), Some("B"));
    assert_eq!(paragraphs.next(), None);
    assert_eq!(paragraphs.next_back(), None);
    assert_eq!(forward("A\n\nB\n\nC"), vec!["A", "B", "C"]);
}

#[test]
fn stays_exhausted() {
    let mut paragraphs = "one\n\ntwo\n".paragraphs();
    assert_eq!(paragraphs.next_back(), Some("two"));
    assert_eq!(paragraphs.next(), Some("one"));
    for _ in 0..4 {
        assert_eq!(paragraphs.next(), None);
        assert_eq!(paragraphs.next_back(), None);
    }
    assert_eq!(paragraphs.size_hint(), (0, Some(1)));
}

#[test]
fn carriage_return_without_line_feed_is_content() {
    assert_eq!(forward("a\rb"), vec!["a\rb"]);
    assert_eq!(forward("a\r\rb\n\nc"), vec!["a\r\rb", "c"]);
    // Only the carriage return next to the line feed belongs to the terminator.
    assert_eq!(forward("a\r\r\n\nb"), vec!["a\r", "b"]);
    assert_eq!(backward("a\r\r\n\nb"), vec!["b", "a\r"]);
    // A line of carriage returns is blank.
    assert_eq!(forward("a\n\r\r\nb"), vec!["a", "b"]);
    assert_eq!(backward("a\n\r\r\nb"), vec!["b", "a"]);
}

#[test]
fn terminators_inside_a_paragraph_are_kept() {
    assert_eq!(forward("a\r\nb\nc\r\n"), vec!["a\r\nb\nc"]);
    assert_eq!(backward("a\r\nb\nc\r\n"), vec!["a\r\nb\nc"]);
    assert_eq!(forward("  a  \n  b  \n"), vec!["  a  \n  b  "]);
}

#[test]
fn characters_of_several_bytes() {
    assert_eq!(forward("é\n\nü"), vec!["é", "ü"]);
    assert_eq!(forward("\u{20AC}\n\u{3000}\n\u{1F600}"), vec!["\u{20AC}", "\u{1F600}"]);
    assert_eq!(backward("\u{20AC}\n\u{3000}\n\u{1F600}"), vec!["\u{1F600}", "\u{20AC}"]);
    // White space before a character that is none does not make the line blank.
    assert_eq!(forward("\u{2003}\u{00A0}x\n\u{2003}\u{00A0}\ny"), vec!["\u{2003}\u{00A0}x", "y"]);
}

#[test]
fn characters_that_only_look_like_white_space() {
    // Zero width space, Mongolian vowel separator, word joiner, byte order mark.
    for c in ['\u{200B}', '\u{180E}', '\u{2060}', '\u{FEFF}', '\u{0000}', '\u{001F}', '\u{0084}'] {
        let text = format!("a\n{}\nb", c);
        let whole = format!("a\n{}\nb", c);
        assert_eq!(forward(&text), vec![whole.as_str()]);
    }
}

#[test]
fn line_and_paragraph_separators_do_not_end_a_line() {
    assert_eq!(forward("a\u{2028}b\u{2029}c"), vec!["a\u{2028}b\u{2029}c"]);
    assert_eq!(forward("a\n\u{2028}\u{2029}\nb"), vec!["a", "b"]);
    assert_eq!(forward("a\u{000B}\u{000C}b"), vec!["a\u{000B}\u{000C}b"]);
}

#[test]
fn size_hint_is_half_the_bytes_left_and_one() {
    assert_eq!("".paragraphs().size_hint(), (0, Some(1)));
    assert_eq!("A".paragraphs().size_hint(), (0, Some(1)));
    assert_eq!("A\n".paragraphs().size_hint(), (0, Some(2)));
    let mut paragraphs = "A\n\nB".paragraphs();
    assert_eq!(paragraphs.size_hint(), (0, Some(3)));
    assert_eq!(paragraphs.next(), Some("A"));
    assert_eq!(paragraphs.size_hint(), (0, Some(1)));
    assert_eq!(paragraphs.next_back(), Some("B"));
    assert_eq!(paragraphs.size_hint(), (0, Some(1)));
    let mut paragraphs = "A\n\nB\n\nC".paragraphs();
    assert_eq!(paragraphs.next_back(), Some("C"));
    assert_eq!(paragraphs.size_hint(), (0, Some(3)));
}

#[test]
fn size_hint_bounds_what_is_left() {
    let text = "a\n\nb\n\nc\n\nd";
    let mut paragraphs = text.paragraphs();
    let mut left = 4;
    loop {
        let (lower, upper) = paragraphs.size_hint();
        assert_eq!(lower, 0);
        assert!(left <= upper.unwrap());
        if paragraphs.next().is_none() {
            break;
        }
        left -= 1;
    }
    assert_eq!(left, 0);
}

#[test]
fn a_clone_goes_its_own_way() {
    let mut paragraphs: Paragraphs = "one\n\ntwo\n\nthree".paragraphs();
    assert_eq!(paragraphs.next(), Some("one"));
    let mut copy = paragraphs.clone();
    assert_eq!(copy.next_back(), Some("three"));
    assert_eq!(copy.next(), Some("two"));
    assert_eq!(copy.next(), None);
    assert_eq!(paragraphs.next(), Some("two"));
    assert_eq!(paragraphs.next(), Some("three"));
    assert_eq!(paragraphs.next(), None);
}

#[test]
fn paragraphs_are_slices_of_the_text() {
    let text = String::from("first\nline\n \nsecond");
    let found = forward(&text);
    assert_eq!(found, vec!["first\nline", "second"]);
    assert_eq!(&text[0..10], found[0]);
    assert_eq!(&text[13..19], found[1]);
}

#[test]
fn debug_output_names_the_type() {
    let paragraphs = "a".paragraphs();
    assert!(format!("{:?}", paragraphs).contains("Paragraphs"));
}
