use split_paragraphs::SplitParagraphs;

/// The paragraphs of `text` as byte ranges, computed with the line splitting
/// and the trimming of the standard library.
fn expected(text: &str) -> Vec<(usize, usize)> {
    let mut found = Vec::new();
    let mut open: Option<(usize, usize)> = None;
    let mut at = 0;
    for piece in text.split_inclusive('\n') {
        let line = match piece.strip_suffix('\n') {
            Some(rest) => rest.strip_suffix('\r').unwrap_or(rest),
            None => piece,
        };
        if line.trim().is_empty() {
            if let Some(span) = open.take() {
                found.push(span);
            }
        } else {
            let start = match open {
                Some((start, _)) => start,
                None => at,
            };
            open = Some((start, at + line.len()));
        }
        at += piece.len();
    }
    if let Some(span) = open {
        found.push(span);
    }
    found
}

fn forward(text: &str) -> Vec<&str> {
    let mut paragraphs = text.paragraphs();
    let mut found = Vec::new();
    while let Some(paragraph) = paragraphs.next() {
        found.push(paragraph);
    }
    found
}

fn backward(text: &str) -> Vec<&str> {
    let mut paragraphs = text.paragraphs();
    let mut found = Vec::new();
    while let Some(paragraph) = paragraphs.next_back() {
        found.push(paragraph);
    }
    found
}

/// Every text of up to `length` characters over `alphabet`.
fn texts(alphabet: &[char], length: usize) -> Vec<String> {
    let mut all = vec![String::new()];
    let mut last = vec![String::new()];
    for _ in 0..length {
        let mut longer = Vec::new();
        for text in &last {
            for c in alphabet {
                let mut next = text.clone();
                next.push(*c);
                longer.push(next);
            }
        }
        all.extend(longer.iter().cloned());
        last = longer;
    }
    all
}

const ALPHABET: [char; 6] = ['a', ' ', '\n', '\r', '\u{2003}', 'é'];

#[test]
fn agrees_with_the_lines_of_the_standard_library() {
    for text in texts(&ALPHABET, 6) {
        let wanted: Vec<&str> = expected(&text).iter().map(|&(start, end)| &text[start..end]).collect();
        assert_eq!(forward(&text), wanted, "{:?}", text);
    }
}

#[test]
fn backward_is_forward_reversed() {
    for text in texts(&ALPHABET, 6) {
        let mut reversed = backward(&text);
        reversed.reverse();
        assert_eq!(forward(&text), reversed, "{:?}", text);
    }
}

#[test]
fn every_interleaving_gives_the_forward_sequence() {
    for text in texts(&['a', ' ', '\n', '\r'], 7) {
        let all = forward(&text);
        for mask in 0..1u32 << all.len() {
            let mut paragraphs = text.paragraphs();
            let mut fronts = Vec::new();
            let mut backs = Vec::new();
            for step in 0..all.len() {
                if mask & (1 << step) != 0 {
                    fronts.push(paragraphs.next().unwrap());
                } else {
                    backs.push(paragraphs.next_back().unwrap());
                }
            }
            assert_eq!(paragraphs.next(), None);
            assert_eq!(paragraphs.next_back(), None);
            backs.reverse();
            fronts.extend(backs);
            assert_eq!(fronts, all, "{:?} with {:b}", text, mask);
        }
    }
}

#[test]
fn no_paragraph_is_blank_or_holds_a_blank_line() {
    for text in texts(&ALPHABET, 6) {
        for paragraph in forward(&text) {
            assert!(!paragraph.is_empty());
            assert!(!paragraph.trim().is_empty());
            assert!(paragraph.lines().count() > 0);
            for line in paragraph.lines() {
                assert!(!line.trim().is_empty(), "{:?} in {:?}", paragraph, text);
            }
            // Taken alone, a paragraph is one paragraph: itself.
            assert_eq!(forward(paragraph), vec![paragraph]);
        }
    }
}

#[test]
fn gaps_and_paragraphs_make_up_the_text() {
    for text in texts(&ALPHABET, 6) {
        let spans = expected(&text);
        let found = forward(&text);
        assert_eq!(found.len(), spans.len());
        let mut rebuilt = String::new();
        let mut at = 0;
        for (paragraph, &(start, end)) in found.iter().zip(spans.iter()) {
            let gap = &text[at..start];
            assert!(gap.lines().all(|line| line.trim().is_empty()), "{:?}", text);
            assert!(at == 0 || !gap.is_empty());
            assert_eq!(forward(gap), Vec::<&str>::new());
            rebuilt.push_str(gap);
            rebuilt.push_str(paragraph);
            at = end;
        }
        let gap = &text[at..];
        assert!(gap.lines().all(|line| line.trim().is_empty()), "{:?}", text);
        rebuilt.push_str(gap);
        assert_eq!(rebuilt, text);
    }
}

#[test]
fn white_space_is_what_the_standard_library_calls_so() {
    let mut count = 0;
    for code in 0..=0x10FFFFu32 {
        if let Some(c) = char::from_u32(code) {
            let mut buffer = [0u8; 4];
            let text: &str = c.encode_utf8(&mut buffer);
            let blank = text.paragraphs().next().is_none();
            assert_eq!(blank, c.is_whitespace(), "U+{:04X}", code);
            if blank {
                count += 1;
            }
        }
    }
    assert_eq!(count, 25);
}

#[test]
fn size_hint_is_never_too_small() {
    for text in texts(&ALPHABET, 6) {
        let mut paragraphs = text.paragraphs();
        let mut left = forward(&text).len();
        loop {
            let (lower, upper) = paragraphs.size_hint();
            assert_eq!(lower, 0);
            assert!(left <= upper.unwrap(), "{:?}", text);
            if paragraphs.next().is_none() {
                break;
            }
            left -= 1;
        }
    }
}
