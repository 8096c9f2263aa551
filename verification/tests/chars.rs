use preproc::chars::{next_code_point, Chars};

#[test]
fn chars_come_one_at_a_time() {
    let mut chars = Chars::new("aß猴🦀");
    assert_eq!(chars.peek(), Some('a'));
    assert_eq!(chars.as_ptr(), 1);
    assert_eq!(chars.next(), Some('a'));
    assert_eq!(chars.peek(), Some('ß'));
    assert_eq!(chars.as_ptr(), 3);
    assert_eq!(chars.next(), Some('ß'));
    assert_eq!(chars.as_ptr(), 6);
    assert_eq!(chars.next(), Some('猴'));
    assert_eq!(chars.as_ptr(), 10);
    assert_eq!(chars.peek(), Some('🦀'));
    assert_eq!(chars.next(), Some('🦀'));
    assert_eq!(chars.peek(), None);
    assert_eq!(chars.next(), None);
    assert_eq!(chars.next(), None);
    assert_eq!(chars.as_ptr(), 10);
}

#[test]
fn chars_of_nothing() {
    let mut chars = Chars::new("");
    assert_eq!(chars.peek(), None);
    assert_eq!(chars.as_ptr(), 0);
    assert_eq!(chars.next(), None);
}

#[test]
fn chars_agree_with_std() {
    let text = "Будинок \u{7f}\u{80}\u{7ff}\u{800}\u{ffff}\u{10000}\u{10ffff} end";
    let mut chars = Chars::new(text);
    let mut seen = String::new();
    loop {
        match chars.next() {
            Some(c) => seen.push(c),
            None => break,
        }
    }
    assert_eq!(seen, text);
}

#[test]
fn code_points_by_width() {
    assert_eq!(next_code_point("A".as_bytes(), 0), Some((0x41, 1)));
    assert_eq!(next_code_point("é".as_bytes(), 0), Some((0xe9, 2)));
    assert_eq!(next_code_point("x€".as_bytes(), 1), Some((0x20ac, 4)));
    assert_eq!(next_code_point("😀".as_bytes(), 0), Some((0x1f600, 4)));
    assert_eq!(next_code_point("ab".as_bytes(), 2), None);
}
