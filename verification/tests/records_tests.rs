use layout_optimizer::records::{parse_bigram_line, parse_key_line, parse_letter_line, LineError};

#[test]
fn letter_lines() {
    let (c, f) = parse_letter_line("e 0.1021").ok().unwrap();
    assert_eq!((c, f.as_str()), ('e', "0.1021"));
    let (c, f) = parse_letter_line("  \u{e4}\t3e-4  extra").ok().unwrap();
    assert_eq!((c, f.as_str()), ('\u{e4}', "3e-4"));
    // the first character of a longer word
    let (c, _) = parse_letter_line("xy 1").ok().unwrap();
    assert_eq!(c, 'x');
    assert!(matches!(parse_letter_line(""), Err(LineError::MissingWord(0))));
    assert!(matches!(parse_letter_line("   "), Err(LineError::MissingWord(0))));
    assert!(matches!(parse_letter_line("e"), Err(LineError::MissingWord(1))));
}

#[test]
fn non_breaking_space_separates_words() {
    let (c, f) = parse_letter_line("a\u{a0}0.5").ok().unwrap();
    assert_eq!((c, f.as_str()), ('a', "0.5"));
}

#[test]
fn bigram_lines() {
    let ((a, b), f) = parse_bigram_line("th 0.027").ok().unwrap();
    assert_eq!((a, b, f.as_str()), ('t', 'h', "0.027"));
    assert!(matches!(parse_bigram_line("t 0.1"), Err(LineError::ShortWord(0))));
    assert!(matches!(parse_bigram_line("th"), Err(LineError::MissingWord(1))));
    assert!(matches!(parse_bigram_line(""), Err(LineError::MissingWord(0))));
}

#[test]
fn key_lines() {
    let k = parse_key_line("AD01 0.5 1 -4 2.5").ok().unwrap().unwrap();
    assert_eq!(k.name, "AD01");
    assert_eq!(k.x, "0.5");
    assert_eq!(k.y, "1");
    assert_eq!(k.finger, -4);
    assert_eq!(k.effort, "2.5");
    let k = parse_key_line("AC05 3 2 +3 1 comment").ok().unwrap().unwrap();
    assert_eq!(k.finger, 3);
}

#[test]
fn key_comments() {
    assert!(parse_key_line("# name x y finger effort").ok().unwrap().is_none());
    assert!(parse_key_line("#").ok().unwrap().is_none());
    // a comment sign later on the line does not make a comment
    assert!(matches!(parse_key_line(" # a"), Err(LineError::MissingWord(2))));
}

#[test]
fn key_line_errors() {
    assert!(matches!(parse_key_line(""), Err(LineError::MissingWord(0))));
    assert!(matches!(parse_key_line("AD01"), Err(LineError::MissingWord(1))));
    assert!(matches!(parse_key_line("AD01 1"), Err(LineError::MissingWord(2))));
    assert!(matches!(parse_key_line("AD01 1 2"), Err(LineError::MissingWord(3))));
    assert!(matches!(parse_key_line("AD01 1 2 3"), Err(LineError::MissingWord(4))));
    assert!(matches!(parse_key_line("AD01 1 2 x 1"), Err(LineError::BadNumber(3))));
    assert!(matches!(parse_key_line("AD01 1 2 128 1"), Err(LineError::BadNumber(3))));
    assert!(matches!(parse_key_line("AD01 1 2 - 1"), Err(LineError::BadNumber(3))));
    assert!(matches!(parse_key_line("AD01 1 2 1.5 1"), Err(LineError::BadNumber(3))));
}

#[test]
fn finger_numbers_match_std() {
    for text in ["-128", "127", "-129", "128", "+0", "-0", "007", "0000000000000000000000000000000000001", "+", "-", "++1", "1-", "99999999999999999999"] {
        let line = format!("K 0 0 {} 1", text);
        let ours = parse_key_line(&line).ok().map(|k| k.unwrap().finger);
        let std = text.parse::<i8>().ok();
        assert_eq!(ours, std, "finger {}", text);
    }
}
