use zfs_stats::size::{parse_size_string, ParseError};
use zfs_stats::text::{to_chars, trim};

fn white_space(c: char) -> bool {
    matches!(
        c,
        '\u{9}'..='\u{d}'
            | ' '
            | '\u{85}'
            | '\u{a0}'
            | '\u{1680}'
            | '\u{2000}'..='\u{200a}'
            | '\u{2028}'
            | '\u{2029}'
            | '\u{202f}'
            | '\u{205f}'
            | '\u{3000}'
    )
}

#[test]
fn every_character_is_trimmed_or_kept() {
    let mut trimmed = 0;
    for code in 0..=0x10ffffu32 {
        let Some(c) = char::from_u32(code) else { continue };
        let kept = trim(&[c, 'x', c]);
        if white_space(c) {
            assert_eq!(kept, vec!['x'], "{:x}", code);
            trimmed += 1;
        } else {
            assert_eq!(kept, vec![c, 'x', c], "{:x}", code);
        }
    }
    assert_eq!(trimmed, 25);
}

#[test]
fn trimming_stops_at_the_first_other_character() {
    assert_eq!(trim(&to_chars(" \t a b \n ")), to_chars("a b"));
    assert_eq!(trim(&to_chars("\u{2003}\u{a0}")), Vec::<char>::new());
    assert_eq!(trim(&to_chars("")), Vec::<char>::new());
    assert_eq!(trim(&to_chars("\u{200b}a\u{200b}")), to_chars("\u{200b}a\u{200b}"));
}

#[test]
fn ascii_letters_are_the_only_ascii_suffixes() {
    for code in 0..0x80u8 {
        let c = char::from(code);
        let result = parse_size_string(&format!("5{}", c));
        if "KMGTPEB".contains(c) {
            assert!(result.is_ok(), "{:x}", code);
        } else if c.is_ascii_alphabetic() {
            assert_eq!(result, Err(ParseError::UnknownSuffix), "{:x}", code);
        } else if c.is_ascii_digit() || c == '.' || white_space(c) {
            assert!(result.is_ok(), "{:x}", code);
        } else {
            assert_eq!(result, Err(ParseError::InvalidNumber), "{:x}", code);
        }
    }
}

#[test]
fn letters_beyond_ascii_are_suffixes_too() {
    for c in ['\u{e9}', '\u{3a9}', '\u{4eac}', '\u{aa}', '\u{2160}'] {
        assert_eq!(parse_size_string(&format!("5{}", c)), Err(ParseError::UnknownSuffix));
        assert_eq!(parse_size_string(&format!("x{}", c)), Err(ParseError::InvalidNumber));
    }
    for c in ['\u{20ac}', '\u{1f600}', '\u{663}', '\u{200b}', '\u{d7}'] {
        assert_eq!(parse_size_string(&format!("5{}", c)), Err(ParseError::InvalidNumber));
    }
}
