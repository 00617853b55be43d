use entity_rust::normalize::is_whitespace;
use entity_rust::{clean_split_text, split_on_commas, trim};

#[test]
fn clean_split_text_strips_lowercases_and_splits() {
    assert_eq!(clean_split_text("Ab'cdbcd, E[$fg"), vec!["abcdbcd", "efg"]);
}

#[test]
fn clean_split_text_of_empty_text_is_one_empty_token() {
    assert_eq!(clean_split_text(""), vec![""]);
}

#[test]
fn clean_split_text_of_punctuation_only_is_one_empty_token() {
    assert_eq!(clean_split_text("!!! --- ???"), vec![""]);
}

#[test]
fn clean_split_text_keeps_empty_tokens_between_commas() {
    assert_eq!(clean_split_text("a,,b"), vec!["a", "", "b"]);
    assert_eq!(clean_split_text(","), vec!["", ""]);
    assert_eq!(clean_split_text("a,"), vec!["a", ""]);
    assert_eq!(clean_split_text(", ,"), vec!["", "", ""]);
}

#[test]
fn clean_split_text_keeps_digits_and_underscores() {
    assert_eq!(clean_split_text("Jo_hn9 Doe-Smith"), vec!["jo_hn9doesmith"]);
}

#[test]
fn clean_split_text_removes_inner_white_space() {
    assert_eq!(
        clean_split_text("John  Ronald\tReuel Tolkien , C. S. Lewis"),
        vec!["johnronaldreueltolkien", "cslewis"]
    );
}

#[test]
fn clean_split_text_keeps_letters_outside_ascii() {
    assert_eq!(
        clean_split_text("J\u{00fc}rgen M\u{00dc}LLER, \u{00c9}mile Z\u{00f3}la!"),
        vec!["j\u{00fc}rgenm\u{00fc}ller", "\u{00e9}milez\u{00f3}la"]
    );
}

#[test]
fn clean_split_text_lowercases_greek() {
    assert_eq!(clean_split_text("\u{0391}\u{0392}\u{0393}"), vec!["\u{03b1}\u{03b2}\u{03b3}"]);
}

#[test]
fn split_on_commas_keeps_every_piece() {
    assert_eq!(split_on_commas("a, b"), vec!["a", " b"]);
    assert_eq!(split_on_commas(""), vec![""]);
    assert_eq!(split_on_commas(",,"), vec!["", "", ""]);
    assert_eq!(split_on_commas("no comma"), vec!["no comma"]);
    assert_eq!(split_on_commas("x,y,"), vec!["x", "y", ""]);
}

#[test]
fn split_on_commas_agrees_with_std_split() {
    for text in ["", ",", "a", "a,b", ",a,,b,", "\u{00e9},\u{4e2d}\u{6587},z"] {
        let expected: Vec<String> = text.split(',').map(|s| s.to_string()).collect();
        assert_eq!(split_on_commas(text), expected);
    }
}

#[test]
fn trim_removes_white_space_at_both_ends_only() {
    assert_eq!(trim("  a b \t\n"), "a b");
    assert_eq!(trim("ab"), "ab");
    assert_eq!(trim(""), "");
    assert_eq!(trim(" \t "), "");
    assert_eq!(trim("\u{00a0}x\u{2003}"), "x");
}

#[test]
fn trim_agrees_with_std_trim() {
    for text in ["", " ", "a", " a", "a ", " a b ", "\u{3000}\u{4e2d} \u{6587}\u{3000}", "\r\n"] {
        assert_eq!(trim(text), text.trim());
    }
}

#[test]
fn white_space_is_what_std_calls_white_space() {
    let mut count = 0;
    for code in 0..=0x10FFFFu32 {
        if let Some(c) = char::from_u32(code) {
            assert_eq!(is_whitespace(c), c.is_whitespace(), "U+{:04X}", code);
            if is_whitespace(c) {
                count += 1;
            }
        }
    }
    assert_eq!(count, 25);
}

#[test]
fn white_space_holds_the_common_blanks() {
    for c in [' ', '\t', '\n', '\r', '\u{00a0}', '\u{3000}', '\u{2028}'] {
        assert!(is_whitespace(c));
    }
    for c in ['a', '_', ',', '0', '\u{200b}', '\u{180e}', '\u{feff}'] {
        assert!(!is_whitespace(c));
    }
}
