use diamond_types::unicount::{
    bytes_to_chars, chars_to_bytes, consume_chars, count_chars, split_at_char,
};

fn std_chars_to_bytes(s: &str, char_pos: usize) -> usize {
    s.char_indices().nth(char_pos).map_or_else(|| s.len(), |(i, _)| i)
}

fn std_bytes_to_chars(s: &str, byte_pos: usize) -> usize {
    s[..byte_pos].chars().count()
}

const TRICKY_CHARS: &[&str] = &[
    "a", "b", "c", "1", "2", "3", " ", "\n", // ASCII
    "©", "¥", "½", // The Latin-1 suppliment (U+80 - U+ff)
    "Ύ", "Δ", "δ", "Ϡ", // Greek (U+0370 - U+03FF)
    "←", "↯", "↻", "⇈", // Arrows (U+2190 – U+21FF)
    "𐆐", "𐆔", "𐆘", "𐆚", // Ancient roman symbols (U+10190 – U+101CF)
];

fn check_matches(s: &str) {
    let char_len = s.chars().count();
    for i in 0..=char_len {
        let actual_bytes = std_chars_to_bytes(s, i);
        let ropey_bytes = chars_to_bytes(s, i);
        assert_eq!(ropey_bytes, actual_bytes);

        let std_chars = std_bytes_to_chars(s, actual_bytes);
        let ropey_chars = bytes_to_chars(s, actual_bytes);

        assert_eq!(std_chars, i);
        assert_eq!(ropey_chars, i);
    }
}

#[test]
fn str_pos_works() {
    check_matches("hi");
    check_matches("");
    for s in TRICKY_CHARS {
        check_matches(*s);
    }

    // And throw them all in a big string.
    let mut big_str = String::new();
    for s in TRICKY_CHARS {
        big_str.push_str(*s);
    }
    check_matches(big_str.as_str());
}

#[test]
fn test_split_at_char() {
    assert_eq!(split_at_char("", 0), ("", ""));
    assert_eq!(split_at_char("hi", 0), ("", "hi"));
    assert_eq!(split_at_char("hi", 1), ("h", "i"));
    assert_eq!(split_at_char("hi", 2), ("hi", ""));

    assert_eq!(split_at_char("日本語", 0), ("", "日本語"));
    assert_eq!(split_at_char("日本語", 1), ("日", "本語"));
    assert_eq!(split_at_char("日本語", 2), ("日本", "語"));
    assert_eq!(split_at_char("日本語", 3), ("日本語", ""));
}

#[test]
fn split_past_the_end_keeps_everything() {
    assert_eq!(split_at_char("hi", 3), ("hi", ""));
    assert_eq!(split_at_char("日本語", 100), ("日本語", ""));
    assert_eq!(chars_to_bytes("日本語", 100), 9);
    assert_eq!(chars_to_bytes("", 1), 0);
}

#[test]
fn consume_chars_advances_the_text() {
    let mut text = "日本語 text";
    assert_eq!(consume_chars(&mut text, 2), "日本");
    assert_eq!(text, "語 text");
    assert_eq!(consume_chars(&mut text, 0), "");
    assert_eq!(text, "語 text");
    assert_eq!(consume_chars(&mut text, 100), "語 text");
    assert_eq!(text, "");
}

#[test]
fn byte_and_char_offsets() {
    assert_eq!(chars_to_bytes("a©←𐆐", 0), 0);
    assert_eq!(chars_to_bytes("a©←𐆐", 1), 1);
    assert_eq!(chars_to_bytes("a©←𐆐", 2), 3);
    assert_eq!(chars_to_bytes("a©←𐆐", 3), 6);
    assert_eq!(chars_to_bytes("a©←𐆐", 4), 10);
    // A byte inside a char belongs to that char.
    assert_eq!(bytes_to_chars("a©←𐆐", 2), 1);
    assert_eq!(bytes_to_chars("a©←𐆐", 5), 2);
    assert_eq!(bytes_to_chars("a©←𐆐", 9), 3);
    assert_eq!(bytes_to_chars("a©←𐆐", 10), 4);
    assert_eq!(bytes_to_chars("a©←𐆐", 50), 4);
    assert_eq!(count_chars("a©←𐆐"), 4);
    assert_eq!(count_chars(""), 0);
}
