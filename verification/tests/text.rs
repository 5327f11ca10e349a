use primeclue::text::{chars_of, split_chars, string_of, trim_chars, white};

fn chars(s: &str) -> Vec<char> {
    s.chars().collect()
}

fn split(s: &str, sep: &str) -> Vec<String> {
    split_chars(&chars(s), &chars(sep)).iter().map(|p| p.iter().collect()).collect()
}

fn trim(s: &str) -> String {
    trim_chars(&chars(s)).iter().collect()
}

#[test]
fn split_on_a_comma() {
    assert_eq!(split("a,b,,c", ","), vec!["a", "b", "", "c"]);
}

#[test]
fn split_without_a_separator_in_the_text() {
    assert_eq!(split("abc", ";"), vec!["abc"]);
    assert_eq!(split("", ","), vec![""]);
}

#[test]
fn split_on_a_longer_separator_goes_left_to_right() {
    assert_eq!(split("a::b:::c", "::"), vec!["a", "b", ":c"]);
    assert_eq!(split("::", "::"), vec!["", ""]);
    assert_eq!(split("aaaa", "aa"), vec!["", "", ""]);
}

#[test]
fn split_on_an_empty_separator_gives_every_character() {
    assert_eq!(split("ab", ""), vec!["", "a", "b", ""]);
    assert_eq!(split("", ""), vec!["", ""]);
}

#[test]
fn split_agrees_with_str_split() {
    for (s, sep) in [("1.0;2;;x;", ";"), ("a--b---c", "--"), ("héllo wörld", "ö"), ("xyz", "")] {
        let expected: Vec<String> = s.split(sep).map(|p| p.to_string()).collect();
        assert_eq!(split(s, sep), expected);
    }
}

#[test]
fn joining_the_pieces_gives_back_the_text() {
    for (s, sep) in [("a,b,,c,", ","), ("x--y----z", "--"), ("", ","), ("abc", "")] {
        assert_eq!(split(s, sep).join(sep), s);
    }
}

#[test]
fn no_piece_holds_the_separator() {
    for piece in split("a::b:::c::::", "::") {
        assert!(!piece.contains("::"));
    }
}

#[test]
fn trim_removes_unicode_whitespace_at_both_ends() {
    assert_eq!(trim("  a b \r"), "a b");
    assert_eq!(trim("\u{3000}\u{85}x\u{a0}\t"), "x");
    assert_eq!(trim(" \n "), "");
    assert_eq!(trim("y"), "y");
}

#[test]
fn trim_agrees_with_str_trim() {
    for s in ["\u{2000}q\u{200a}", "\u{1680}\u{202f}", " a\u{205f}b ", "\u{200b}z"] {
        assert_eq!(trim(s), s.trim());
    }
}

#[test]
fn trimming_twice_is_trimming_once() {
    let once = trim(" \t x y \u{2028}");
    assert_eq!(trim(&once), once);
}

#[test]
fn white_follows_char_is_whitespace() {
    for c in ['\t', '\n', '\u{b}', '\u{c}', '\r', ' ', '\u{85}', '\u{a0}', '\u{1680}', '\u{2000}', '\u{200a}', '\u{2028}', '\u{2029}', '\u{202f}', '\u{205f}', '\u{3000}', 'a', '\u{200b}', '\u{180e}', '0'] {
        assert_eq!(white(c), c.is_whitespace());
    }
}

#[test]
fn chars_and_strings_round_trip() {
    let v = chars_of("zażółć");
    assert_eq!(v, vec!['z', 'a', 'ż', 'ó', 'ł', 'ć']);
    assert_eq!(string_of(&v), "zażółć");
}
