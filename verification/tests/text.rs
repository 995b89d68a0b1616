use rktop::text::{
    begins_with, chars_of, find, finishes_with, last_position, lines_of, pieces_of, replace,
    second_piece_of, string_of, trimmed, trimmed_end_of, white, words_of,
};

fn samples() -> Vec<&'static str> {
    vec![
        "",
        " ",
        "a",
        "  a  b ",
        "\ta\u{a0}b\u{3000}",
        "one:two:three",
        ":x:",
        "::",
        "line\nnext\r\nlast",
        "\n",
        "\r\n\r\n",
        "a\rb\n",
        "end\r",
        "aaa",
        "aaaa",
        "abababab",
        "schräg ßtraße\u{2028}x",
        "temp1_input",
        "x_input_input",
    ]
}

fn strings(v: &Vec<Vec<char>>) -> Vec<String> {
    v.iter().map(|w| string_of(w)).collect()
}

#[test]
fn white_space_is_unicode_white_space() {
    for n in 0..=0x10ffffu32 {
        if let Some(c) = char::from_u32(n) {
            assert_eq!(white(c), c.is_whitespace(), "{:x}", n);
        }
    }
}

#[test]
fn trimming_takes_white_space_from_both_ends() {
    for s in samples() {
        let cs = chars_of(s);
        assert_eq!(string_of(&trimmed(&cs)), s.trim());
        assert_eq!(string_of(&trimmed_end_of(&cs, ':')), s.trim_end_matches(':'));
    }
}

#[test]
fn words_lie_between_white_space() {
    for s in samples() {
        let expected: Vec<&str> = s.split_whitespace().collect();
        assert_eq!(strings(&words_of(&chars_of(s))), expected);
    }
}

#[test]
fn lines_end_at_line_feeds() {
    for s in samples() {
        let expected: Vec<&str> = s.lines().collect();
        assert_eq!(strings(&lines_of(&chars_of(s))), expected);
    }
}

#[test]
fn pieces_lie_between_separators() {
    for s in samples() {
        let expected: Vec<&str> = s.split(':').collect();
        assert_eq!(strings(&pieces_of(&chars_of(s), ':')), expected);
        let second = second_piece_of(&chars_of(s), ':').map(|p| string_of(&p));
        assert_eq!(second.as_deref(), s.split(':').nth(1));
    }
}

#[test]
fn searches_find_the_first_place() {
    for s in samples() {
        for p in ["", "a", "aa", "ab", "_input", ":", "straße"] {
            let found = find(&chars_of(s), &chars_of(p));
            let expected = s.find(p).map(|at| s[..at].chars().count());
            assert_eq!(found, expected, "{:?} in {:?}", p, s);
            assert_eq!(begins_with(&chars_of(s), p), s.starts_with(p));
            assert_eq!(finishes_with(&chars_of(s), p), s.ends_with(p));
        }
        let last = last_position(&chars_of(s), 'a');
        assert_eq!(last, s.rfind('a').map(|at| s[..at].chars().count()));
    }
}

#[test]
fn replacement_goes_from_the_left() {
    for s in samples() {
        for (from, to) in [("a", ""), ("aa", "b"), ("ab", "abab"), ("_input", "_label"), ("\r", " ")] {
            assert_eq!(string_of(&replace(&chars_of(s), from, to)), s.replace(from, to));
        }
    }
}
