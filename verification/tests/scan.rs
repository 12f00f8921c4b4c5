use parcad::scan::{replace, split_lines, squeeze, trim, trim_end_matches, trim_start_matches};

fn chars(s: &str) -> Vec<char> {
    s.chars().collect()
}

fn text(cs: &[char]) -> String {
    cs.iter().collect()
}

#[test]
fn lines_split_as_str_lines_does() {
    for source in ["", "a", "a\n", "a\r\nb", "a\n\nb\n", "\r\n", "x\ry\n", "a\r"] {
        let got: Vec<String> = split_lines(&chars(source)).iter().map(|l| text(l)).collect();
        let want: Vec<String> = source.lines().map(|l| l.to_string()).collect();
        assert_eq!(got, want, "{source:?}");
    }
}

#[test]
fn trims_and_replacements_match_str() {
    for s in ["  a b  ", "\t\n", "", "x", " \u{3000}y\u{a0} "] {
        assert_eq!(text(&trim(&chars(s))), s.trim(), "{s:?}");
        let words: Vec<&str> = s.split_whitespace().collect();
        assert_eq!(text(&squeeze(&chars(s))), words.join(" "), "{s:?}");
    }
    assert_eq!(text(&trim_start_matches(&chars("ababc"), &chars("ab"))), "ababc".trim_start_matches("ab"));
    assert_eq!(text(&trim_end_matches(&chars("x*/*/"), &chars("*/"))), "x*/*/".trim_end_matches("*/"));
    assert_eq!(text(&replace(&chars("f( a, b, )"), &chars(", )"), &chars(")"))), "f( a, b)");
    assert_eq!(text(&replace(&chars("aaa"), &chars("aa"), &chars("b"))), "aaa".replace("aa", "b"));
}
