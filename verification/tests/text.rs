use spsa_tui::text::{isize_text, parse_isize, parse_usize, trim_chars, usize_text};

fn chars(s: &str) -> Vec<char> {
    s.chars().collect()
}

#[test]
fn parse_isize_follows_std() {
    for s in ["0", "+7", "-7", "007", "-9223372036854775808", "9223372036854775807"] {
        assert_eq!(parse_isize(&chars(s)), s.parse::<isize>().ok(), "{s}");
    }
    for s in ["", "+", "-", "1a", " 1", "9223372036854775808", "-9223372036854775809", "--1"] {
        assert_eq!(parse_isize(&chars(s)), None, "{s}");
    }
}

#[test]
fn parse_usize_follows_std() {
    for s in ["0", "+15", "18446744073709551615", "", "-1", "18446744073709551616", "+"] {
        assert_eq!(parse_usize(&chars(s)), s.parse::<usize>().ok(), "{s}");
    }
}

#[test]
fn trim_removes_unicode_white_space() {
    let t = trim_chars(&chars("\u{3000}\t a b \u{a0}\n"));
    assert_eq!(t, chars("a b"));
}

#[test]
fn integers_are_written_in_decimal() {
    assert_eq!(usize_text(0), "0");
    assert_eq!(usize_text(1907), "1907");
    assert_eq!(isize_text(-45), "-45");
    assert_eq!(isize_text(isize::MIN), isize::MIN.to_string());
}
