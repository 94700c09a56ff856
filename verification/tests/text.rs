use astro_data_vault::text::{is_whitespace, nonblank_lines, trim};

#[test]
fn whitespace_matches_std_for_every_char() {
    for c in (0u32..=0x10FFFF).filter_map(char::from_u32) {
        assert_eq!(is_whitespace(c), c.is_whitespace(), "{:?}", c);
    }
}

#[test]
fn trim_matches_str_trim() {
    for s in ["", "   ", "abc", "  a b  ", "\u{3000}x\u{85}", "\r\nline\r", "\u{200b}x\u{200b}", "é "] {
        assert_eq!(trim(s), s.trim());
    }
}

#[test]
fn trim_is_idempotent() {
    for s in ["  a b  ", "\t\n", "x"] {
        let once = trim(s);
        assert_eq!(trim(&once), once);
    }
}

#[test]
fn nonblank_lines_matches_lines_trimmed() {
    for s in ["", "a", "a\nb", "a\r\nb\r\n", "\n\n  x \n\t\ny", "a\rb\n", " \n ", "é\nü\r\n"] {
        let expected: Vec<String> = s
            .lines()
            .map(|l| l.trim().to_string())
            .filter(|l| !l.is_empty())
            .collect();
        assert_eq!(nonblank_lines(s), expected, "{:?}", s);
    }
}
