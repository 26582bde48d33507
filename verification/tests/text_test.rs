use news_ticker::text::{contains_str, escape_json, is_whitespace, trim_str};

#[test]
fn whitespace_matches_std() {
    for c in (0u32..=0x10FFFF).filter_map(char::from_u32) {
        assert_eq!(is_whitespace(c), c.is_whitespace(), "{:?}", c);
    }
}

#[test]
fn trim_matches_std() {
    for s in ["", "  ", " a ", "\u{2003}x y\u{205f}", "\tab\n", "a", "\u{200b}a\u{200b}"] {
        assert_eq!(trim_str(s), s.trim());
    }
}

#[test]
fn contains_matches_std() {
    for (h, n) in [("abc", "b"), ("abc", ""), ("", ""), ("", "a"), ("abc", "abcd"), ("aab", "ab"), ("abc", "ac")] {
        assert_eq!(contains_str(h, n), h.contains(n), "{:?} {:?}", h, n);
    }
}

#[test]
fn escaped_text_has_no_raw_control_characters() {
    let all: String = (0u32..0x80).filter_map(char::from_u32).collect();
    let escaped = escape_json(&all);
    assert!(escaped.chars().all(|c| c >= ' '));
    assert_eq!(unescape(&escaped), all);
}

#[test]
fn escape_json_plain() {
    assert_eq!(escape_json("plain"), "plain");
    assert_eq!(escape_json("\"q\""), "\\\"q\\\"");
}

fn unescape(s: &str) -> String {
    let mut out = String::new();
    let mut chars = s.chars();
    while let Some(c) = chars.next() {
        if c == '\\' {
            match chars.next() {
                Some('n') => out.push('\n'),
                Some('r') => out.push('\r'),
                Some('t') => out.push('\t'),
                Some('u') => {
                    let hex: String = (0..4).filter_map(|_| chars.next()).collect();
                    out.push(char::from_u32(u32::from_str_radix(&hex, 16).unwrap()).unwrap());
                }
                Some(x) => out.push(x),
                None => out.push('\\'),
            }
        } else {
            out.push(c);
        }
    }
    out
}

#[test]
fn escape_reads_back() {
    for s in ["", "a\\b", "\"\"", "line\nbreak\r\ttab", "\\n literally", "é\\", "\u{0}\u{1}\u{1b}[0m\u{1f} "] {
        assert_eq!(unescape(&escape_json(s)), s);
    }
}

#[test]
fn trim_twice_is_trim_once() {
    for s in ["  a b  ", "\u{3000}x\u{3000}", "", " "] {
        let once = trim_str(s);
        assert_eq!(trim_str(&once), once);
    }
}
