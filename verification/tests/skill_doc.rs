use histoire::db::SCHEMA_SQL;
use histoire::skill::{
    is_whitespace, render, replace_chars, trim_chars, SCHEMA_PLACEHOLDER, SKILL_TEMPLATE,
};

#[test]
fn template_contains_schema_placeholder() {
    assert!(SKILL_TEMPLATE.contains("{{SCHEMA_DDL}}"));
}

#[test]
fn render_substitutes_schema() {
    let out = render();
    assert!(!out.contains("{{SCHEMA_DDL}}"));
    assert!(out.contains("create table if not exists scans"));
    assert!(out.contains("create table if not exists lineage_edges"));
}

#[test]
fn render_matches_str_replace() {
    assert_eq!(render(), SKILL_TEMPLATE.replace(SCHEMA_PLACEHOLDER, SCHEMA_SQL.trim()));
}

fn chars(s: &str) -> Vec<char> {
    s.chars().collect()
}

#[test]
fn trim_chars_matches_str_trim() {
    for s in ["", "   ", " a ", "\t\nab c\u{3000}", "x", "\u{a0}y\u{2028}"] {
        let trimmed: String = trim_chars(&chars(s)).into_iter().collect();
        assert_eq!(trimmed, s.trim());
    }
}

#[test]
fn replace_chars_matches_str_replace() {
    let cases = [("aXbXc", "X", "--"), ("aaaa", "aa", "b"), ("", "x", "y"), ("xyz", "q", "r")];
    for (s, pattern, replacement) in cases {
        let out: String =
            replace_chars(&chars(s), &chars(pattern), &chars(replacement)).into_iter().collect();
        assert_eq!(out, s.replace(pattern, replacement), "{:?}", (s, pattern, replacement));
    }
}

#[test]
fn is_whitespace_matches_char_is_whitespace() {
    for c in ['\t', '\n', '\u{b}', '\r', ' ', '\u{85}', '\u{a0}', '\u{2003}', '\u{3000}', 'a', '_', '\u{200b}'] {
        assert_eq!(is_whitespace(c), c.is_whitespace(), "{:?}", c);
    }
}
