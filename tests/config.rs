use libnormalize::config::{build_chain, build_translator, getchar, RuleRecord};
use libnormalize::translators::{translate_text, ConfigError, Field};

fn range(source: &str, target: &str, size: i64) -> RuleRecord {
    RuleRecord::Range { source: source.to_string(), target: target.to_string(), size }
}

#[test]
fn getchar_single_character() {
    assert_eq!(getchar("a"), Some('a'));
    assert_eq!(getchar("𝐀"), Some('𝐀'));
}

#[test]
fn getchar_escape() {
    assert_eq!(getchar("\\u{1D400}"), Some('\u{1D400}'));
    assert_eq!(getchar("\\u{41}"), Some('A'));
    assert_eq!(getchar("\\u{0000006a}"), Some('j'));
    assert_eq!(getchar("x\\u{62}y"), Some('b'));
}

#[test]
fn getchar_first_escape_decides() {
    assert_eq!(getchar("\\u{61}\\u{62}"), Some('a'));
    assert_eq!(getchar("\\u{123456789}\\u{63}"), Some('c'));
}

#[test]
fn getchar_rejects_non_literals() {
    assert_eq!(getchar(""), None);
    assert_eq!(getchar("ab"), None);
    assert_eq!(getchar("\\u{}"), None);
    assert_eq!(getchar("\\u{12g}"), None);
}

#[test]
fn getchar_rejects_non_scalars() {
    assert_eq!(getchar("\\u{D800}"), None);
    assert_eq!(getchar("\\u{110000}"), None);
    assert_eq!(getchar("\\u{FFFFFFFF}"), None);
}

#[test]
fn record_range_builds() {
    let t = build_translator(&range("a", "\\u{41}", 26)).unwrap();
    assert_eq!(t.apply('b' as u32), Some('B' as u32));
}

#[test]
fn record_bad_char_fails() {
    let r = build_translator(&range("ab", "A", 26));
    assert!(matches!(r, Err(ConfigError::InvalidChar { field: Field::Source })));
    let r = build_translator(&range("a", "", 26));
    assert!(matches!(r, Err(ConfigError::InvalidChar { field: Field::Target })));
}

#[test]
fn record_negative_size_fails() {
    let r = build_translator(&range("a", "A", -1));
    assert!(matches!(r, Err(ConfigError::IntOutOfRange { field: Field::Size, value: -1 })));
    let r = build_translator(&range("a", "A", 1 << 32));
    assert!(matches!(r, Err(ConfigError::IntOutOfRange { field: Field::Size, value: 4294967296 })));
}

#[test]
fn record_multirange_builds() {
    let rec = RuleRecord::Multirange {
        source: "\\u{1D41A}".to_string(),
        target: "a".to_string(),
        size: 26,
        slice: 52,
        iters: 5,
    };
    let t = build_translator(&rec).unwrap();
    assert_eq!(t.apply(0x1D41A), Some('a' as u32));
    assert_eq!(t.apply(0x1D400), None);
}

#[test]
fn record_multirange_bad_iters() {
    let rec = RuleRecord::Multirange {
        source: "a".to_string(),
        target: "A".to_string(),
        size: 1,
        slice: 1,
        iters: -3,
    };
    let r = build_translator(&rec);
    assert!(matches!(r, Err(ConfigError::IntOutOfRange { field: Field::Iters, value: -3 })));
}

#[test]
fn record_lookup_mismatch() {
    let rec = RuleRecord::Lookup { source: "ab".to_string(), target: "a".to_string() };
    let r = build_translator(&rec);
    assert!(matches!(r, Err(ConfigError::LengthMismatch { source_len: 2, target_len: 1 })));
}

#[test]
fn chain_from_records() {
    let records = vec![range("a", "A", 26), range("A", "a", 26)];
    let chain = build_chain(false, &records).unwrap();
    assert_eq!(chain.len(), 2);
    let input: Vec<char> = "Hello, World!".chars().collect();
    let out: String = translate_text(&input, &chain).into_iter().collect();
    assert_eq!(out, "hELLO, wORLD!");
}

#[test]
fn chain_from_records_with_filter() {
    let records = vec![range("a", "A", 26)];
    let chain = build_chain(true, &records).unwrap();
    assert_eq!(chain.len(), 2);
    let input: Vec<char> = "Hello".chars().collect();
    let out: String = translate_text(&input, &chain).into_iter().collect();
    assert_eq!(out, "Hello");
}

#[test]
fn chain_reports_first_bad_record() {
    let records = vec![range("a", "A", 26), range("a", "A", 0), range("", "A", 1)];
    let err = build_chain(false, &records).err().unwrap();
    assert_eq!(err.index, 1);
    assert_eq!(err.error, ConfigError::ZeroSize);
}
