use libnormalize::translators::{
    ascii_filter, lookup_translation, multirange_translation, range_translation, translate,
    translate_one, translate_text, translate_vec, ConfigError, Translator,
};

fn text(s: &str) -> Vec<char> {
    s.chars().collect()
}

fn run(chain: &[Translator], s: &str) -> String {
    translate_text(&text(s), chain).into_iter().collect()
}

#[test]
fn range_outside_is_no_match() {
    let t = range_translation('a', 'A', 26).unwrap();
    assert_eq!(t.apply('a' as u32 - 1), None);
    assert_eq!(t.apply('z' as u32 + 1), None);
    assert_eq!(t.apply('A' as u32), None);
    assert_eq!(t.apply(0x10FFFF), None);
}

#[test]
fn range_inside_maps_by_offset() {
    let t = range_translation('a', 'A', 26).unwrap();
    assert_eq!(t.apply('a' as u32), Some('A' as u32));
    assert_eq!(t.apply('q' as u32), Some('Q' as u32));
    assert_eq!(t.apply('z' as u32), Some('Z' as u32));
}

#[test]
fn range_round_trip_with_inverse() {
    let t = range_translation('a', 'A', 26).unwrap();
    let inv = range_translation('A', 'a', 26).unwrap();
    for c in 'a'..='z' {
        let y = t.apply(c as u32).unwrap();
        assert_eq!(inv.apply(y), Some(c as u32));
    }
}

#[test]
fn range_upward_offset() {
    let t = range_translation('A', 'a', 26).unwrap();
    assert_eq!(t.apply('C' as u32), Some('c' as u32));
}

#[test]
fn range_zero_size_fails() {
    assert!(matches!(range_translation('a', 'A', 0), Err(ConfigError::ZeroSize)));
}

#[test]
fn range_target_past_max_fails() {
    let r = range_translation('a', '\u{10FFFE}', 3);
    assert!(matches!(r, Err(ConfigError::TargetOutOfRange { end: 0x110000 })));
}

#[test]
fn range_target_into_surrogates_fails() {
    let r = range_translation('a', '\u{D7FE}', 3);
    assert!(matches!(r, Err(ConfigError::TargetOutOfRange { end: 0xD800 })));
}

#[test]
fn range_source_past_max_fails() {
    let r = range_translation('\u{10FFFF}', 'a', 2);
    assert!(matches!(r, Err(ConfigError::SourceOutOfRange { end: 0x110000 })));
}

#[test]
fn range_up_to_max_scalar_is_accepted() {
    let t = range_translation('a', '\u{10FFFE}', 2).unwrap();
    assert_eq!(t.apply('b' as u32), Some(0x10FFFF));
}

#[test]
fn multirange_bold_capital_a() {
    let t = multirange_translation('\u{1D400}', 'A', 26, 52, 5).unwrap();
    assert_eq!(t.apply(0x1D400), Some('A' as u32));
    assert_eq!(t.apply(0x1D41A), None);
}

#[test]
fn multirange_match_iff_offset_below_size() {
    let t = multirange_translation('\u{1D400}', 'A', 26, 52, 5).unwrap();
    for c in 0x1D400u32..0x1D400 + 52 * 5 {
        let off = (c - 0x1D400) % 52;
        if off < 26 {
            assert_eq!(t.apply(c), Some('A' as u32 + off));
        } else {
            assert_eq!(t.apply(c), None);
        }
    }
    assert_eq!(t.apply(0x1D3FF), None);
    assert_eq!(t.apply(0x1D400 + 52 * 5), None);
}

#[test]
fn multirange_last_block() {
    let t = multirange_translation('\u{1D400}', 'A', 26, 52, 5).unwrap();
    assert_eq!(t.apply(0x1D400 + 52 * 4 + 25), Some('Z' as u32));
}

#[test]
fn multirange_slice_smaller_than_size_fails() {
    let r = multirange_translation('a', 'A', 26, 25, 1);
    assert!(matches!(r, Err(ConfigError::SliceTooSmall { size: 26, slice: 25 })));
}

#[test]
fn multirange_zero_iters_fails() {
    let r = multirange_translation('a', 'A', 26, 52, 0);
    assert!(matches!(r, Err(ConfigError::ZeroIters)));
}

#[test]
fn multirange_target_past_max_fails() {
    let r = multirange_translation('a', '\u{10FFFF}', 2, 2, 1);
    assert!(matches!(r, Err(ConfigError::TargetOutOfRange { end: 0x110000 })));
}

#[test]
fn lookup_round_trips_each_pair() {
    let t = lookup_translation("аеоѕ", "aeos").unwrap();
    assert_eq!(t.apply('а' as u32), Some('a' as u32));
    assert_eq!(t.apply('е' as u32), Some('e' as u32));
    assert_eq!(t.apply('о' as u32), Some('o' as u32));
    assert_eq!(t.apply('ѕ' as u32), Some('s' as u32));
    assert_eq!(t.apply('a' as u32), None);
}

#[test]
fn lookup_first_position_decides() {
    let t = lookup_translation("xyx", "abc").unwrap();
    assert_eq!(t.apply('x' as u32), Some('a' as u32));
    assert_eq!(t.apply('y' as u32), Some('b' as u32));
}

#[test]
fn lookup_empty_matches_nothing() {
    let t = lookup_translation("", "").unwrap();
    assert_eq!(t.apply('a' as u32), None);
}

#[test]
fn lookup_unequal_lengths_fail() {
    let r = lookup_translation("abc", "ab");
    assert!(matches!(r, Err(ConfigError::LengthMismatch { source_len: 3, target_len: 2 })));
}

#[test]
fn lookup_lengths_count_characters() {
    let r = lookup_translation("é", "e");
    assert!(r.is_ok());
    let r = lookup_translation("ab", "é");
    assert!(matches!(r, Err(ConfigError::LengthMismatch { source_len: 2, target_len: 1 })));
}

#[test]
fn ascii_filter_passes_ascii_only() {
    let t = ascii_filter();
    assert_eq!(t.apply(65), Some(65));
    assert_eq!(t.apply(0), Some(0));
    assert_eq!(t.apply(127), Some(127));
    assert_eq!(t.apply(128), None);
    assert_eq!(t.apply(0x1D400), None);
}

#[test]
fn chain_ascii_filter_takes_precedence() {
    let chain = vec![ascii_filter(), range_translation('a', 'A', 26).unwrap()];
    assert_eq!(run(&chain, "Hello"), "Hello");
}

#[test]
fn chain_swaps_case() {
    let chain = vec![
        range_translation('a', 'A', 26).unwrap(),
        range_translation('A', 'a', 26).unwrap(),
    ];
    assert_eq!(run(&chain, "Hello, World!"), "hELLO, wORLD!");
}

#[test]
fn chain_math_bold_capitals() {
    let chain = vec![multirange_translation('\u{1D400}', 'A', 26, 52, 5).unwrap()];
    assert_eq!(run(&chain, "𝐀𝐁𝐂"), "ABC");
}

#[test]
fn chain_first_match_wins() {
    let chain = vec![
        range_translation('a', 'x', 1).unwrap(),
        range_translation('a', 'y', 1).unwrap(),
    ];
    assert_eq!(translate('a', &chain), 'x');
    assert_eq!(translate_vec('a', &chain), 'x');
}

#[test]
fn chain_identity_fallback() {
    let chain = vec![range_translation('a', 'A', 26).unwrap()];
    assert_eq!(translate('é', &chain), 'é');
    assert_eq!(translate('1', &[]), '1');
}

#[test]
fn caesar_chain() {
    let chain = vec![
        range_translation('a', 'b', 25).unwrap(),
        range_translation('z', 'a', 1).unwrap(),
        range_translation('A', 'B', 25).unwrap(),
        range_translation('Z', 'A', 1).unwrap(),
    ];
    assert_eq!(run(&chain, "Zebra, yak!"), "Afcsb, zbl!");
}

#[test]
fn translate_one_single_rule() {
    let t = range_translation('a', 'A', 26).unwrap();
    assert_eq!(translate_one('m', &t), 'M');
    assert_eq!(translate_one('M', &t), 'M');
}

#[test]
fn text_keeps_length() {
    let chain = vec![lookup_translation("а", "a").unwrap()];
    let out = translate_text(&text("bаnаnа 🍌"), &chain);
    assert_eq!(out.len(), 8);
    assert_eq!(out.into_iter().collect::<String>(), "banana 🍌");
}
