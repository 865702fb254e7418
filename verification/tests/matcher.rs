use dateifinder::{matches_name, normalize_query};

#[test]
fn tokenizes_and_matches_all_terms() {
    let tokens = normalize_query("Urlaub 2025");
    assert!(matches_name("Urlaub_2025_Berlin.jpg", &tokens));
    assert!(!matches_name("Urlaub_Berlin.jpg", &tokens));
}

#[test]
fn matcher_stays_stable_under_large_input_volume() {
    let tokens = normalize_query("urlaub 2025");
    let matches = (0..100_000)
        .filter(|index| matches_name(&format!("urlaub_2025_{index}.jpg"), &tokens))
        .count();
    assert_eq!(matches, 100_000);
}

#[test]
fn query_is_split_on_unicode_whitespace_and_lowercased() {
    let tokens = normalize_query("  Ünicode\tBERLIN\u{3000}2025\u{a0}x  ");
    assert_eq!(tokens, vec!["ünicode", "berlin", "2025", "x"]);
}

#[test]
fn blank_query_has_no_tokens_and_matches_everything() {
    let tokens = normalize_query(" \t\n\u{2003} ");
    assert!(tokens.is_empty());
    assert!(matches_name("anything.txt", &tokens));
    assert!(matches_name("", &tokens));
}

#[test]
fn tokens_match_case_insensitively_anywhere_in_the_name() {
    let tokens = normalize_query("BER lin");
    assert!(matches_name("xxberlinxx", &tokens));
    assert!(matches_name("LINBER", &tokens));
    assert!(!matches_name("BERLI", &tokens));
}

#[test]
fn every_token_is_required() {
    let both = normalize_query("alpha beta");
    let alpha = normalize_query("alpha");
    let beta = normalize_query("beta");
    for name in ["alpha beta", "beta-alpha", "alpha", "beta", "gamma"] {
        assert_eq!(
            matches_name(name, &both),
            matches_name(name, &alpha) && matches_name(name, &beta)
        );
    }
}

#[test]
fn matching_needs_the_whole_token() {
    let tokens = normalize_query("abc");
    assert!(!matches_name("ab", &tokens));
    assert!(!matches_name("a b c", &tokens));
    assert!(matches_name("xxabc", &tokens));
}

#[test]
fn non_ascii_names_are_lowercased_before_matching() {
    let tokens = normalize_query("straße");
    assert!(matches_name("HAUPTSTRASSE_Straße.txt", &tokens));
    let tokens = normalize_query("ÄPFEL");
    assert!(matches_name("äpfel.jpg", &tokens));
}

#[test]
fn whitespace_test_agrees_with_std_for_every_char() {
    for code in 0u32..=0x10ffff {
        if let Some(c) = char::from_u32(code) {
            assert_eq!(dateifinder::text::is_white_char(c), c.is_whitespace(), "{code:x}");
        }
    }
}
