use std::cmp::Ordering;

use caseless::canonical_caseless_compare_str;
use caseless::canonical_caseless_match_str;
use caseless::canonical_caseless_starts_with_str;
use caseless::compatibility_caseless_compare_str;
use caseless::compatibility_caseless_match_str;
use caseless::compatibility_caseless_starts_with_str;
use caseless::default_case_fold_fixpoint_str;
use caseless::default_case_fold_str;
use caseless::default_caseless_compare_str;
use caseless::default_caseless_match_str;
use caseless::default_caseless_starts_with_str;
use caseless::CaseFold;
use caseless::Caseless;
use caseless::CharSource;
use caseless::CharStream;
use caseless::Decompose;
use caseless::DecompositionKind;

// 'Å' from single code point and multiple code points
const A_RING_ABOVE: (&str, &str) = ("\u{00c5}", "\u{0041}\u{030A}");

// 'ῃ' from single code point and multiple code points
const ETA_WITH_YPOGEGRAMMENI: (&str, &str) = ("\u{1FC3}", "\u{03B7}\u{0345}");

// NFKD normalization for '㎒' produces 'MHz'
const MHZ: (&str, &str) = ("㎒", "MHz");

// NFKD normalization for 'ＫＡＤＯＫＡＷＡ' produces 'KADOKAWA'
const KADOKAWA: (&str, &str) = ("ＫＡＤＯＫＡＷＡ", "KADOKAWA");

#[test]
fn test_default_case_fold_str() {
    assert_eq!(default_case_fold_str("Test Case"), "test case");
    assert_eq!(default_case_fold_str("Teſt Caſe"), "test case");
    assert_eq!(default_case_fold_str("spiﬃest"), "spiffiest");
    assert_eq!(default_case_fold_str("straße"), "strasse");
    assert_eq!(default_case_fold_str("ꭴꮎꮅꭲᏼ"), "ᎤᎾᎵᎢᏴ");
}

#[test]
fn test_default_caseless_match_str() {
    assert!(default_caseless_match_str("Test Case", "test case"));
    assert!(default_caseless_match_str("Teſt Caſe", "test case"));
    assert!(default_caseless_match_str("spiﬃest", "spiffiest"));
    assert!(default_caseless_match_str("straße", "strasse"));
    assert!(default_caseless_match_str("ꭴꮎꮅꭲᏼ", "ᎤᎾᎵᎢᏴ"));

    // Without normalization, these do not match even though they are canonically equivalent
    assert!(!default_caseless_match_str(A_RING_ABOVE.0, A_RING_ABOVE.1));
}

#[test]
fn test_canonical_caseless_match_str() {
    assert!(canonical_caseless_match_str("Test Case", "test case"));
    assert!(canonical_caseless_match_str("Teſt Caſe", "test case"));
    assert!(canonical_caseless_match_str("spiﬃest", "spiffiest"));
    assert!(canonical_caseless_match_str("straße", "strasse"));
    assert!(canonical_caseless_match_str("ꭴꮎꮅꭲᏼ", "ᎤᎾᎵᎢᏴ"));
    assert!(canonical_caseless_match_str(A_RING_ABOVE.0, A_RING_ABOVE.1));
    assert!(canonical_caseless_match_str(ETA_WITH_YPOGEGRAMMENI.0, ETA_WITH_YPOGEGRAMMENI.1));

    // These will match after NFKD normalized, but not NFD
    assert!(!canonical_caseless_match_str(MHZ.0, MHZ.1));
    assert!(!canonical_caseless_match_str(KADOKAWA.0, KADOKAWA.1))
}

#[test]
fn test_compatibility_caseless_match_str() {
    assert!(compatibility_caseless_match_str("Test Case", "test case"));
    assert!(compatibility_caseless_match_str("Teſt Caſe", "test case"));
    assert!(compatibility_caseless_match_str("spiﬃest", "spiffiest"));
    assert!(compatibility_caseless_match_str("straße", "strasse"));
    assert!(compatibility_caseless_match_str("ꭴꮎꮅꭲᏼ", "ᎤᎾᎵᎢᏴ"));
    assert!(compatibility_caseless_match_str(A_RING_ABOVE.0, A_RING_ABOVE.1));
    assert!(compatibility_caseless_match_str(ETA_WITH_YPOGEGRAMMENI.0, ETA_WITH_YPOGEGRAMMENI.1));
    assert!(compatibility_caseless_match_str(MHZ.0, MHZ.1));
    assert!(compatibility_caseless_match_str(KADOKAWA.0, KADOKAWA.1))
}

#[test]
fn test_default_fold_empty_and_unmapped() {
    assert_eq!(default_case_fold_str(""), "");
    assert_eq!(default_case_fold_str("already folded"), "already folded");
    assert!(default_caseless_match_str("", ""));
    assert!(!default_caseless_match_str("", "a"));
}

#[test]
fn test_default_fold_is_idempotent() {
    for s in ["Test Case", "Teſt Caſe", "spiﬃest", "straße", "ꭴꮎꮅꭲᏼ", "ＫＡＤＯＫＡＷＡ"] {
        let folded = default_case_fold_str(s);
        assert_eq!(default_case_fold_str(&folded), folded);
        assert_eq!(default_case_fold_fixpoint_str(s), Some(folded));
    }
}

#[test]
fn test_default_caseless_compare_str() {
    assert_eq!(default_caseless_compare_str("Test Case", "test"), Ordering::Greater);
    assert_eq!(default_caseless_compare_str("Test Case", "case"), Ordering::Greater);
    assert_eq!(default_caseless_compare_str("Test Case", "test case"), Ordering::Equal);
    assert_eq!(default_caseless_compare_str("spiﬃest", "spiffiest"), Ordering::Equal);
    assert_eq!(default_caseless_compare_str("case", "Test"), Ordering::Less);
    assert_eq!(default_caseless_compare_str("test", "Test Case"), Ordering::Less);
}

#[test]
fn test_canonical_caseless_compare_str() {
    assert_eq!(canonical_caseless_compare_str(A_RING_ABOVE.0, A_RING_ABOVE.1), Ordering::Equal);
    assert_ne!(canonical_caseless_compare_str(MHZ.0, MHZ.1), Ordering::Equal);
}

#[test]
fn test_compatibility_caseless_compare_str() {
    assert_eq!(compatibility_caseless_compare_str(MHZ.0, MHZ.1), Ordering::Equal);
    assert_eq!(compatibility_caseless_compare_str(KADOKAWA.0, KADOKAWA.1), Ordering::Equal);
}

#[test]
fn test_default_caseless_starts_with_str() {
    assert!(default_caseless_starts_with_str("Test Case", "test"));
    assert!(!default_caseless_starts_with_str("Test Case", "case"));
    assert!(default_caseless_starts_with_str("Test Case", "test case"));
    assert!(!default_caseless_starts_with_str("test", "Test Case"));
    assert!(default_caseless_starts_with_str("Test Case", ""));
    assert!(default_caseless_starts_with_str("straßenbahn", "STRASSE"));
}

#[test]
fn test_canonical_caseless_starts_with_str() {
    assert!(canonical_caseless_starts_with_str("\u{0041}\u{030A}bc", A_RING_ABOVE.0));
    assert!(!canonical_caseless_starts_with_str("abc", A_RING_ABOVE.0));
}

#[test]
fn test_compatibility_caseless_starts_with_str() {
    assert!(compatibility_caseless_starts_with_str("㎒!", "mhz"));
    assert!(!compatibility_caseless_starts_with_str("㎒!", "khz"));
}

#[test]
fn test_decomposition_reordering() {
    // Cedilla (combining class 202) must come before acute (class 230),
    // whatever order the marks arrive in.
    assert!(canonical_caseless_match_str("e\u{0327}\u{0301}", "e\u{0301}\u{0327}"));
    assert!(canonical_caseless_match_str("\u{00E9}\u{0327}", "e\u{0327}\u{0301}"));
    // Marks of equal class keep their relative order: swapping two
    // class-230 marks changes the text.
    assert!(!canonical_caseless_match_str("e\u{0301}\u{0300}", "e\u{0300}\u{0301}"));
}

#[test]
fn test_reordering_without_trailing_starter() {
    // A run of combining marks with no closing starter is flushed at the
    // end of the stream, still in canonical order.
    let mut d = Decompose::new(
        CharSource::new(vec!['e', '\u{0301}', '\u{0327}']),
        DecompositionKind::Canonical,
    );
    assert_eq!(d.next(), Some('e'));
    assert_eq!(d.next(), Some('\u{0327}'));
    assert_eq!(d.next(), Some('\u{0301}'));
    assert_eq!(d.next(), None);
}

#[test]
fn test_case_fold_stream() {
    let mut f = CharSource::new(vec!['S', 't', 'r', 'a', 'ß', 'e']).default_case_fold();
    let mut out = String::new();
    while let Some(c) = f.next() {
        out.push(c);
    }
    assert_eq!(out, "strasse");

    let mut one = CaseFold::new(CharSource::new(vec!['ß']));
    assert_eq!(one.size_hint(), (1, Some(3)));
    assert_eq!(one.next(), Some('s'));
    assert_eq!(one.next(), Some('s'));
    assert_eq!(one.next(), None);
    assert_eq!(one.size_hint(), (0, Some(0)));
}

#[test]
fn test_decompose_stream() {
    let mut d = Decompose::new(
        CharSource::new(vec!['\u{00C5}']),
        DecompositionKind::Canonical,
    );
    assert_eq!(d.next(), Some('\u{0041}'));
    assert_eq!(d.next(), Some('\u{030A}'));
    assert_eq!(d.next(), None);

    let mut k = Decompose::new(CharSource::new(vec!['㎒']), DecompositionKind::Compatible);
    assert_eq!(k.next(), Some('M'));
    assert_eq!(k.next(), Some('H'));
    assert_eq!(k.next(), Some('z'));
    assert_eq!(k.next(), None);
}

#[test]
fn test_folding_is_streamed_per_code_point() {
    // Folding a concatenation is the concatenation of the foldings: the
    // transform never looks ahead.
    let a = "Straße ";
    let b = "Teſt";
    let whole = format!("{}{}", a, b);
    let split = format!("{}{}", default_case_fold_str(a), default_case_fold_str(b));
    assert_eq!(default_case_fold_str(&whole), split);
}

#[test]
fn test_streaming_across_starter_boundaries() {
    // Output before a starter never depends on input after it: feeding a
    // canonical pipeline piece by piece at starter boundaries gives the
    // same stream as the whole input at once.
    let a = "e\u{0301}\u{0327}s";
    let b = "A\u{030A}!";
    let whole = format!("{}{}", a, b);
    assert!(canonical_caseless_match_str(
        &whole,
        "e\u{0327}\u{0301}s\u{00C5}!"
    ));
    assert!(canonical_caseless_starts_with_str(&whole, a));
}
