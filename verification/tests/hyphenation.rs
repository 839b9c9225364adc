//! The hyphenator exercised end to end on small pattern dictionaries.

use pyphen_rs::Builder;

// A Dutch-style test dictionary.  The first pattern only widens the scanning
// window (the longest key itself never fits the window, which is bounded
// exclusively by the longest key's length).
const NL: &str = "% Dutch-style test patterns\n\
zzzzz1z\n\
t1ter\n\
r1gr\n\
e1pe\n\
u1t\n\
o1b\n\
d1v\n\
n1t\n\
l1d\n\
p1j\n\
m1s\n\
r1d\n";

// A Hungarian-style test dictionary with a nonstandard-hyphenation pattern.
const HU: &str = "% Hungarian-style test patterns\n\
zzzzz1z\n\
u1l\n\
s1sz/sz=sz,1,3\n";

// A French-style test dictionary whose patterns match none of the test words.
const FR: &str = "% French-style test patterns\n\
zzzzz1z\n\
a1bc\n";

fn match_tuple(tup1: (String, String), s1: &str, s2: &str) {
    let (a, b) = tup1;
    assert_eq!(&*a, s1);
    assert_eq!(&*b, s2);
}

fn match_iter(iter: Option<(String, String)>, s1: &str, s2: &str) {
    assert!(iter.is_some());
    let x = iter.unwrap();
    match_tuple(x, s1, s2);
}

/// Test the ``inserted`` method.
#[test]
fn test_inserted() {
    let dic = Builder::lang("nl_NL").build(NL).unwrap();
    assert_eq!(dic.inserted("lettergrepen"), "let-ter-gre-pen");
}

/// Test the ``wrap`` method.
#[test]
fn test_wrap() {
    let dic = Builder::lang("nl_NL").build(NL).unwrap();
    match_tuple(
        dic.wrap("autobandventieldopje", 11).unwrap(),
        "autoband-",
        "ventieldopje",
    );
}

/// Test the ``iterate`` method.
#[test]
fn test_iterate() {
    let dic = Builder::lang("nl_NL").build(NL).unwrap();
    let mut iter = dic.iterate("Amsterdam");
    match_iter(iter.next(), "Amster", "dam");
    match_iter(iter.next(), "Am", "sterdam");
    assert_eq!(iter.next(), None);
}

/// Test the ``iterate`` method with a fallback dict.
#[test]
fn test_fallback_dict() {
    let available = vec![
        "en".to_string(),
        "en_US".to_string(),
        "fr".to_string(),
        "nl_NL".to_string(),
        "hu".to_string(),
    ];
    let lang = pyphen_rs::language_fallback("nl_NL-variant", &available).unwrap();
    assert_eq!(lang, "nl_NL");
    let dic = Builder::lang(&lang).build(NL).unwrap();
    let mut iter = dic.iterate("Amsterdam");
    match_iter(iter.next(), "Amster", "dam");
    match_iter(iter.next(), "Am", "sterdam");
    assert_eq!(iter.next(), None);
}

/// Test a personal dict.
#[test]
fn test_personal_dict() {
    let dic = Builder::lang("fr").build(FR).unwrap();
    assert_ne!(
        dic.inserted("autobandventieldopje"),
        "au-to-band-ven-tiel-dop-je"
    );
    // the same language name now resolves to the Dutch-style patterns
    let dic = Builder::lang("fr").build(NL).unwrap();
    assert_eq!(
        dic.inserted("autobandventieldopje"),
        "au-to-band-ven-tiel-dop-je"
    );
}

/// Test the ``left`` and ``right`` parameters.
#[test]
fn test_left_right() {
    let dic = Builder::lang("nl_NL").build(NL).unwrap();
    assert_eq!(dic.inserted("lettergrepen"), "let-ter-gre-pen");
    let dic = Builder::lang("nl_NL").left(4).build(NL).unwrap();
    assert_eq!(dic.inserted("lettergrepen"), "letter-gre-pen");
    let dic = Builder::lang("nl_NL").right(4).build(NL).unwrap();
    assert_eq!(dic.inserted("lettergrepen"), "let-ter-grepen");
    let dic = Builder::lang("nl_NL").left(4).right(4).build(NL).unwrap();
    assert_eq!(dic.inserted("lettergrepen"), "letter-grepen");
}

/// Test the ``filename`` parameter.
#[test]
fn test_filename() {
    let dic = Builder::filename("hyph_nl_NL.dic").build(NL).unwrap();
    assert_eq!(dic.inserted("lettergrepen"), "let-ter-gre-pen");
}

/// Test the alternative parser.
#[test]
fn test_alternative() {
    let dic = Builder::lang("hu").left(1).right(1).build(HU).unwrap();
    let mut iter = dic.iterate("kulissza");
    match_iter(iter.next(), "kulisz", "sza");
    match_iter(iter.next(), "ku", "lissza");
    assert_eq!(iter.next(), None);
    assert_eq!(dic.inserted("kulissza"), "ku-lisz-sza");
}

/// Test uppercase.
#[test]
fn test_upper() {
    let dic = Builder::lang("nl_NL").build(NL).unwrap();
    assert_eq!(dic.inserted("LETTERGREPEN"), "LET-TER-GRE-PEN");
}

/// Test uppercase with the alternative parser.
#[test]
fn test_upper_alternative() {
    let dic = Builder::lang("hu").left(1).right(1).build(HU).unwrap();
    let mut iter = dic.iterate("KULISSZA");
    match_iter(iter.next(), "KULISZ", "SZA");
    match_iter(iter.next(), "KU", "LISSZA");
    assert_eq!(iter.next(), None);
    assert_eq!(dic.inserted("KULISSZA"), "KU-LISZ-SZA");
}

/// Test that all included dictionaries can be parsed.
#[test]
fn test_all_dictionaries() {
    for text in [NL, HU, FR] {
        assert!(Builder::lang("xx").build(text).is_ok());
    }
}

/// Test the language fallback algorithm.
#[test]
fn test_fallback() {
    let available = vec![
        "en".to_string(),
        "en_US".to_string(),
        "en_Latn_US".to_string(),
        "fr".to_string(),
        "nl_NL".to_string(),
        "hu".to_string(),
    ];
    let fallback = |lang: &str| pyphen_rs::language_fallback(lang, &available).unwrap();
    assert_eq!(fallback("en"), "en");
    assert_eq!(fallback("en_US"), "en_US");
    assert_eq!(fallback("en_FR"), "en");
    assert_eq!(fallback("en-Latn-US"), "en_Latn_US");
    assert_eq!(fallback("en-Cyrl-US"), "en");
    assert_eq!(fallback("fr-Latn-FR"), "fr");
    assert_eq!(fallback("en-US_variant1-x"), "en_US");
}
