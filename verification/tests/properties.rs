//! Behavioural properties of the engine on concrete values: determinism,
//! case invariance, ordering, boundary filtering, round trips, wrapping
//! bounds, compile errors and the escape syntax.

use pyphen_rs::Builder;

const NL: &str = "% Dutch-style test patterns\n\
zzzzz1z\n\
t1ter\n\
r1gr\n\
e1pe\n\
u1t\n\
o1b\n\
d1v\n\
n1t\n\
l1d\n\
p1j\n\
m1s\n\
r1d\n";

fn offsets(dic: &pyphen_rs::Pyphen, word: &str) -> Vec<usize> {
    dic.positions(word).into_iter().map(|d| d.value).collect()
}

/// Repeated calls answer the same break points.
#[test]
fn positions_deterministic() {
    let dic = Builder::lang("nl_NL").build(NL).unwrap();
    let first = offsets(&dic, "lettergrepen");
    let second = offsets(&dic, "lettergrepen");
    assert_eq!(first, second);
}

/// A word and its lower-cased form break at the same offsets, and the case of
/// inserted text follows the case class of the word.
#[test]
fn positions_case_invariant() {
    let dic = Builder::lang("nl_NL").build(NL).unwrap();
    assert_eq!(
        offsets(&dic, "LETTERGREPEN"),
        offsets(&dic, "lettergrepen")
    );
    assert_eq!(
        offsets(&dic, "Lettergrepen"),
        offsets(&dic, "lettergrepen")
    );
}

/// Offsets come strictly ascending; iteration visits them strictly descending.
#[test]
fn breakpoint_ordering() {
    let dic = Builder::lang("nl_NL").build(NL).unwrap();
    let offs = offsets(&dic, "autobandventieldopje");
    assert_eq!(offs, vec![2, 4, 8, 11, 15, 18]);
    for w in offs.windows(2) {
        assert!(w[0] < w[1]);
    }
    let mut iter = dic.iterate("autobandventieldopje");
    let mut last_len = usize::MAX;
    while let Some((prefix, _)) = iter.next() {
        assert!(prefix.len() < last_len);
        last_len = prefix.len();
    }
}

/// Every returned offset leaves `left` characters before the break and
/// `right` after it.
#[test]
fn boundary_filtering() {
    let word = "autobandventieldopje";
    for (left, right) in [(2usize, 2usize), (4, 4), (1, 9), (9, 1)] {
        let dic = Builder::lang("nl_NL").left(left).right(right).build(NL).unwrap();
        for p in offsets(&dic, word) {
            assert!(left <= p && p <= word.len() - right);
        }
    }
    // a word shorter than left + right has no break points at all
    let dic = Builder::lang("nl_NL").build(NL).unwrap();
    assert!(offsets(&dic, "aut").is_empty());
    assert_eq!(dic.inserted("aut"), "aut");
}

/// Removing the inserted hyphens again reconstructs the word (all break
/// points of this word are plain ones).
#[test]
fn round_trip_insertion() {
    let dic = Builder::lang("nl_NL").build(NL).unwrap();
    let word = "autobandventieldopje";
    let hyphenated = dic.inserted(word);
    let stripped: String = hyphenated.chars().filter(|c| *c != '-').collect();
    assert_eq!(stripped, word);
    let dotted = dic.inserted_with(word, ".");
    assert_eq!(dotted, "au.to.band.ven.tiel.dop.je");
}

/// Wrapping fails below the shortest prefix-plus-hyphen length and succeeds
/// from the word's length plus the hyphen's length on.
#[test]
fn wrap_monotonicity() {
    let dic = Builder::lang("nl_NL").build(NL).unwrap();
    let word = "lettergrepen";
    // the shortest candidate prefix is "let" plus the hyphen: four columns
    assert_eq!(dic.wrap(word, 0), None);
    assert_eq!(dic.wrap(word, 3), None);
    assert!(dic.wrap(word, 4).is_some());
    assert!(dic.wrap(word, word.len() + 1).is_some());
    assert!(dic.wrap(word, 100).is_some());
    // an unbreakable word never wraps
    assert_eq!(dic.wrap("mmmm", 100), None);
}

/// The worked example: positions 3, 6 and 9 for the twelve-character word.
#[test]
fn scenario_lettergrepen() {
    let dic = Builder::lang("nl_NL").build(NL).unwrap();
    assert_eq!(offsets(&dic, "lettergrepen"), vec![3, 6, 9]);
    assert_eq!(dic.inserted("lettergrepen"), "let-ter-gre-pen");
}

/// A word with no matching patterns: no break points, the word unchanged.
#[test]
fn scenario_no_match() {
    let dic = Builder::lang("nl_NL").build(NL).unwrap();
    assert!(offsets(&dic, "mmmmmmmm").is_empty());
    assert_eq!(dic.inserted("mmmmmmmm"), "mmmmmmmm");
    let mut iter = dic.iterate("mmmmmmmm");
    assert_eq!(iter.next(), None);
}

/// A nonstandard pattern deletes two source characters and splices in the
/// two-part substitution, split at the hyphen.
#[test]
fn scenario_nonstandard_rule() {
    let dict = "zzzzz1z\nc1k/ck=k-k,1,2\n";
    let dic = Builder::lang("xx").build(dict).unwrap();
    assert_eq!(offsets(&dic, "zucker"), vec![3]);
    assert_eq!(dic.inserted("zucker"), "zuck-k-ker");
    let mut iter = dic.iterate("zucker");
    assert_eq!(
        iter.next(),
        Some(("zuck".to_string(), "k-ker".to_string()))
    );
    assert_eq!(iter.next(), None);
}

/// A malformed alternative suffix fails compilation with the line's index.
#[test]
fn compile_errors() {
    assert!(Builder::lang("xx").build("a1b/x").is_err());
    match Builder::lang("xx").build("good1pattern\na1b/x,y,2\n") {
        Err(err) => assert_eq!(err.line, 1),
        Ok(_) => panic!("malformed index field accepted"),
    }
    match Builder::lang("xx").build("a1b/onlyonefield") {
        Err(err) => assert_eq!(err.line, 0),
        Ok(_) => panic!("missing fields accepted"),
    }
    assert!(Builder::lang("xx").build("a1b/x,1,2").is_ok());
}

/// Comments and blank lines are skipped; `^^hh` escapes name characters.
#[test]
fn dictionary_syntax() {
    let dict = "% comment\n# comment\n\nzzzzz1z\n^^751t\n";
    let dic = Builder::lang("xx").build(dict).unwrap();
    assert_eq!(dic.inserted("auto"), "au-to");
}

/// A pattern with only zero weights carries no information.
#[test]
fn all_zero_pattern_dropped() {
    let dic = Builder::lang("xx").build("zzzzz1z\n0a0b0\n").unwrap();
    assert!(offsets(&dic, "aabba").is_empty());
}
