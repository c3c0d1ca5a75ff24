use lingvo::noun::Noun;
use lingvo::vocab::{dict, Vocabulary};

fn parts(n: &Noun) -> Vec<String> {
    n.0.iter().map(|v| v.0.clone()).collect()
}

#[test]
fn segmentation_is_shortest_match_first() {
    let n = Noun::parse("prosact").expect("must segment");
    assert_eq!(parts(&n), ["pros", "act"]);
}

#[test]
fn segmentation_concatenation_is_exact() {
    for s in ["komonlang", "i-tcan", "estil", "k^alkwazist", "bes^homa-l"] {
        let n = Noun::parse(s).expect("must segment");
        assert_eq!(parts(&n).concat(), s);
        assert_eq!(n.format(), s);
    }
}

#[test]
fn shorter_dictionary_prefix_strands_the_rest() {
    // "un" is a morpheme and a proper prefix of the morpheme "und"; the
    // scanner commits to "un" and the leftover "d" matches nothing
    assert!(Noun::parse("und").is_none());
}

#[test]
fn empty_token_has_no_root() {
    assert!(Noun::parse("").is_none());
}

#[test]
fn unmatched_trailing_characters_fail() {
    assert!(Noun::parse("langa").is_none());
    assert!(Noun::parse("x").is_none());
}

#[test]
fn uppercase_token_is_one_morpheme() {
    let n = Noun::parse("Internacia").expect("must parse");
    assert_eq!(parts(&n), ["Internacia"]);
}

#[test]
fn numeric_token_is_one_morpheme() {
    for s in ["1", "10", "3.14", "-2", "+4", "1e3", "2.5E-1", "inf", "NaN", "infinity"] {
        let n = Noun::parse(s).unwrap_or_else(|| panic!("{s} must parse"));
        assert_eq!(parts(&n), [s]);
    }
    for s in ["1.2.3", "e3", "1e", "--1", "."] {
        assert!(Noun::parse(s).is_none(), "{s} must not parse");
    }
}

#[test]
fn noun_translate_glosses_each_morpheme() {
    let n = Noun::parse("komonlang").expect("must segment");
    assert_eq!(n.translate(), "共通言葉");
}

#[test]
fn noun_translate_falls_back_to_identity() {
    let n = Noun::parse("Fugo").expect("must parse");
    assert_eq!(n.translate(), "Fugo");
}

#[test]
fn dictionary_has_every_morpheme_once() {
    let d = dict();
    assert_eq!(d.len(), 103);
    for i in 0..d.len() {
        for j in 0..i {
            assert_ne!(d[i].0, d[j].0, "duplicate morpheme");
        }
    }
}

#[test]
fn dictionary_lookup_pairs() {
    let d = dict();
    assert!(d.iter().any(|(k, v)| k == "mi" && v == "私"));
    assert!(d.iter().any(|(k, v)| k == "est" && v == "説明"));
    assert!(d.iter().any(|(k, v)| k == "a*d" && v == "足し"));
}

#[test]
fn vocabulary_accepts_only_dictionary_morphemes() {
    let v = Vocabulary::parse("mi").expect("must accept");
    assert_eq!(v.0, "mi");
    assert_eq!(v.format(), "mi");
    assert_eq!(v.translate(), "私");
    assert!(Vocabulary::parse("zz").is_none());
    assert!(Vocabulary::parse("").is_none());
    assert!(Vocabulary::parse("m").is_none());
}
