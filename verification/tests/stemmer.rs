use cistemrs::{compute_end_offset, replxx, segment, stem};

#[test]
fn empty_word_stems_to_empty() {
    assert_eq!(stem("", false), "");
    assert_eq!(stem("", true), "");
}

#[test]
fn empty_word_segments_to_empty_halves() {
    assert_eq!(segment("", false), (String::new(), String::new()));
    assert_eq!(segment("", true), (String::new(), String::new()));
}

#[test]
fn stem_schoenes() {
    assert_eq!(stem("schönes", false), "schon");
}

#[test]
fn segment_schoenes() {
    let (l, r) = segment("schönes", false);
    assert_eq!(l, "schön");
    assert_eq!(r, "es");
}

#[test]
fn short_ge_word_keeps_prefix() {
    // "gehen" has five logical characters, below the floor of six, so the
    // leading "ge" must not be stripped.
    assert_eq!(stem("gehen", false), "geh");
}

#[test]
fn long_ge_word_loses_prefix() {
    assert_eq!(stem("gelaufen", false), "lauf");
}

#[test]
fn capitalization_blocks_t_rule() {
    assert_eq!(stem("geht", false), "geh");
    assert_eq!(stem("Geht", false), "geht");
    assert_ne!(stem("Geht", false), stem("geht", false));
    assert_eq!(stem("Geht", true), stem("geht", true));
}

#[test]
fn case_insensitive_ignores_capitalization() {
    for w in ["Tagt", "tagt", "Geht", "geht", "Lauft", "lauft"] {
        assert_eq!(stem(w, true), stem(&w.to_lowercase(), true));
    }
}

#[test]
fn segment_concatenates_to_lowercase() {
    let words = ["Schönes", "gelaufen", "Freunde", "süßes", "EIER", "", "a", "messen", "tische"];
    for w in words {
        for ci in [false, true] {
            let (l, r) = segment(w, ci);
            assert_eq!(format!("{}{}", l, r), w.to_lowercase());
        }
    }
}

#[test]
fn stem_never_lengthens_plain_words() {
    let words = ["schönes", "gelaufen", "kinder", "arbeiten", "spielen", "messen", "Geht", "hauses"];
    for w in words {
        for ci in [false, true] {
            assert!(stem(w, ci).chars().count() <= w.chars().count());
        }
    }
}

#[test]
fn eszett_widens_a_very_short_stem() {
    // 'ß' normalizes to "ss" and a two-unit word is below the trimming
    // floor, so this is the known case where the stem is wider than the
    // input.
    assert_eq!(stem("ß", false), "ss");
}

#[test]
fn restemming_terminates_and_never_lengthens() {
    let words = ["schönes", "gelaufen", "arbeiten", "süßes", "messen", "freunde"];
    for w in words {
        let once = stem(w, false);
        let twice = stem(&once, false);
        assert!(twice.chars().count() <= once.chars().count());
        let thrice = stem(&twice, false);
        assert!(thrice.chars().count() <= twice.chars().count());
    }
}

#[test]
fn stem_examples() {
    assert_eq!(stem("kinder", false), "kind");
    assert_eq!(stem("freunde", false), "freu");
    assert_eq!(stem("arbeiten", false), "arbei");
    assert_eq!(stem("spielen", false), "spiel");
    assert_eq!(stem("messen", false), "mess");
    assert_eq!(stem("süßes", false), "suss");
    assert_eq!(stem("SCHÖNES", false), "schon");
    assert_eq!(stem("hauses", false), "hau");
    assert_eq!(stem("tisch", false), "tisch");
    assert_eq!(stem("tische", false), "tisch");
}

#[test]
fn segment_examples() {
    assert_eq!(segment("gelaufen", false), ("gelauf".to_string(), "en".to_string()));
    assert_eq!(segment("schönes", true), ("schön".to_string(), "es".to_string()));
    assert_eq!(segment("SCHÖNES", false), ("schön".to_string(), "es".to_string()));
}

#[test]
fn segment_t_rule_minimal_pair() {
    assert_eq!(segment("tagt", false), ("tag".to_string(), "t".to_string()));
    assert_eq!(segment("Tagt", false), ("tagt".to_string(), String::new()));
    assert_eq!(segment("Tagt", true), ("tag".to_string(), "t".to_string()));
}

#[test]
fn replxx_marks_repeats() {
    assert_eq!(replxx(vec!['m', 'e', 's', 's', 'e', 'n']), vec!['m', 'e', 's', '*', 'e', 'n']);
    assert_eq!(replxx(vec!['a', 'a', 'a']), vec!['a', '*', 'a']);
    assert_eq!(replxx(Vec::new()), Vec::<char>::new());
}

#[test]
fn compute_end_offset_trims_suffixes() {
    let word: Vec<char> = "hauses".chars().collect();
    assert_eq!(compute_end_offset(&word, 6, false, false), 3);
    let word2: Vec<char> = "geht".chars().collect();
    assert_eq!(compute_end_offset(&word2, 4, true, false), 4);
    assert_eq!(compute_end_offset(&word2, 4, true, true), 3);
}
