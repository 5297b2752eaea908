use dwarven_dictionary::dictionary::{Entry, PartOfSpeech};
use dwarven_dictionary::parser::{parse_dictionary, ParseError};
use dwarven_dictionary::search::{keyword_matches, matches_query, search};

fn entry(word: &str, translation: &str, pos: PartOfSpeech) -> Entry {
    Entry::new(word.to_string(), translation.to_string(), pos)
}

fn words(entries: &[Entry]) -> Vec<String> {
    entries.iter().map(|e| e.word.clone()).collect()
}

#[test]
fn line_with_two_clauses_gives_two_entries() {
    let parsed = parse_dictionary("foo - bar (n.); baz (qux, v.)").unwrap();
    assert_eq!(parsed.len(), 2);
    assert_eq!(parsed[0].word, "foo");
    assert_eq!(parsed[0].translation, "bar");
    assert_eq!(parsed[0].part_of_speech, PartOfSpeech::Noun);
    assert_eq!(parsed[1].word, "foo");
    assert_eq!(parsed[1].translation, "baz (qux)");
    assert_eq!(parsed[1].part_of_speech, PartOfSpeech::Verb);
}

#[test]
fn line_without_separator_is_malformed() {
    match parse_dictionary("justaword") {
        Err(ParseError::MalformedLine { index, line }) => {
            assert_eq!(index, 0);
            assert_eq!(line, "justaword");
        }
        Ok(_) => panic!("a line without a separator was accepted"),
    }
}

#[test]
fn malformed_line_aborts_whole_parse_and_is_named() {
    let text = "axe - hatchet (n.)\nbroken line\nshield - buckler (n.)";
    match parse_dictionary(text) {
        Err(ParseError::MalformedLine { index, line }) => {
            assert_eq!(index, 1);
            assert_eq!(line, "broken line");
        }
        Ok(_) => panic!("a malformed line was accepted"),
    }
}

#[test]
fn separator_needs_text_on_both_sides() {
    assert!(parse_dictionary(" - bar (n.)").is_err());
    assert!(parse_dictionary("foo - ").is_err());
    assert!(parse_dictionary("").unwrap().is_empty());
}

#[test]
fn empty_line_is_malformed() {
    match parse_dictionary("axe - hatchet (n.)\n\nshield - buckler (n.)") {
        Err(ParseError::MalformedLine { index, .. }) => assert_eq!(index, 1),
        Ok(_) => panic!("an empty line was accepted"),
    }
}

#[test]
fn lines_keep_source_order_and_clause_order() {
    let text = "axe - hatchet (n.); chop (v.)\r\nshield - buckler (n.)\n";
    let parsed = parse_dictionary(text).unwrap();
    assert_eq!(words(&parsed), vec!["axe", "axe", "shield"]);
    assert_eq!(parsed[0].translation, "hatchet");
    assert_eq!(parsed[1].translation, "chop");
    assert_eq!(parsed[1].part_of_speech, PartOfSpeech::Verb);
    assert_eq!(parsed[2].translation, "buckler");
}

#[test]
fn word_takes_the_last_separator() {
    let parsed = parse_dictionary("stone - hard - rock (n.)").unwrap();
    assert_eq!(parsed.len(), 1);
    assert_eq!(parsed[0].word, "stone - hard");
    assert_eq!(parsed[0].translation, "rock");
}

#[test]
fn unmatched_text_in_definitions_is_ignored() {
    let parsed = parse_dictionary("gold - shiny metal (n.); trailing words").unwrap();
    assert_eq!(parsed.len(), 1);
    assert_eq!(parsed[0].translation, "shiny metal");
    let none = parse_dictionary("gold - no clause here").unwrap();
    assert!(none.is_empty());
}

#[test]
fn unknown_tag_is_not_a_clause() {
    let parsed = parse_dictionary("gold - metal (adj.); ore (n.)").unwrap();
    assert_eq!(parsed.len(), 1);
    assert_eq!(parsed[0].translation, "metal (adj.); ore");
    assert_eq!(parsed[0].part_of_speech, PartOfSpeech::Noun);
}

#[test]
fn extra_gloss_is_appended_in_parentheses() {
    let parsed = parse_dictionary("hammer - to strike (with force, v.)").unwrap();
    assert_eq!(parsed.len(), 1);
    assert_eq!(parsed[0].translation, "to strike (with force)");
    assert_eq!(parsed[0].part_of_speech, PartOfSpeech::Verb);
}

#[test]
fn labels_are_canonical() {
    assert_eq!(PartOfSpeech::Noun.label(), "n.");
    assert_eq!(PartOfSpeech::Verb.label(), "v.");
}

#[test]
fn keywords_are_word_then_translation() {
    let e = entry("Axe", "hatchet", PartOfSpeech::Noun);
    assert_eq!(e.get_keywords(), vec!["Axe".to_string(), "hatchet".to_string()]);
    let d = e.duplicate();
    assert_eq!(d.word, "Axe");
    assert_eq!(d.translation, "hatchet");
    assert_eq!(d.part_of_speech, PartOfSpeech::Noun);
}

#[test]
fn search_ignores_case_and_matches_substrings() {
    let dict = vec![
        entry("Axe", "hatchet", PartOfSpeech::Noun),
        entry("Shield", "buckler", PartOfSpeech::Noun),
    ];
    assert_eq!(words(&search(&dict, "AXE")), vec!["Axe"]);
    assert_eq!(words(&search(&dict, "xe")), vec!["Axe"]);
    assert_eq!(words(&search(&dict, "BUCK")), vec!["Shield"]);
    assert!(search(&dict, "sword").is_empty());
}

#[test]
fn entry_matching_both_keywords_appears_once() {
    let dict = vec![entry("Stone", "stone", PartOfSpeech::Noun)];
    let found = search(&dict, "ston");
    assert_eq!(found.len(), 1);
    assert_eq!(found[0].word, "Stone");
}

#[test]
fn search_keeps_dictionary_order() {
    let dict = vec![
        entry("Axe", "hatchet", PartOfSpeech::Noun),
        entry("Bow", "arrow thrower", PartOfSpeech::Noun),
        entry("Crow", "black bird", PartOfSpeech::Noun),
    ];
    assert_eq!(words(&search(&dict, "ow")), vec!["Bow", "Crow"]);
}

#[test]
fn empty_query_gives_no_entries() {
    let dict = vec![
        entry("Axe", "hatchet", PartOfSpeech::Noun),
        entry("Shield", "buckler", PartOfSpeech::Noun),
    ];
    assert!(search(&dict, "").is_empty());
    assert!(search(&Vec::new(), "axe").is_empty());
}

#[test]
fn repeated_search_gives_the_same_results() {
    let dict = parse_dictionary("axe - hatchet (n.); chop (v.)\nshield - buckler (n.)").unwrap();
    let first = search(&dict, "H");
    let second = search(&dict, "H");
    assert_eq!(words(&first), words(&second));
    let again = search(&first, "H");
    assert_eq!(words(&again), words(&first));
    assert_eq!(words(&first), vec!["axe", "axe", "shield"]);
}

#[test]
fn keyword_match_is_plain_containment() {
    assert!(keyword_matches("hatchet", "tch"));
    assert!(keyword_matches("hatchet", ""));
    assert!(!keyword_matches("hatchet", "Tch"));
    assert!(!keyword_matches("axe", "axes"));
}

#[test]
fn matches_lowercases_the_keywords() {
    let e = entry("AXE", "Hatchet", PartOfSpeech::Noun);
    assert!(matches_query(&e, "axe"));
    assert!(matches_query(&e, "hat"));
    assert!(!matches_query(&e, "AXE"));
}
