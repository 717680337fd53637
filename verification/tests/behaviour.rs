use std::collections::HashMap;
use uu_langpack::{parse_line, LangPack};

fn pairs_to_map(pairs: Vec<(String, String)>) -> HashMap<String, String> {
    pairs.into_iter().collect()
}

#[test]
fn bad_line_changes_nothing_wherever_it_stands() {
    let with_bad = LangPack::load("a=en=\"1\"\nthis is broken\nb=en=\"2\"\n", "en");
    let without = LangPack::load("a=en=\"1\"\nb=en=\"2\"\n", "en");
    assert_eq!(with_bad.len(), without.len());
    assert_eq!(with_bad.get("a", "en"), without.get("a", "en"));
    assert_eq!(with_bad.get("b", "en"), without.get("b", "en"));
    assert_eq!(with_bad.languages(), without.languages());
}

#[test]
fn last_line_wins_and_leaves_the_rest() {
    let pack = LangPack::load("a=en=\"1\"\na=ru=\"2\"\nb=en=\"3\"\na=en=\"4\"", "en");
    assert_eq!(pack.get("a", "en"), Some("4"));
    assert_eq!(pack.get("a", "ru"), Some("2"));
    assert_eq!(pack.get("b", "en"), Some("3"));
    assert_eq!(pack.len(), 2);
}

#[test]
fn one_formatted_line_loads_as_that_translation() {
    let pack = LangPack::load("Key_1-x=DE=\"v = \"w\" =\"", "en");
    assert_eq!(pack.len(), 1);
    assert_eq!(pack.get("Key_1-x", "de"), Some("v = \"w\" ="));
    assert_eq!(pack.languages(), vec!["de"]);
}

#[test]
fn languages_are_sorted_and_distinct() {
    let content = "a=ru=\"1\"\nb=en=\"2\"\nc=fr=\"3\"\nd=EN=\"4\"\na=de=\"5\"\nb=ru=\"6\"";
    let pack = LangPack::load(content, "en");
    assert_eq!(pack.languages(), vec!["de", "en", "fr", "ru"]);
}

#[test]
fn get_does_not_lowercase_the_requested_language() {
    let pack = LangPack::load("h=EN=\"x\"", "fr");
    assert_eq!(pack.get("h", "en"), Some("x"));
    assert_eq!(pack.get("h", "EN"), None);
}

#[test]
fn get_falls_back_and_then_gives_none() {
    let content = "\ngreeting=en=\"Welcome\"\ngreeting=ru=\"Добро пожаловать\"\nonly_en=en=\"English only string\"\n";
    let pack = LangPack::load(content, "en");
    assert_eq!(pack.get("greeting", "ru"), Some("Добро пожаловать"));
    assert_eq!(pack.get("only_en", "ru"), Some("English only string"));
    assert_eq!(pack.get("only_en", "fr"), Some("English only string"));
    assert_eq!(pack.get("nonexistent", "en"), None);
    let ru_default = LangPack::load(content, "ru");
    assert_eq!(ru_default.get("only_en", "fr"), None);
    assert_eq!(ru_default.get_or_key("only_en", "fr"), "only_en");
}

#[test]
fn by_lang_falls_back_and_skips_keys_without_translation() {
    let content = "\nhello=ru=\"Привет\"\nhello=en=\"Hello\"\nbye=ru=\"Пока\"\nonly_fr=fr=\"Salut\"\n";
    let pack = LangPack::load(content, "en");
    let ru = pairs_to_map(pack.to_hashmap_by_lang("ru"));
    assert_eq!(ru.get("hello"), Some(&"Привет".to_string()));
    assert_eq!(ru.get("bye"), Some(&"Пока".to_string()));
    assert_eq!(ru.get("only_fr"), None);
    assert_eq!(ru.len(), 2);
    let en = pairs_to_map(pack.to_hashmap_by_lang("en"));
    assert_eq!(en.get("hello"), Some(&"Hello".to_string()));
    assert_eq!(en.get("bye"), None);
    assert_eq!(en.len(), 1);
    let de = pack.to_hashmap_by_lang("de");
    for (k, v) in de.iter() {
        assert_eq!(pack.get(k, "de"), Some(v.as_str()));
    }
}

#[test]
fn trims_unicode_and_crlf_whitespace() {
    let content = "\t hello=en=\"Hi\" \r\n\u{3000}bye=en=\"Bye\"\u{A0}\r\n";
    let pack = LangPack::load(content, "en");
    assert_eq!(pack.get("hello", "en"), Some("Hi"));
    assert_eq!(pack.get("bye", "en"), Some("Bye"));
    assert_eq!(pack.len(), 2);
}

#[test]
fn comment_with_valid_format_after_hash_is_skipped() {
    let pack = LangPack::load("  #hello=en=\"Hi\"", "en");
    assert!(pack.is_empty());
}

#[test]
fn parse_line_edge_cases() {
    assert_eq!(parse_line("hello=en=\""), None);
    assert_eq!(
        parse_line("hello=en=\"\"a\"\""),
        Some(("hello".to_string(), "en".to_string(), "\"a\"".to_string()))
    );
    assert_eq!(parse_line("hello=Ru=\"x\"").unwrap().1, "ru");
    assert_eq!(parse_line("hello=ру=\"x\""), None);
    assert_eq!(parse_line(" hello=en=\"x\""), None);
    assert_eq!(parse_line("hello=en=\"x\" "), None);
    assert_eq!(parse_line("héllo=en=\"x\""), None);
    assert_eq!(
        parse_line("k==\"x\"=en=\"y\""),
        None
    );
}

#[test]
fn empty_pack_has_nothing_and_keeps_default() {
    let pack = LangPack::empty("de");
    assert_eq!(pack.default_lang(), "de");
    assert_eq!(pack.len(), 0);
    assert!(pack.is_empty());
    assert_eq!(pack.get("a", "de"), None);
    assert_eq!(pack.get_or_key("a", "de"), "a");
    assert!(pack.to_hashmap_by_lang("de").is_empty());
}

#[test]
fn clone_keeps_translations_and_default() {
    let pack = LangPack::load("a=en=\"1\"\na=ru=\"2\"", "ru");
    let copy = pack.clone();
    assert_eq!(copy.default_lang(), "ru");
    assert_eq!(copy.get("a", "en"), Some("1"));
    assert_eq!(copy.get("a", "fr"), Some("2"));
    assert_eq!(copy.languages(), pack.languages());
    assert_eq!(copy.len(), 1);
}

#[test]
fn default_lang_of_loaded_pack() {
    let pack = LangPack::load("", "ru");
    assert_eq!(pack.default_lang(), "ru");
    assert!(pack.languages().is_empty());
}

#[test]
fn joined_texts_later_overrides_earlier_per_key_and_language() {
    let c1 = "a=en=\"1\"\na=ru=\"2\"\nb=en=\"3\"";
    let c2 = "a=en=\"4\"\nc=fr=\"5\"";
    let joined = format!("{}\n{}", c1, c2);
    let p1 = LangPack::load(c1, "xx");
    let p2 = LangPack::load(c2, "xx");
    let p = LangPack::load(&joined, "xx");
    for k in ["a", "b", "c", "d"] {
        for l in ["en", "ru", "fr", "de"] {
            assert_eq!(p.get(k, l), p2.get(k, l).or(p1.get(k, l)));
        }
    }
    assert_eq!(p.len(), 3);
    assert_eq!(p.default_lang(), "xx");
}

#[test]
fn is_empty_exactly_when_no_lookup_succeeds() {
    let garbage = LangPack::load("# only a comment\nnot a line\n", "en");
    assert!(garbage.is_empty());
    assert_eq!(garbage.get("not a line", "en"), None);
    let one = LangPack::load("k=fr=\"v\"", "en");
    assert!(!one.is_empty());
    assert_eq!(one.get("k", "fr"), Some("v"));
}
