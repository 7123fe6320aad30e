use laplace::model::{default_root, first_sentence, is_wide, levenshtein_capped, nfc, valid_word, EntityRef, KindDecl, Propagation};

#[test]
fn ref_parse_elision_and_canonical_display() {
    let r = EntityRef::parse("character:孙悟空").unwrap();
    assert_eq!(r.ns, "default");
    assert_eq!(r.to_string(), "character:default/孙悟空");
    let r = EntityRef::parse("character:龙宫/敖广").unwrap();
    assert_eq!(r.to_string(), "character:龙宫/敖广");
}

#[test]
fn ref_parse_rejects_bad_words() {
    assert!(EntityRef::parse("no-colon").is_err());
    assert!(EntityRef::parse("k:a b").is_err());
    assert!(EntityRef::parse("k:a/b/c").is_err());
    assert!(EntityRef::parse("k:").is_err());
}

#[test]
fn ref_nfc_normalization() {
    let composed = EntityRef::parse("k:caf\u{e9}").unwrap();
    let decomposed = EntityRef::parse("k:cafe\u{301}").unwrap();
    assert_eq!(composed, decomposed);
}

#[test]
fn first_sentence_cjk_and_ascii() {
    assert_eq!(first_sentence("灵明石猴。东胜神洲出身。"), "灵明石猴。");
    assert_eq!(first_sentence("Runs v1.2 of the loop. More."), "Runs v1.2 of the loop.");
    assert_eq!(first_sentence("first line\nsecond"), "first line");
}

#[test]
fn levenshtein_caps() {
    assert_eq!(levenshtein_capped("沈雨", "沈玉", 2), 1);
    assert!(levenshtein_capped("abc", "xyzabc", 2) > 2);
}

#[test]
fn parse_error_messages_name_the_offending_part() {
    assert_eq!(
        EntityRef::parse("no-colon").unwrap_err(),
        "`no-colon`: a ref is `kind:name` or `kind:namespace/name`"
    );
    assert_eq!(
        EntityRef::parse("k:a b").unwrap_err(),
        "`k:a b`: `a b` is not a valid word (no whitespace, `:` `/` `,` `[` `]` or quotes; non-empty)"
    );
}

#[test]
fn nfc_composes_decomposed_text() {
    assert_eq!(nfc("cafe\u{301}"), "caf\u{e9}");
    assert_eq!(nfc("plain"), "plain");
}

#[test]
fn words_and_widths() {
    assert!(valid_word("孙悟空"));
    assert!(!valid_word(""));
    assert!(!valid_word("a,b"));
    assert!(!valid_word("a\"b"));
    assert!(is_wide('孙'));
    assert!(!is_wide('a'));
    assert_eq!(default_root(), "..");
}

#[test]
fn levenshtein_exact_values() {
    assert_eq!(levenshtein_capped("kitten", "sitting", 5), 3);
    assert_eq!(levenshtein_capped("same", "same", 2), 0);
    assert_eq!(levenshtein_capped("", "ab", 5), 2);
}

#[test]
fn propagation_names_and_labels() {
    assert_eq!(Propagation::ToSource.as_str(), "to-source");
    assert_eq!(Propagation::ToTarget.as_str(), "to-target");
    assert_eq!(Propagation::Both.as_str(), "both");
    assert_eq!(Propagation::Neither.as_str(), "none");
    assert_eq!(Propagation::from_name("both"), Some(Propagation::Both));
    assert_eq!(Propagation::from_name("sideways"), None);
    let d = KindDecl { description: Some("齐天大圣。花果山美猴王。".to_string()) };
    assert_eq!(d.label(), Some("齐天大圣。".to_string()));
    assert_eq!(KindDecl { description: None }.label(), None);
}

#[test]
fn first_sentence_stops_before_passing_120_cells() {
    let text = format!("{}孙悟空", "a".repeat(119));
    let s = laplace::model::first_sentence(&text);
    assert_eq!(s, "a".repeat(119));
    let text = format!("{}孙悟空", "a".repeat(118));
    assert_eq!(laplace::model::first_sentence(&text), format!("{}孙", "a".repeat(118)));
    let long = "b".repeat(300);
    assert_eq!(laplace::model::first_sentence(&long), "b".repeat(120));
}

#[test]
fn levenshtein_with_the_largest_cap() {
    assert_eq!(laplace::model::levenshtein_capped("kitten", "sitting", usize::MAX), 3);
    assert_eq!(laplace::model::levenshtein_capped("", "abc", usize::MAX), 3);
}
