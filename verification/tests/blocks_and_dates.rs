use tolearn_core::block::{hex_prefix, id, ids, suffixed, Block, Kind};
use tolearn_core::date::is_date;

#[test]
fn id_is_the_head_of_the_sha256_digest() {
    assert_eq!(id(""), "e3b0c442");
    assert_eq!(id("abc"), "ba7816bf");
}

#[test]
fn hex_prefix_takes_up_to_four_bytes() {
    assert_eq!(hex_prefix(&[0xab, 0x01]), "ab01");
    assert_eq!(hex_prefix(&[0, 1, 2, 3, 4, 5]), "00010203");
}

#[test]
fn ids_are_made_distinct() {
    assert_eq!(ids(&["abc", "abc", ""]), vec!["ba7816bf", "ba7816bf-2", "e3b0c442"]);
}

#[test]
fn suffixed_counts_the_earlier_ones() {
    let bases: Vec<String> = ["a", "a", "b", "a"].iter().map(|s| s.to_string()).collect();
    assert_eq!(suffixed(&bases), vec!["a", "a-2", "b", "a-3"]);
}

#[test]
fn kinds_have_labels_and_fields() {
    assert_eq!(Kind::Callout.label(), "callout");
    assert_eq!(Kind::Image.fields(), vec!["asset", "license", "attribution", "source"]);
    assert_eq!(Kind::Code.fields(), vec!["lang"]);
    assert!(Kind::Paragraph.fields().is_empty());
    assert_eq!(Kind::all().len(), 6);
}

#[test]
fn extras_name_the_optional_fields() {
    let block = Block {
        id: "b1".to_string(),
        kind: Kind::Code,
        text: "x".to_string(),
        lang: Some("rust".to_string()),
        asset: None,
        license: None,
        attribution: None,
        source: Some("s".to_string()),
    };
    let extras = block.extras();
    assert_eq!(extras[0], ("lang", Some("rust")));
    assert_eq!(extras[1], ("asset", None));
    assert_eq!(extras[4], ("source", Some("s")));
}

#[test]
fn dates_of_the_calendar() {
    assert!(is_date("2024-02-29"));
    assert!(is_date("2000-02-29"));
    assert!(is_date("2023-12-31"));
}

#[test]
fn not_dates() {
    assert!(!is_date("2023-02-29"));
    assert!(!is_date("1900-02-29"));
    assert!(!is_date("2023-13-01"));
    assert!(!is_date("2023-04-31"));
    assert!(!is_date("2023-1-01"));
    assert!(!is_date("2023-04-30-1"));
    assert!(!is_date("2023-00-10"));
    assert!(!is_date("abcd-01-01"));
}

#[test]
fn a_block_is_written_with_the_fields_it_has() {
    let block = tolearn_core::block::Block {
        id: "b1".to_string(),
        kind: tolearn_core::block::Kind::Image,
        text: "A cat".to_string(),
        lang: None,
        asset: Some("cat.png".to_string()),
        license: None,
        attribution: None,
        source: Some("zoo".to_string()),
    };
    assert_eq!(
        tolearn_core::block::write::written(&block),
        vec![("id", "b1"), ("kind", "image"), ("text", "A cat"), ("asset", "cat.png"), ("source", "zoo")]
    );
}
