//! Tests of the JSON list and detail parsing.

use credpick::json::parse_field_labels;
use credpick::json::parse_item_list;

#[test]
fn list_one_item() {
    let s = br#"[{"id":"abc","title":"GitHub"}]"#.to_vec();
    let items = parse_item_list(&s).unwrap();
    assert_eq!(items.len(), 1);
    assert_eq!(items[0].id, b"abc".to_vec());
    assert_eq!(items[0].title, b"GitHub".to_vec());
}

#[test]
fn list_preserves_order_and_count() {
    let s = br#"[
        {"id":"a1","title":"First"},
        {"title":"Second","id":"a2","category":"Login"},
        {"id":"a3","title":"Third","urls":[{"href":"https://x.example"}]}
    ]"#
    .to_vec();
    let items = parse_item_list(&s).unwrap();
    assert_eq!(items.len(), 3);
    assert_eq!(items[0].id, b"a1".to_vec());
    assert_eq!(items[1].id, b"a2".to_vec());
    assert_eq!(items[2].id, b"a3".to_vec());
    assert_eq!(items[0].title, b"First".to_vec());
    assert_eq!(items[1].title, b"Second".to_vec());
    assert_eq!(items[2].title, b"Third".to_vec());
}

#[test]
fn list_empty_array() {
    let s = b"  [ ]  ".to_vec();
    let items = parse_item_list(&s).unwrap();
    assert_eq!(items.len(), 0);
}

#[test]
fn list_ignores_unknown_fields_and_nesting() {
    let s = br#"[{"extra":{"deep":[1,2,{"x":null}]},"id":"i","flag":true,"n":-1.5e3,"title":"T"}]"#
        .to_vec();
    let items = parse_item_list(&s).unwrap();
    assert_eq!(items.len(), 1);
    assert_eq!(items[0].id, b"i".to_vec());
    assert_eq!(items[0].title, b"T".to_vec());
}

#[test]
fn list_missing_id_fails() {
    let s = br#"[{"title":"NoId"}]"#.to_vec();
    assert!(parse_item_list(&s).is_none());
}

#[test]
fn list_non_string_title_fails() {
    let s = br#"[{"id":"a","title":7}]"#.to_vec();
    assert!(parse_item_list(&s).is_none());
}

#[test]
fn list_not_an_array_fails() {
    let s = br#"{"id":"a","title":"T"}"#.to_vec();
    assert!(parse_item_list(&s).is_none());
}

#[test]
fn list_malformed_fails() {
    assert!(parse_item_list(&br#"[{"id":"a","title":"T"}"#.to_vec()).is_none());
    assert!(parse_item_list(&b"".to_vec()).is_none());
    assert!(parse_item_list(&b"[{]".to_vec()).is_none());
    assert!(parse_item_list(&br#"[{"id":"a","title":"T"}] trailing"#.to_vec()).is_none());
    assert!(parse_item_list(&br#"[{"id":"a","title":"T"},]"#.to_vec()).is_none());
    assert!(parse_item_list(&br#"[{"id":"a" "title":"T"}]"#.to_vec()).is_none());
}

#[test]
fn list_decodes_escapes() {
    let s = r#"[{"id":"x","title":"A\"B\\C\/ \b\f\n\r\tAé😀"}]"#.as_bytes().to_vec();
    let items = parse_item_list(&s).unwrap();
    let expected = "A\"B\\C/ \u{8}\u{c}\n\r\tA\u{e9}\u{1f600}".as_bytes().to_vec();
    assert_eq!(items[0].title, expected);
}

#[test]
fn list_decodes_unicode_escapes() {
    let s = br#"[{"id":"x","title":"caf\u00e9 A \ud83d\ude00"}]"#.to_vec();
    let items = parse_item_list(&s).unwrap();
    let expected = "caf\u{e9} A \u{1f600}".as_bytes().to_vec();
    assert_eq!(items[0].title, expected);
}

#[test]
fn list_rejects_lone_surrogate() {
    let s = br#"[{"id":"x","title":"\ud83d"}]"#.to_vec();
    assert!(parse_item_list(&s).is_none());
    let s2 = br#"[{"id":"x","title":"\ude00"}]"#.to_vec();
    assert!(parse_item_list(&s2).is_none());
}

#[test]
fn list_rejects_invalid_utf8_in_strings() {
    // An undecodable byte, even in an ignored member, is a data error.
    assert!(parse_item_list(&b"[{\"id\":\"a\",\"title\":\"T\",\"x\":\"\xff\"}]".to_vec()).is_none());
    // Lone continuation byte, truncated sequence, overlong form, surrogate.
    assert!(parse_item_list(&b"[{\"id\":\"a\",\"title\":\"T\xa0\"}]".to_vec()).is_none());
    assert!(parse_item_list(&b"[{\"id\":\"a\",\"title\":\"T\xc3\"}]".to_vec()).is_none());
    assert!(parse_item_list(&b"[{\"id\":\"a\",\"title\":\"T\xc0\x80\"}]".to_vec()).is_none());
    assert!(parse_item_list(&b"[{\"id\":\"a\",\"title\":\"T\xed\xa0\x80\"}]".to_vec()).is_none());
    assert!(parse_field_labels(&b"{\"fields\":[{\"label\":\"\xf8\"}]}".to_vec()).is_none());
}

#[test]
fn list_duplicate_key_takes_first() {
    let s = br#"[{"id":"first","id":"second","title":"T"}]"#.to_vec();
    let items = parse_item_list(&s).unwrap();
    assert_eq!(items[0].id, b"first".to_vec());
}

#[test]
fn list_rejects_bad_numbers() {
    assert!(parse_item_list(&br#"[{"id":"a","title":"T","n":01}]"#.to_vec()).is_none());
    assert!(parse_item_list(&br#"[{"id":"a","title":"T","n":1.}]"#.to_vec()).is_none());
    assert!(parse_item_list(&br#"[{"id":"a","title":"T","n":1e}]"#.to_vec()).is_none());
}

#[test]
fn list_accepts_number_forms() {
    let s = br#"[{"id":"a","title":"T","zero":0,"neg":-0.5,"exp":1e10,"cap":1E+5,"full":123.456e-7}]"#
        .to_vec();
    let items = parse_item_list(&s).unwrap();
    assert_eq!(items.len(), 1);
}

#[test]
fn list_accepts_literals() {
    let s = br#"[{"id":"a","title":"T","a":true,"b":false,"c":null}]"#.to_vec();
    assert!(parse_item_list(&s).is_some());
    assert!(parse_item_list(&br#"[{"id":"a","title":"T","c":nul}]"#.to_vec()).is_none());
}

#[test]
fn labels_in_order() {
    let s = br#"{"id":"abc","fields":[{"label":"password"},{"label":"notesPlain"}]}"#.to_vec();
    let labels = parse_field_labels(&s).unwrap();
    assert_eq!(labels.len(), 2);
    assert_eq!(labels[0], b"password".to_vec());
    assert_eq!(labels[1], b"notesPlain".to_vec());
}

#[test]
fn labels_absent_fields_is_empty() {
    let s = br#"{"id":"abc","category":"Login"}"#.to_vec();
    let labels = parse_field_labels(&s).unwrap();
    assert_eq!(labels.len(), 0);
}

#[test]
fn labels_non_array_fields_is_empty() {
    let s = br#"{"fields":"nope"}"#.to_vec();
    let labels = parse_field_labels(&s).unwrap();
    assert_eq!(labels.len(), 0);
}

#[test]
fn labels_skip_entries_without_label() {
    let s = br#"{"fields":[{"label":"one"},{"id":"no-label"},42,{"label":7},{"label":"two"}]}"#
        .to_vec();
    let labels = parse_field_labels(&s).unwrap();
    assert_eq!(labels.len(), 2);
    assert_eq!(labels[0], b"one".to_vec());
    assert_eq!(labels[1], b"two".to_vec());
}

#[test]
fn labels_malformed_fails() {
    assert!(parse_field_labels(&br#"{"fields":["#.to_vec()).is_none());
    assert!(parse_field_labels(&b"not json".to_vec()).is_none());
}

#[test]
fn labels_non_object_document_is_empty() {
    let labels = parse_field_labels(&b"[1,2,3]".to_vec()).unwrap();
    assert_eq!(labels.len(), 0);
}
