//! Tests of the selection and decision logic, and one end-to-end run of
//! the coordination steps on scripted responses.

use credpick::Item;
use credpick::json::parse_field_labels;
use credpick::json::parse_item_list;
use credpick::select::Choice;
use credpick::select::FieldKind;
use credpick::select::field_for_prompt;
use credpick::select::find_first_by_title;
use credpick::select::id_at;
use credpick::select::labels_for_selection;
use credpick::select::parse_launcher_choice;
use credpick::select::titles_for_selection;
use credpick::select::trim_bytes;

fn item(id: &str, title: &str) -> Item {
    Item { id: id.as_bytes().to_vec(), title: title.as_bytes().to_vec() }
}

#[test]
fn titles_in_order() {
    let items = vec![item("a", "One"), item("b", "Two")];
    let titles = titles_for_selection(&items).unwrap();
    assert_eq!(titles.len(), 2);
    assert_eq!(titles[0], b"One".to_vec());
    assert_eq!(titles[1], b"Two".to_vec());
}

#[test]
fn empty_list_yields_no_selection() {
    let items: Vec<Item> = Vec::new();
    assert!(titles_for_selection(&items).is_none());
}

#[test]
fn first_match_wins_on_duplicate_titles() {
    let items = vec![item("a", "Mail"), item("b", "Bank"), item("c", "Mail")];
    let k = find_first_by_title(&items, &b"Mail".to_vec()).unwrap();
    assert_eq!(k, 0);
    let k2 = find_first_by_title(&items, &b"Bank".to_vec()).unwrap();
    assert_eq!(k2, 1);
}

#[test]
fn unknown_title_finds_nothing() {
    let items = vec![item("a", "Mail")];
    assert!(find_first_by_title(&items, &b"Other".to_vec()).is_none());
}

#[test]
fn index_maps_to_item_in_listing_order() {
    let items = vec![item("a", "One"), item("b", "Two"), item("c", "Three")];
    assert_eq!(id_at(&items, 0).unwrap(), b"a".to_vec());
    assert_eq!(id_at(&items, 2).unwrap(), b"c".to_vec());
    assert!(id_at(&items, 3).is_none());
}

#[test]
fn launcher_choice_in_range() {
    assert_eq!(parse_launcher_choice(true, &b"2\n".to_vec(), 3), Choice::Chosen(2));
    assert_eq!(parse_launcher_choice(true, &b"  0  ".to_vec(), 1), Choice::Chosen(0));
    assert_eq!(parse_launcher_choice(true, &b"007".to_vec(), 10), Choice::Chosen(7));
}

#[test]
fn launcher_choice_out_of_range_or_garbled() {
    assert_eq!(parse_launcher_choice(true, &b"3\n".to_vec(), 3), Choice::Invalid);
    assert_eq!(parse_launcher_choice(true, &b"-1".to_vec(), 3), Choice::Invalid);
    assert_eq!(parse_launcher_choice(true, &b"two".to_vec(), 3), Choice::Invalid);
    assert_eq!(parse_launcher_choice(true, &b"1 2".to_vec(), 3), Choice::Invalid);
    assert_eq!(
        parse_launcher_choice(true, &b"99999999999999999999999999999999999999990".to_vec(), 3),
        Choice::Invalid
    );
}

#[test]
fn launcher_cancellation_is_silent() {
    assert_eq!(parse_launcher_choice(false, &b"1".to_vec(), 3), Choice::Cancelled);
    assert_eq!(parse_launcher_choice(true, &b"".to_vec(), 3), Choice::Cancelled);
    assert_eq!(parse_launcher_choice(true, &b" \n ".to_vec(), 3), Choice::Cancelled);
}

#[test]
fn prompt_with_username_selects_username() {
    assert_eq!(field_for_prompt(&b"Enter Username:".to_vec()), FieldKind::Username);
    assert_eq!(field_for_prompt(&b"USERNAME".to_vec()), FieldKind::Username);
    assert_eq!(field_for_prompt(&b"uSeRnAmE please".to_vec()), FieldKind::Username);
}

#[test]
fn username_found_at_either_end() {
    assert_eq!(field_for_prompt(&b"username:".to_vec()), FieldKind::Username);
    assert_eq!(field_for_prompt(&b"Give me the Username".to_vec()), FieldKind::Username);
}

#[test]
fn other_prompt_selects_password() {
    assert_eq!(field_for_prompt(&b"Login".to_vec()), FieldKind::Password);
    assert_eq!(field_for_prompt(&b"user name".to_vec()), FieldKind::Password);
    assert_eq!(field_for_prompt(&b"".to_vec()), FieldKind::Password);
}

#[test]
fn trim_strips_surrounding_whitespace() {
    assert_eq!(trim_bytes(&b"  hunter2\n".to_vec()), b"hunter2".to_vec());
    assert_eq!(trim_bytes(&b"\t a b \r\n".to_vec()), b"a b".to_vec());
    assert_eq!(trim_bytes(&b" \n\t ".to_vec()), b"".to_vec());
    assert_eq!(trim_bytes(&b"x".to_vec()), b"x".to_vec());
}

#[test]
fn trim_matches_the_str_trim_set() {
    // Vertical tab and form feed are whitespace.
    assert_eq!(trim_bytes(&b"\x0b\x0cx\x0c\x0b".to_vec()), b"x".to_vec());
    // So are NEL, NBSP, the Unicode space separators, and the ideographic space.
    let padded = "\u{85}\u{a0}\u{1680}\u{2003}x\u{200a}\u{2028}\u{2029}\u{202f}\u{205f}\u{3000}";
    assert_eq!(trim_bytes(&padded.as_bytes().to_vec()), b"x".to_vec());
    assert_eq!("  hunter2\u{c}\u{a0}".trim().as_bytes().to_vec(),
        trim_bytes(&"  hunter2\u{c}\u{a0}".as_bytes().to_vec()));
    // Interior bytes are kept exactly.
    let inner = "a\u{a0} \u{3000}b";
    assert_eq!(trim_bytes(&inner.as_bytes().to_vec()), inner.as_bytes().to_vec());
    // ZWSP is not whitespace; neither is an isolated continuation byte.
    assert_eq!(
        trim_bytes(&"\u{200b}x".as_bytes().to_vec()),
        "\u{200b}x".as_bytes().to_vec()
    );
    assert_eq!(trim_bytes(&b"\xa0x".to_vec()), b"\xa0x".to_vec());
}

#[test]
fn empty_labels_yield_no_selection() {
    assert!(labels_for_selection(Vec::new()).is_none());
    let ls = labels_for_selection(vec![b"password".to_vec()]).unwrap();
    assert_eq!(ls, vec![b"password".to_vec()]);
}

#[test]
fn end_to_end_terminal_pipeline() {
    // The listing step, on the CLI's response.
    let list = br#"[{"id":"abc","title":"GitHub"}]"#.to_vec();
    let items = parse_item_list(&list).unwrap();
    let titles = titles_for_selection(&items).unwrap();
    assert_eq!(titles, vec![b"GitHub".to_vec()]);
    // The user picks "GitHub"; it maps back to the item's id.
    let k = find_first_by_title(&items, &b"GitHub".to_vec()).unwrap();
    let id = id_at(&items, k).unwrap();
    assert_eq!(id, b"abc".to_vec());
    // The field enumeration for that id, and the user's pick.
    let detail = br#"{"fields":[{"label":"password"},{"label":"notesPlain"}]}"#.to_vec();
    let labels = labels_for_selection(parse_field_labels(&detail).unwrap()).unwrap();
    assert_eq!(labels, vec![b"password".to_vec(), b"notesPlain".to_vec()]);
    let chosen = &labels[0];
    assert_eq!(chosen, &b"password".to_vec());
    // The revealed value is printed exactly as trimmed.
    let fetched = b"s3cret\n".to_vec();
    assert_eq!(trim_bytes(&fetched), b"s3cret".to_vec());
}
