use tapeer::resolve::{resolve_index, ResolveError};
use tapeer::{resolve_target, ItemType, SharedItem};

fn item(id: &str, name: &str, item_type: ItemType, content: Option<&str>) -> SharedItem {
    SharedItem {
        id: id.to_string(),
        original_name: name.to_string(),
        mime_type: "application/octet-stream".to_string(),
        size: 10,
        upload_time: 1,
        expiry_time: 2,
        item_type,
        content: content.map(|c| c.to_string()),
    }
}

fn sample() -> Vec<SharedItem> {
    vec![
        item("550e8400-e29b-41d4-a716-446655440000", "report.pdf", ItemType::File, None),
        item("c1f7aa00-0000-41d4-a716-446655440001", "snippet.txt", ItemType::Text, Some("wifi-key: secret-2026")),
        item("12ab0000-0000-41d4-a716-446655440002", "Photo.PNG", ItemType::File, None),
        item("9f000000-0000-41d4-a716-446655440003", "notes.txt", ItemType::Text, Some("hola")),
    ]
}

#[test]
fn empty_list_is_an_error() {
    let items: Vec<SharedItem> = vec![];
    assert!(matches!(resolve_target(&items, None), Err(ResolveError::NoItems)));
    assert!(matches!(resolve_target(&items, Some("1")), Err(ResolveError::NoItems)));
}

#[test]
fn no_selector_and_latest_give_first_item() {
    let items = sample();
    assert_eq!(resolve_index(&items, None).unwrap(), 0);
    assert_eq!(resolve_index(&items, Some("latest")).unwrap(), 0);
    assert_eq!(resolve_target(&items, None).unwrap().original_name, "report.pdf");
}

#[test]
fn list_numbers_select_items() {
    let items = sample();
    assert_eq!(resolve_index(&items, Some("1")).unwrap(), 0);
    assert_eq!(resolve_index(&items, Some("2")).unwrap(), 1);
    assert_eq!(resolve_index(&items, Some("4")).unwrap(), 3);
    assert_eq!(resolve_index(&items, Some("  3 ")).unwrap(), 2);
    assert_eq!(resolve_index(&items, Some("+2")).unwrap(), 1);
    assert_eq!(resolve_index(&items, Some("002")).unwrap(), 1);
}

#[test]
fn out_of_range_numbers_are_errors() {
    let items = sample();
    match resolve_index(&items, Some("0")) {
        Err(ResolveError::IndexOutOfRange { index, available }) => {
            assert_eq!(index, 0);
            assert_eq!(available, 4);
        }
        other => panic!("unexpected {:?}", other),
    }
    let err = resolve_index(&items, Some("12")).unwrap_err();
    assert_eq!(
        err.message(),
        "Índice '12' fuera de rango. Hay 4 elementos disponibles (1 a 4)."
    );
}

#[test]
fn id_prefix_selects_first_matching_item() {
    let items = sample();
    assert_eq!(resolve_index(&items, Some("c1f7")).unwrap(), 1);
    assert_eq!(resolve_index(&items, Some("9f")).unwrap(), 3);
    assert_eq!(
        resolve_index(&items, Some("550e8400-e29b-41d4-a716-446655440000")).unwrap(),
        0
    );
    // "12ab" is not a number: it is an id prefix.
    assert_eq!(resolve_index(&items, Some("12ab")).unwrap(), 2);
}

#[test]
fn blank_selector_matches_every_id_prefix() {
    let items = sample();
    assert_eq!(resolve_index(&items, Some("   ")).unwrap(), 0);
    assert_eq!(resolve_index(&items, Some("")).unwrap(), 0);
}

#[test]
fn overflowing_number_falls_back_to_names() {
    let items = sample();
    let err = resolve_index(&items, Some("99999999999999999999999")).unwrap_err();
    assert!(matches!(err, ResolveError::NotFound { .. }));
}

#[test]
fn name_part_matches_case_insensitively() {
    let items = sample();
    assert_eq!(resolve_index(&items, Some("photo")).unwrap(), 2);
    assert_eq!(resolve_index(&items, Some("REPORT")).unwrap(), 0);
    assert_eq!(resolve_index(&items, Some(" notes ")).unwrap(), 3);
}

#[test]
fn several_name_matches_are_ambiguous() {
    let items = sample();
    let err = resolve_index(&items, Some(" .TXT ")).unwrap_err();
    match &err {
        ResolveError::Ambiguous { count, query } => {
            assert_eq!(*count, 2);
            assert_eq!(query, ".TXT");
        }
        other => panic!("unexpected {:?}", other),
    }
    assert_eq!(
        err.message(),
        "Hay 2 elementos que coinciden con '.TXT'. Sé más específico o usa el número de índice."
    );
}

#[test]
fn unknown_selector_is_not_found() {
    let items = sample();
    let err = resolve_index(&items, Some("zzz")).unwrap_err();
    assert_eq!(
        err.message(),
        "No se encontró ningún elemento que coincida con 'zzz'."
    );
    let empty: Vec<SharedItem> = vec![];
    assert_eq!(
        resolve_index(&empty, None).unwrap_err().message(),
        "No hay elementos compartidos disponibles en TaPeer."
    );
}

#[test]
fn latest_with_spaces_is_not_special() {
    let items = vec![
        item("aaaa", "x.bin", ItemType::File, None),
        item("latest-id", "y.bin", ItemType::File, None),
    ];
    assert_eq!(resolve_index(&items, Some("latest")).unwrap(), 0);
    assert_eq!(resolve_index(&items, Some(" latest ")).unwrap(), 1);
}

#[test]
fn every_listed_number_selects_its_item() {
    let items = sample();
    for i in 0..items.len() {
        let selector = (i + 1).to_string();
        assert_eq!(resolve_index(&items, Some(&selector)).unwrap(), i);
    }
}
