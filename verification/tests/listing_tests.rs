use tapeer::listing::{
    active_count_label, content_preview, entry_number, path_text_looks_like_folder, plan_get,
    snippet_file_name, type_badge, SaveTarget,
};
use tapeer::text::{decimal_text, parse_usize_text, trim_text};
use tapeer::{ItemType, SharedItem};

fn item(id: &str, name: &str, item_type: ItemType, content: Option<&str>) -> SharedItem {
    SharedItem {
        id: id.to_string(),
        original_name: name.to_string(),
        mime_type: "text/plain".to_string(),
        size: 28,
        upload_time: 0,
        expiry_time: 0,
        item_type,
        content: content.map(|c| c.to_string()),
    }
}

#[test]
fn list_labels() {
    assert_eq!(entry_number(0), "#1");
    assert_eq!(entry_number(41), "#42");
    assert_eq!(active_count_label(2), "(2 elementos activos)");
    assert_eq!(type_badge(ItemType::File), ("📦", "Archivo"));
    assert_eq!(type_badge(ItemType::Text), ("📝", "Texto  "));
}

#[test]
fn previews_cut_at_sixty_bytes() {
    assert_eq!(content_preview("wifi-key: secret-2026"), "wifi-key: secret-2026");
    let sixty = "a".repeat(60);
    assert_eq!(content_preview(&sixty), sixty);
    let long = "b".repeat(75);
    assert_eq!(content_preview(&long), format!("{}...", "b".repeat(60)));
    let accented = format!("{}{}", "é".repeat(30), "xyz");
    assert_eq!(content_preview(&accented), format!("{}...", "é".repeat(30)));
}

#[test]
fn folder_paths() {
    assert!(path_text_looks_like_folder("descargas/"));
    assert!(path_text_looks_like_folder("descargas\\"));
    assert!(!path_text_looks_like_folder("notas.txt"));
    assert!(!path_text_looks_like_folder(""));
}

#[test]
fn snippet_names_use_eight_id_bytes() {
    assert_eq!(snippet_file_name("c1f7aa00-0000-41d4"), "c1f7aa00.txt");
    assert_eq!(snippet_file_name("12345678"), "12345678.txt");
}

#[test]
fn text_plans() {
    let inline = item("c1f7aa00-0000", "snippet.txt", ItemType::Text, Some("hola"));
    let p = plan_get(&inline, false, false, false);
    assert!(!p.fetch_snippet && p.print_text && !p.copy_text && p.save.is_none() && !p.download);
    let p = plan_get(&inline, false, false, true);
    assert!(p.copy_text && !p.print_text);
    let p = plan_get(&inline, true, true, false);
    assert!(matches!(p.save, Some(SaveTarget::SnippetIntoFolder)));
    assert!(!p.print_text);
    let p = plan_get(&inline, true, false, true);
    assert!(matches!(p.save, Some(SaveTarget::AsGiven)));
    let remote = item("c1f7aa00-0000", "snippet.txt", ItemType::Text, None);
    assert!(plan_get(&remote, false, false, false).fetch_snippet);
}

#[test]
fn file_plans() {
    let f = item("550e8400", "report.pdf", ItemType::File, None);
    let p = plan_get(&f, false, false, true);
    assert!(p.download && p.copy_path && !p.print_text && !p.fetch_snippet);
    assert!(matches!(p.save, Some(SaveTarget::InCurrentDir(ref n)) if n == "report.pdf"));
    let p = plan_get(&f, true, true, false);
    assert!(matches!(p.save, Some(SaveTarget::IntoFolder(ref n)) if n == "report.pdf"));
    let p = plan_get(&f, true, false, false);
    assert!(matches!(p.save, Some(SaveTarget::AsGiven)));
}

#[test]
fn text_helpers() {
    assert_eq!(trim_text("\u{3000} hola\t\n"), "hola");
    assert_eq!(trim_text("   "), "");
    assert_eq!(decimal_text(0), "0");
    assert_eq!(decimal_text(1234567890), "1234567890");
    let digits: Vec<char> = "+17".chars().collect();
    assert_eq!(parse_usize_text(&digits), Some(17));
    let minus: Vec<char> = "-0".chars().collect();
    assert_eq!(parse_usize_text(&minus), None);
    let plus: Vec<char> = "+".chars().collect();
    assert_eq!(parse_usize_text(&plus), None);
    let big: Vec<char> = usize::MAX.to_string().chars().collect();
    assert_eq!(parse_usize_text(&big), Some(usize::MAX));
    let over: Vec<char> = "18446744073709551616".chars().collect();
    assert_eq!(parse_usize_text(&over), None);
}
