use parcad::ui::{carries_ui, mime_type, Embedded};

#[test]
fn an_embedded_file_is_served_with_its_type() {
    let table: [(&str, &[u8]); 2] = [("index.html", b"<html>"), ("assets/app.js", b"let a;")];
    assert!(carries_ui(&table));
    let asset = Embedded.get(&table, "assets/app.js").expect("it is in the table");
    assert_eq!(asset.bytes, b"let a;".to_vec());
    assert_eq!(asset.mime_type, mime_type("assets/app.js"));
    assert!(Embedded.get(&table, "missing.css").is_none());
    assert!(!carries_ui(&[]));
    assert!(Embedded.how_to_embed().contains("bun run build"));
}

#[test]
fn types_follow_the_extension() {
    assert_eq!(mime_type("index.html"), "text/html; charset=utf-8");
    assert_eq!(mime_type("a.b/c"), "application/octet-stream");
}
