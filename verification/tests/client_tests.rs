use tapeer::{TaPeerClient, TextPayload};

#[test]
fn base_url_loses_trailing_slashes() {
    let c = TaPeerClient::new("http://localhost:3000///".to_string());
    assert_eq!(c.base_url(), "http://localhost:3000");
    let d = TaPeerClient::new("http://localhost:3000".to_string());
    assert_eq!(d.base_url(), "http://localhost:3000");
    let e = TaPeerClient::new("///".to_string());
    assert_eq!(e.base_url(), "");
}

#[test]
fn endpoint_urls() {
    let c = TaPeerClient::new("https://my-server.ts.net/tapeer/".to_string());
    assert_eq!(c.items_url(), "https://my-server.ts.net/tapeer/items");
    assert_eq!(c.text_url(), "https://my-server.ts.net/tapeer/text");
    assert_eq!(c.upload_url(), "https://my-server.ts.net/tapeer/upload");
    assert_eq!(c.download_url("abc"), "https://my-server.ts.net/tapeer/download/abc");
    assert_eq!(c.snippet_url("c1f7"), "https://my-server.ts.net/tapeer/snippet/c1f7");
    assert_eq!(c.url_for("/s/abc"), "https://my-server.ts.net/tapeer/s/abc");
}

#[test]
fn text_payload_keeps_text() {
    let p = TextPayload::new("clave wifi: 1234");
    assert_eq!(p.text, "clave wifi: 1234");
}
