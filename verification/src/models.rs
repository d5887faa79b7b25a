//! The payloads of the TaPeer REST API.
use vstd::prelude::*;

verus! {

/// The kind of a shared item: a file or a text snippet.
#[derive(Debug, Clone, Copy, PartialEq, Eq, Structural)]
pub enum ItemType {
    File,
    Text,
}

/// One element of the list that `GET /items` returns.
#[derive(Debug, Clone)]
pub struct SharedItem {
    pub id: String,
    pub original_name: String,
    pub mime_type: String,
    pub size: u64,
    pub upload_time: u64,
    pub expiry_time: u64,
    pub item_type: ItemType,
    /// Present only for text items; absent (or null) for files.
    pub content: Option<String>,
}

/// The body sent to `POST /text` to share a text.
#[derive(Debug, Clone)]
pub struct TextPayload {
    pub text: String,
}

/// The answer of `POST /text`.
#[derive(Debug, Clone)]
pub struct TextResponse {
    pub id: String,
    pub snippet_url: String,
    pub expiry_time: u64,
}

/// The answer of `POST /upload`.
#[derive(Debug, Clone)]
pub struct UploadResponse {
    pub id: String,
    pub file_name: String,
    pub download_url: String,
    pub expiry_time: u64,
}

impl TextPayload {
    /// The payload that shares `text` as it is.
    pub fn new(text: &str) -> (payload: TextPayload)
        ensures
            payload.text@ == text@,
    {
        TextPayload { text: String::from_str(text) }
    }
}

} // verus!
