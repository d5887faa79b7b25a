//! A client library for TaPeer, a peer-to-peer file and text snippet sharing service:
//! the API payloads, the server endpoints, the choice of an item from a user's selector,
//! and the labels of the item list.
pub mod client;
pub mod format;
pub mod listing;
pub mod models;
pub mod resolve;
pub mod text;

pub use client::TaPeerClient;
pub use format::{format_expiry, format_size};
pub use models::{ItemType, SharedItem, TextPayload, TextResponse, UploadResponse};
pub use resolve::{resolve_target, ResolveError};
