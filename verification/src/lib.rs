//! Tael - terminal-agnostic agent inbox.
//!
//! Tracks one entry per terminal pane running an assistant.  Each entry
//! carries free-form key/value attributes and a two-state status, and the
//! whole collection round-trips through a human-editable text document.

pub mod config;
pub mod parse;
pub mod render;
pub mod roundtrip;
pub mod text;
pub mod transform;
pub mod tui;
pub mod types;

pub use types::Inbox;
pub use types::InboxItem;
pub use types::Status;
