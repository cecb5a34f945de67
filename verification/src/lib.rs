//! Many clients edit one plain text together. The server keeps the text and
//! an append-only log of the edits that made it; an edit that a client wrote
//! against an earlier revision is transformed against the edits it has not
//! seen, so that every client ends with the same text.
//!
//! - `model` says what an edit is and what applying, composing and
//!   transforming edits means; `laws` holds what is proved of that.
//! - `operation`, `compose` and `transform` are the edits themselves.
//! - `document` and `editor` are the text with its log, and the sessions of
//!   the connections.
//! - `protocol`, `wire`, `codec` and `encoding` are the messages and their
//!   bytes; `connection` handles the frames that carry them.
//! - `client` is what a client needs of all this.

pub mod client;
pub mod codec;
pub mod compose;
pub mod connection;
pub mod document;
pub mod editor;
pub mod encoding;
pub mod laws;
pub mod model;
pub mod operation;
pub mod proofs;
pub mod protocol;
pub mod transform;
pub mod wire;
