//! The messages that clients and the server exchange.

use crate::document::{log_of, Revision};
use crate::model::Step;
use crate::operation::OperationSeq;
use vstd::prelude::*;

verus! {

/// A message from a client to the server.
#[derive(Debug, PartialEq, Eq)]
pub enum ClientMessage {
    /// "Server, please apply `operations` on top of the document as it was
    /// at `last_seen_revision`."
    Edit { last_seen_revision: Revision, operations: OperationSeq },
    /// The client has gone. No client sends this: the server makes it of a
    /// closed connection.
    Disconnected,
}

/// A client's message as a mathematical value.
pub enum ClientNote {
    Edit { last_seen_revision: nat, operations: Seq<Step> },
    Disconnected,
}

impl View for ClientMessage {
    type V = ClientNote;

    open spec fn view(&self) -> ClientNote {
        match self {
            ClientMessage::Edit { last_seen_revision, operations } => ClientNote::Edit {
                last_seen_revision: *last_seen_revision as nat,
                operations: operations@,
            },
            ClientMessage::Disconnected => ClientNote::Disconnected,
        }
    }
}

impl ClientMessage {
    /// The edit that the message carries, if any, is well formed.
    pub open spec fn wf(&self) -> bool {
        match self {
            ClientMessage::Edit { operations, .. } => operations.wf(),
            ClientMessage::Disconnected => true,
        }
    }
}

/// A message from the server to a client.
#[derive(Debug, PartialEq, Eq)]
pub enum ServerMessage {
    /// The document as it is when the connection starts.
    Init { revision: Revision, text: String },
    /// "Client, since `start`, `operations` have occurred."
    History { start: Revision, operations: Vec<OperationSeq> },
    /// "Client, the document is at revision `up_to`, and nothing of it is
    /// new to you."
    Ack { up_to: Revision },
    /// The client's view of the history cannot be reconciled with the log.
    OutOfSync,
}

/// A server's message as a mathematical value.
pub enum ServerNote {
    Init { revision: nat, text: Seq<char> },
    History { start: nat, operations: Seq<Seq<Step>> },
    Ack { up_to: nat },
    OutOfSync,
}

impl View for ServerMessage {
    type V = ServerNote;

    open spec fn view(&self) -> ServerNote {
        match self {
            ServerMessage::Init { revision, text } => ServerNote::Init {
                revision: *revision as nat,
                text: text@,
            },
            ServerMessage::History { start, operations } => ServerNote::History {
                start: *start as nat,
                operations: log_of(operations@),
            },
            ServerMessage::Ack { up_to } => ServerNote::Ack { up_to: *up_to as nat },
            ServerMessage::OutOfSync => ServerNote::OutOfSync,
        }
    }
}

impl ServerMessage {
    /// The edits that the message carries, if any, are well formed.
    pub open spec fn wf(&self) -> bool {
        match self {
            ServerMessage::History { operations, .. } => forall|k: int|
                0 <= k < operations.len() ==> (#[trigger] operations[k]).wf(),
            _ => true,
        }
    }
}

} // verus!
