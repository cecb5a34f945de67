//! The editor: it owns the document, takes the edits of the clients and
//! tells each connection what to send to its client.

use crate::document::{log_of, Document, EditError, Revision, State};
use crate::operation::OperationSeq;
use crate::protocol::{ClientMessage, ClientNote, ServerMessage, ServerNote};
use vstd::prelude::*;
use vstd::string::*;

verus! {

/// What a connection has sent to its client so far.
#[derive(Debug, Clone, Copy, PartialEq, Eq)]
pub struct Session {
    /// The last revision that the client has been sent.
    pub seen_revision: Revision,
    /// Whether the next revisions go out in full, as history, and not as a
    /// bare acknowledgement.
    pub must_send_full_history: bool,
}

impl Session {
    /// Notes that the connection was woken: something has changed, so the
    /// next revisions go out in full.
    pub fn wake(&mut self)
        ensures
            final(self).seen_revision == old(self).seen_revision,
            final(self).must_send_full_history,
    {
        self.must_send_full_history = true;
    }
}

/// What a connection does after a client's message has been handled.
#[derive(Debug, Clone, Copy, PartialEq, Eq)]
pub enum MessageAction {
    /// The edit was applied: wake every connection and go on.
    Applied,
    /// The client has gone: end the connection without an answer.
    Disconnected,
    /// The edit was refused: send `OutOfSync`, then end the connection.
    OutOfSync,
}

/// The owner of the document.
#[derive(Debug)]
pub struct Editor {
    state: State,
}

impl View for Editor {
    type V = Document;

    closed spec fn view(&self) -> Document {
        self.state@
    }
}

impl Editor {
    /// The document is well formed.
    pub closed spec fn wf(&self) -> bool {
        self.state.wf()
    }

    /// What `wf` says of the view.
    pub proof fn lemma_wf(&self)
        requires
            self.wf(),
        ensures
            self@.consistent(),
            self@.revision() <= usize::MAX,
            self@.text.len() <= usize::MAX,
    {
        self.state.lemma_wf();
    }

    /// The editor of the document `state`.
    pub fn new(state: State) -> (editor: Editor)
        ensures
            editor@ == state@,
            editor.wf() == state.wf(),
    {
        Editor { state }
    }

    /// The document.
    pub fn state(&self) -> (state: &State)
        ensures
            state@ == self@,
            state.wf() == self.wf(),
    {
        &self.state
    }

    /// Applies a client's edit, written against revision `from`. A refused
    /// edit leaves the document as it was.
    pub fn apply_edit(&mut self, from: Revision, operation: OperationSeq) -> (res: Result<
        (),
        EditError,
    >)
        requires
            old(self).wf(),
            operation.wf(),
        ensures
            final(self).wf(),
            final(self)@ == old(self)@.edit(from as nat, operation@),
            match res {
                Ok(_) => old(self)@.refusal(from as nat, operation@) is None,
                Err(error) => old(self)@.refusal(from as nat, operation@) == Some(error),
            },
            res is Err ==> *final(self) == *old(self),
            res is Ok ==> final(self)@.revision() == old(self)@.revision() + 1,
    {
        self.state.apply_edit(from, operation)
    }

    /// The edits from revision `from` on.
    pub fn history_since(&self, from: Revision) -> (history: Vec<OperationSeq>)
        requires
            from <= self@.revision(),
        ensures
            log_of(history@) == self@.log.skip(from as int),
            self.wf() ==> forall|k: int| 0 <= k < history.len() ==> (#[trigger] history[k]).wf(),
    {
        self.state.history_since(from)
    }

    /// The message that tells a client at revision `from` what it is
    /// missing: the history since `from`, or nothing where there is none.
    pub fn send_history(&self, from: Revision) -> (message: Option<ServerMessage>)
        requires
            from <= self@.revision(),
        ensures
            from == self@.revision() ==> message is None,
            from < self@.revision() ==> message is Some && message->0@ == (ServerNote::History {
                start: from as nat,
                operations: self@.log.skip(from as int),
            }),
            self.wf() && message is Some ==> message->0.wf(),
    {
        if from == self.state.revision() {
            None
        } else {
            Some(ServerMessage::History { start: from, operations: self.state.history_since(from) })
        }
    }

    /// Handles a client's message: an edit is applied to the document.
    pub fn handle_message(&mut self, message: ClientMessage) -> (action: MessageAction)
        requires
            old(self).wf(),
            message.wf(),
        ensures
            final(self).wf(),
            match message@ {
                ClientNote::Edit { last_seen_revision, operations } => {
                    &&& final(self)@ == old(self)@.edit(last_seen_revision, operations)
                    &&& action == (if old(self)@.refusal(last_seen_revision, operations) is None {
                        MessageAction::Applied
                    } else {
                        MessageAction::OutOfSync
                    })
                },
                ClientNote::Disconnected => {
                    &&& *final(self) == *old(self)
                    &&& action == MessageAction::Disconnected
                },
            },
            action != MessageAction::Applied ==> *final(self) == *old(self),
    {
        match message {
            ClientMessage::Edit { last_seen_revision, operations } => {
                match self.apply_edit(last_seen_revision, operations) {
                    Ok(_) => MessageAction::Applied,
                    Err(_) => MessageAction::OutOfSync,
                }
            },
            ClientMessage::Disconnected => MessageAction::Disconnected,
        }
    }

    /// Starts a connection: the message that gives the client the document
    /// as it is, and the session of a client that has seen it.
    pub fn open_session(&self) -> (start: (Session, ServerMessage))
        ensures
            start.0.seen_revision == self@.revision(),
            start.0.must_send_full_history,
            start.1@ == (ServerNote::Init { revision: self@.revision(), text: self@.text }),
            start.1.wf(),
    {
        let revision = self.state.revision();
        let session = Session { seen_revision: revision, must_send_full_history: true };
        let text = String::from_str(self.state.text());
        (session, ServerMessage::Init { revision, text })
    }

    /// One round of a connection: the message that brings the client up to
    /// the current revision, if the client is behind it. After a wake-up
    /// that is the history since what the client has seen; else it is a
    /// bare acknowledgement of the current revision.
    pub fn sync(&self, session: &mut Session) -> (message: Option<ServerMessage>)
        ensures
            !final(session).must_send_full_history,
            old(session).seen_revision >= self@.revision() ==> {
                &&& message is None
                &&& final(session).seen_revision == old(session).seen_revision
            },
            old(session).seen_revision < self@.revision() ==> {
                &&& message is Some
                &&& final(session).seen_revision == self@.revision()
                &&& message->0@ == (if old(session).must_send_full_history {
                    ServerNote::History {
                        start: old(session).seen_revision as nat,
                        operations: self@.log.skip(old(session).seen_revision as int),
                    }
                } else {
                    ServerNote::Ack { up_to: self@.revision() }
                })
            },
            self.wf() && message is Some ==> message->0.wf(),
    {
        let current = self.state.revision();
        let message = if current > session.seen_revision {
            let message = if session.must_send_full_history {
                self.send_history(session.seen_revision)
            } else {
                Some(ServerMessage::Ack { up_to: current })
            };
            session.seen_revision = current;
            message
        } else {
            None
        };
        session.must_send_full_history = false;
        message
    }
}

} // verus!
