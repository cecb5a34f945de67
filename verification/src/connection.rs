//! One connection: what the frames that come in from a client mean, and what
//! the server does on each of them.

use crate::editor::{Editor, MessageAction};
use crate::encoding::{decode_client, DecodeError};
use crate::protocol::{ClientMessage, ClientNote};
use vstd::prelude::*;

verus! {

/// What came in from the transport.
#[derive(Debug, PartialEq, Eq)]
pub enum Frame {
    /// The connection has ended, with a closing frame or without.
    Closed,
    /// A text frame.
    Text,
    /// A binary frame, with its bytes.
    Binary(Vec<u8>),
    /// A ping, with its payload.
    Ping(Vec<u8>),
    /// A pong.
    Pong,
}

/// What a frame was found to be.
#[derive(Debug, PartialEq, Eq)]
pub enum Received {
    /// A message of the client.
    Message(ClientMessage),
    /// A ping: answer with a pong of this payload and go on receiving.
    Pong(Vec<u8>),
    /// Nothing for the protocol: go on receiving.
    Skip,
    /// A frame of a kind that the protocol does not know.
    Unexpected,
    /// A binary frame that is no message.
    Invalid(DecodeError),
}

/// What a connection does after a frame.
#[derive(Debug, PartialEq, Eq)]
pub enum FrameAction {
    /// An edit was applied: wake every connection, then go on.
    Applied,
    /// Answer with a pong of this payload, then go on receiving.
    Pong(Vec<u8>),
    /// Go on receiving.
    Skip,
    /// Send `OutOfSync`, then end the connection.
    OutOfSync,
    /// End the connection without an answer: the client has gone.
    Disconnected,
    /// End the connection without an answer: the frame was of a kind that
    /// the protocol does not know.
    Unexpected,
    /// End the connection without an answer: the frame was no message.
    Invalid,
}

/// Finds what a frame is: the end of the connection stands for the message
/// `Disconnected`, a binary frame is decoded, a ping asks for its pong, a
/// pong is passed over, and a text frame is not expected.
pub fn receive(frame: Frame) -> (received: Received)
    ensures
        match frame {
            Frame::Closed => received == Received::Message(ClientMessage::Disconnected),
            Frame::Text => received is Unexpected,
            Frame::Binary(data) => match decode_client(data@) {
                Some(note) => received matches Received::Message(message) && message@ == note
                    && message.wf(),
                None => received is Invalid,
            },
            Frame::Ping(payload) => received == Received::Pong(payload),
            Frame::Pong => received is Skip,
        },
{
    match frame {
        Frame::Closed => Received::Message(ClientMessage::Disconnected),
        Frame::Text => Received::Unexpected,
        Frame::Binary(data) => match ClientMessage::decode(data.as_slice()) {
            Ok(message) => Received::Message(message),
            Err(error) => Received::Invalid(error),
        },
        Frame::Ping(payload) => Received::Pong(payload),
        Frame::Pong => Received::Skip,
    }
}

impl Editor {
    /// Handles one frame of a client. Only an edit that is accepted changes
    /// the document; a ping or a pong changes nothing at all.
    pub fn handle_frame(&mut self, frame: Frame) -> (action: FrameAction)
        requires
            old(self).wf(),
        ensures
            final(self).wf(),
            match frame {
                Frame::Closed => action is Disconnected && *final(self) == *old(self),
                Frame::Text => action is Unexpected && *final(self) == *old(self),
                Frame::Binary(data) => match decode_client(data@) {
                    Some(ClientNote::Edit { last_seen_revision, operations }) => {
                        &&& final(self)@ == old(self)@.edit(last_seen_revision, operations)
                        &&& if old(self)@.refusal(last_seen_revision, operations) is None {
                            action is Applied
                        } else {
                            action is OutOfSync && *final(self) == *old(self)
                        }
                    },
                    Some(ClientNote::Disconnected) => action is Disconnected && *final(self)
                        == *old(self),
                    None => action is Invalid && *final(self) == *old(self),
                },
                Frame::Ping(payload) => action == FrameAction::Pong(payload) && *final(self)
                    == *old(self),
                Frame::Pong => action is Skip && *final(self) == *old(self),
            },
    {
        match receive(frame) {
            Received::Message(message) => match self.handle_message(message) {
                MessageAction::Applied => FrameAction::Applied,
                MessageAction::Disconnected => FrameAction::Disconnected,
                MessageAction::OutOfSync => FrameAction::OutOfSync,
            },
            Received::Pong(payload) => FrameAction::Pong(payload),
            Received::Skip => FrameAction::Skip,
            Received::Unexpected => FrameAction::Unexpected,
            Received::Invalid(_) => FrameAction::Invalid,
        }
    }
}

} // verus!
