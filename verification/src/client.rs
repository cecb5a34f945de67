//! The client's side: edits built with 32-bit counts, as a scripting host
//! counts, their bytes for the server, and the server's messages read.

use crate::document::Revision;
use crate::encoding::{decode_client, decode_server, edit_bytes};
use crate::model::{
    base_len, compose_steps, is_identity, push_delete, push_insert, push_retain, target_len,
    transform_steps, Step,
};
use crate::operation::{steps_of, Operation};
use crate::protocol::{ClientNote, ServerMessage};
use vstd::prelude::*;
use vstd::string::*;

verus! {

/// A step as a host sees it: every count is a 32-bit number, and an inserted
/// text comes with its length in codepoints.
#[derive(Debug, PartialEq, Eq)]
pub enum JsOperation {
    Insert { text: String, len_codepoints: u32 },
    Retain { num_codepoints: u32 },
    Delete { num_codepoints: u32 },
}

/// The step `operation` as a host sees it.
pub fn operation_to_js(operation: &Operation) -> (js: JsOperation)
    requires
        operation@.size() <= u32::MAX,
    ensures
        match operation@ {
            Step::Insert(text) => js matches JsOperation::Insert { text: copy, len_codepoints }
                && copy@ == text && len_codepoints == text.len(),
            Step::Retain(n) => js == (JsOperation::Retain { num_codepoints: n as u32 }),
            Step::Delete(n) => js == (JsOperation::Delete { num_codepoints: n as u32 }),
        },
{
    match operation {
        Operation::Insert(text) => JsOperation::Insert {
            text: text.clone(),
            len_codepoints: text.as_str().unicode_len() as u32,
        },
        Operation::Delete(n) => JsOperation::Delete { num_codepoints: *n as u32 },
        Operation::Retain(n) => JsOperation::Retain { num_codepoints: *n as u32 },
    }
}

/// An edit, as a host builds it.
#[derive(Debug, PartialEq, Eq)]
pub struct OperationSeq(pub crate::operation::OperationSeq);

impl View for OperationSeq {
    type V = Seq<Step>;

    open spec fn view(&self) -> Seq<Step> {
        self.0@
    }
}

impl OperationSeq {
    /// The edit is well formed.
    pub open spec fn wf(&self) -> bool {
        self.0.wf()
    }

    /// The edit without steps.
    pub fn new() -> (seq: OperationSeq)
        ensures
            seq.wf(),
            seq@ == Seq::<Step>::empty(),
            base_len(seq@) == 0,
            target_len(seq@) == 0,
    {
        OperationSeq(crate::operation::OperationSeq::new())
    }

    /// Whether the edit changes nothing.
    pub fn is_noop(&self) -> (noop: bool)
        ensures
            noop == is_identity(self@),
    {
        self.0.is_noop()
    }

    /// The steps of the edit as a host sees them.
    pub fn to_js(&self) -> (steps: Vec<JsOperation>)
        requires
            forall|i: int| 0 <= i < self@.len() ==> (#[trigger] self@[i]).size() <= u32::MAX,
        ensures
            steps.len() == self@.len(),
            forall|i: int|
                0 <= i < steps.len() ==> match self@[i] {
                    Step::Insert(text) => (#[trigger] steps[i]) matches JsOperation::Insert {
                        text: copy,
                        len_codepoints,
                    } && copy@ == text && len_codepoints == text.len(),
                    Step::Retain(n) => steps[i] == (JsOperation::Retain {
                        num_codepoints: n as u32,
                    }),
                    Step::Delete(n) => steps[i] == (JsOperation::Delete {
                        num_codepoints: n as u32,
                    }),
                },
    {
        let ops = self.0.ops();
        let mut steps: Vec<JsOperation> = Vec::new();
        let mut i: usize = 0;
        while i < ops.len()
            invariant
                i <= ops.len(),
                steps.len() == i,
                steps_of(ops@) == self@,
                forall|k: int| 0 <= k < self@.len() ==> (#[trigger] self@[k]).size() <= u32::MAX,
                forall|k: int|
                    0 <= k < i ==> match self@[k] {
                        Step::Insert(text) => (#[trigger] steps[k]) matches JsOperation::Insert {
                            text: copy,
                            len_codepoints,
                        } && copy@ == text && len_codepoints == text.len(),
                        Step::Retain(n) => steps[k] == (JsOperation::Retain {
                            num_codepoints: n as u32,
                        }),
                        Step::Delete(n) => steps[k] == (JsOperation::Delete {
                            num_codepoints: n as u32,
                        }),
                    },
            decreases ops.len() - i,
        {
            proof {
                assert(self@[i as int].size() <= u32::MAX);
                assert(self@[i as int] == ops@[i as int]@);
            }
            steps.push(operation_to_js(&ops[i]));
            i += 1;
        }
        steps
    }

    /// Transforms this edit and `other`, two edits of one text, against
    /// each other. The two edits that come back are this edit as it reads
    /// after `other`, and `other` as it reads after this edit. It fails, in
    /// words, if and only if the two are for texts of different lengths.
    pub fn transform(&self, other: &OperationSeq) -> (res: Result<Vec<OperationSeq>, String>)
        requires
            self.wf(),
            other.wf(),
            base_len(self@) == base_len(other@) ==> target_len(transform_steps(self@, other@).0)
                <= usize::MAX,
        ensures
            res is Ok <==> base_len(self@) == base_len(other@),
            res matches Ok(pair) ==> {
                &&& pair.len() == 2
                &&& pair[0].wf()
                &&& pair[1].wf()
                &&& pair[0]@ == transform_steps(self@, other@).0
                &&& pair[1]@ == transform_steps(self@, other@).1
            },
            res matches Err(words) ==> words@ == "incompatible lengths"@,
    {
        match self.0.transform(&other.0) {
            Ok(pair) => {
                let mut both: Vec<OperationSeq> = Vec::new();
                both.push(OperationSeq(pair.0));
                both.push(OperationSeq(pair.1));
                Ok(both)
            },
            Err(error) => Err(error.message()),
        }
    }

    /// Composes this edit and `other` into one that does what this edit
    /// and then `other` do. It fails, in words, if and only if this edit
    /// makes a text of another length than `other` is for.
    pub fn compose(&self, other: &OperationSeq) -> (res: Result<OperationSeq, String>)
        requires
            self.wf(),
            other.wf(),
        ensures
            res is Ok <==> target_len(self@) == base_len(other@),
            res matches Ok(both) ==> both.wf() && both@ == compose_steps(self@, other@),
            res matches Err(words) ==> words@ == "incompatible lengths"@,
    {
        match self.0.compose(&other.0) {
            Ok(both) => Ok(OperationSeq(both)),
            Err(error) => Err(error.message()),
        }
    }

    /// Keeps the next `n` codepoints.
    pub fn retain(&mut self, n: u32)
        requires
            old(self).wf(),
            base_len(old(self)@) + n <= usize::MAX,
            target_len(old(self)@) + n <= usize::MAX,
        ensures
            final(self).wf(),
            final(self)@ == push_retain(old(self)@, n as nat),
            base_len(final(self)@) == base_len(old(self)@) + n,
            target_len(final(self)@) == target_len(old(self)@) + n,
    {
        self.0.retain(n as u64);
    }

    /// Drops the next `n` codepoints.
    pub fn delete_(&mut self, n: u32)
        requires
            old(self).wf(),
            base_len(old(self)@) + n <= usize::MAX,
        ensures
            final(self).wf(),
            final(self)@ == push_delete(old(self)@, n as nat),
            base_len(final(self)@) == base_len(old(self)@) + n,
            target_len(final(self)@) == target_len(old(self)@),
    {
        self.0.delete(n as u64);
    }

    /// Adds the text `text`.
    pub fn insert(&mut self, text: &str)
        requires
            old(self).wf(),
            target_len(old(self)@) + text@.len() <= usize::MAX,
        ensures
            final(self).wf(),
            final(self)@ == push_insert(old(self)@, text@),
            base_len(final(self)@) == base_len(old(self)@),
            target_len(final(self)@) == target_len(old(self)@) + text@.len(),
    {
        self.0.insert(text);
    }
}

/// The bytes of the message that asks the server to apply `operations` on
/// top of the document as it was at `last_seen_revision`.
pub fn encode_edit(last_seen_revision: Revision, operations: &OperationSeq) -> (bytes: Vec<u8>)
    requires
        operations.wf(),
    ensures
        bytes@ == edit_bytes(last_seen_revision as nat, operations@),
        decode_client(bytes@) == Some(
            ClientNote::Edit {
                last_seen_revision: last_seen_revision as nat,
                operations: operations@,
            },
        ),
{
    crate::encoding::encode_edit(last_seen_revision, &operations.0)
}

/// The server's message that the bytes `data` are. It fails, in words, if
/// and only if they are none.
pub fn decode(data: &[u8]) -> (res: Result<ServerMessage, String>)
    ensures
        match res {
            Ok(message) => message.wf() && decode_server(data@) == Some(message@),
            Err(words) => decode_server(data@) is None && words@ == "invalid message"@,
        },
{
    match ServerMessage::decode(data) {
        Ok(message) => Ok(message),
        Err(error) => Err(error.message()),
    }
}

} // verus!
