//! The messages on the wire. Each message is a map that starts with the
//! entry `kind`, and whose other entries follow in a fixed order.

use crate::codec::{
    edit_item, edit_writable, fits, lemma_edit_round_trip, read_edit, take_edit, write_edit,
};
use crate::document::{log_of, Revision};
use crate::model::{canonical, Step};
use crate::operation::OperationSeq;
use crate::protocol::{ClientMessage, ClientNote, ServerMessage, ServerNote};
use crate::wire::{
    has_at, head, lemma_has_at_split, lemma_head_round_trip, lemma_text_round_trip,
    lemma_unsigned_round_trip, read_head, read_text, read_unsigned, take_head, take_text,
    take_unsigned, text_item, write_head, write_text, write_unsigned, MAJOR_ARRAY, MAJOR_MAP,
    MAJOR_UNSIGNED,
};
use vstd::prelude::*;
use vstd::string::*;
use vstd::utf8::*;

verus! {

/// The error of bytes that are no message.
#[derive(Debug, Clone, Copy, PartialEq, Eq)]
pub struct DecodeError;

impl DecodeError {
    /// The error in words.
    pub fn message(&self) -> (text: String)
        ensures
            text@ == "invalid message"@,
    {
        String::from_str("invalid message")
    }
}

/// The items of the edits of a log, one after the other.
pub open spec fn log_items(log: Seq<Seq<Step>>) -> Seq<u8>
    decreases log.len(),
{
    if log.len() == 0 {
        Seq::empty()
    } else {
        log_items(log.drop_last()) + edit_item(log.last())
    }
}

/// A log as a data item: an array of its edits.
pub open spec fn log_item(log: Seq<Seq<Step>>) -> Seq<u8> {
    head(MAJOR_ARRAY, log.len()) + log_items(log)
}

/// Whether an edit can go over the wire and come back as it is.
pub open spec fn edit_sendable(steps: Seq<Step>) -> bool {
    canonical(steps) && fits(steps) && edit_writable(steps)
}

/// Whether a log can go over the wire and come back as it is.
pub open spec fn log_sendable(log: Seq<Seq<Step>>) -> bool {
    &&& log.len() <= u64::MAX
    &&& forall|i: int| 0 <= i < log.len() ==> edit_sendable(#[trigger] log[i])
}

/// The `count` edits that stand in `s` from `pos` on, and the place after
/// them.
pub open spec fn read_edits(s: Seq<u8>, pos: int, count: nat) -> Option<(Seq<Seq<Step>>, int)>
    decreases count,
{
    if count == 0 {
        Some((Seq::empty(), pos))
    } else {
        match read_edits(s, pos, (count - 1) as nat) {
            Some((front, mid)) => match read_edit(s, mid) {
                Some((edit, end)) => Some((front.push(edit), end)),
                None => None,
            },
            None => None,
        }
    }
}

/// The log that stands in `s` at `pos`, and the place after it.
pub open spec fn read_log(s: Seq<u8>, pos: int) -> Option<(Seq<Seq<Step>>, int)> {
    match read_head(s, pos) {
        Some((major, count, next)) => if major == MAJOR_ARRAY {
            read_edits(s, next, count)
        } else {
            None
        },
        None => None,
    }
}

/// What every message starts with but for the size of its map: the key
/// `kind`.
pub open spec fn kind_key() -> Seq<u8> {
    text_item("kind"@)
}

/// The start of an `Edit` message, up to the revision.
pub open spec fn edit_prefix() -> Seq<u8> {
    head(MAJOR_MAP, 3) + (kind_key() + (text_item("edit"@) + text_item("last_seen_revision"@)))
}

/// The start of an `Init` message, up to the revision.
pub open spec fn init_prefix() -> Seq<u8> {
    head(MAJOR_MAP, 3) + (kind_key() + (text_item("init"@) + text_item("revision"@)))
}

/// The start of a `History` message, up to the revision.
pub open spec fn history_prefix() -> Seq<u8> {
    head(MAJOR_MAP, 3) + (kind_key() + (text_item("history"@) + text_item("start"@)))
}

/// The start of an `Ack` message, up to the revision.
pub open spec fn ack_prefix() -> Seq<u8> {
    head(MAJOR_MAP, 2) + (kind_key() + (text_item("ack"@) + text_item("up_to"@)))
}

/// The whole of an `OutOfSync` message.
pub open spec fn out_of_sync_bytes() -> Seq<u8> {
    head(MAJOR_MAP, 1) + (kind_key() + text_item("out_of_sync"@))
}

/// The key before the edits of a message.
pub open spec fn operations_key() -> Seq<u8> {
    text_item("operations"@)
}

/// The key before the text of a message.
pub open spec fn text_key() -> Seq<u8> {
    text_item("text"@)
}

/// The bytes of an `Edit` message.
pub open spec fn edit_bytes(revision: nat, steps: Seq<Step>) -> Seq<u8> {
    edit_prefix() + (head(MAJOR_UNSIGNED, revision) + (operations_key() + edit_item(steps)))
}

/// The bytes of a server's message.
pub open spec fn server_bytes(note: ServerNote) -> Seq<u8> {
    match note {
        ServerNote::Init { revision, text } => init_prefix() + (head(MAJOR_UNSIGNED, revision) + (
        text_key() + text_item(text))),
        ServerNote::History { start, operations } => history_prefix() + (head(
            MAJOR_UNSIGNED,
            start,
        ) + (operations_key() + log_item(operations))),
        ServerNote::Ack { up_to } => ack_prefix() + head(MAJOR_UNSIGNED, up_to),
        ServerNote::OutOfSync => out_of_sync_bytes(),
    }
}

/// Whether a server's message can go over the wire and come back as it is.
pub open spec fn server_sendable(note: ServerNote) -> bool {
    match note {
        ServerNote::Init { revision, text } => revision <= usize::MAX && encode_utf8(text).len()
            <= u64::MAX,
        ServerNote::History { start, operations } => start <= usize::MAX && log_sendable(
            operations,
        ),
        ServerNote::Ack { up_to } => up_to <= usize::MAX,
        ServerNote::OutOfSync => true,
    }
}

/// The client's message that the bytes `s` are, if they are one: an `Edit`
/// message and nothing after it.
pub open spec fn decode_client(s: Seq<u8>) -> Option<ClientNote> {
    if !has_at(s, 0, edit_prefix()) {
        None
    } else {
        match read_unsigned(s, edit_prefix().len() as int) {
            Some((revision, key)) => if revision <= usize::MAX && has_at(
                s,
                key,
                operations_key(),
            ) {
                match read_edit(s, key + operations_key().len()) {
                    Some((steps, end)) => if end == s.len() {
                        Some(ClientNote::Edit { last_seen_revision: revision, operations: steps })
                    } else {
                        None
                    },
                    None => None,
                }
            } else {
                None
            },
            None => None,
        }
    }
}

/// The `Init` message that `s` is, if it is one.
pub open spec fn decode_init(s: Seq<u8>) -> Option<ServerNote> {
    match read_unsigned(s, init_prefix().len() as int) {
        Some((revision, key)) => if revision <= usize::MAX && has_at(s, key, text_key()) {
            match read_text(s, key + text_key().len()) {
                Some((text, end)) => if end == s.len() {
                    Some(ServerNote::Init { revision, text })
                } else {
                    None
                },
                None => None,
            }
        } else {
            None
        },
        None => None,
    }
}

/// The `History` message that `s` is, if it is one.
pub open spec fn decode_history(s: Seq<u8>) -> Option<ServerNote> {
    match read_unsigned(s, history_prefix().len() as int) {
        Some((start, key)) => if start <= usize::MAX && has_at(s, key, operations_key()) {
            match read_log(s, key + operations_key().len()) {
                Some((operations, end)) => if end == s.len() {
                    Some(ServerNote::History { start, operations })
                } else {
                    None
                },
                None => None,
            }
        } else {
            None
        },
        None => None,
    }
}

/// The `Ack` message that `s` is, if it is one.
pub open spec fn decode_ack(s: Seq<u8>) -> Option<ServerNote> {
    match read_unsigned(s, ack_prefix().len() as int) {
        Some((up_to, end)) => if up_to <= usize::MAX && end == s.len() {
            Some(ServerNote::Ack { up_to })
        } else {
            None
        },
        None => None,
    }
}

/// The server's message that the bytes `s` are, if they are one.
pub open spec fn decode_server(s: Seq<u8>) -> Option<ServerNote> {
    if has_at(s, 0, init_prefix()) {
        decode_init(s)
    } else if has_at(s, 0, history_prefix()) {
        decode_history(s)
    } else if has_at(s, 0, ack_prefix()) {
        decode_ack(s)
    } else if s == out_of_sync_bytes() {
        Some(ServerNote::OutOfSync)
    } else {
        None
    }
}

/// A UTF-8 encoding has at most four bytes for each character.
pub proof fn lemma_utf8_len(chars: Seq<char>)
    ensures
        encode_utf8(chars).len() <= 4 * chars.len(),
    decreases chars.len(),
{
    if chars.len() > 0 {
        lemma_utf8_len(chars.drop_first());
    }
}

/// The names that the format uses are short, and those of `init` and
/// `history` differ.
pub proof fn lemma_names()
    ensures
        encode_utf8("kind"@).len() <= u64::MAX,
        encode_utf8("edit"@).len() <= u64::MAX,
        encode_utf8("init"@).len() <= u64::MAX,
        encode_utf8("history"@).len() <= u64::MAX,
        encode_utf8("ack"@).len() <= u64::MAX,
        encode_utf8("out_of_sync"@).len() <= u64::MAX,
        encode_utf8("last_seen_revision"@).len() <= u64::MAX,
        encode_utf8("revision"@).len() <= u64::MAX,
        encode_utf8("start"@).len() <= u64::MAX,
        encode_utf8("up_to"@).len() <= u64::MAX,
        encode_utf8("operations"@).len() <= u64::MAX,
        encode_utf8("text"@).len() <= u64::MAX,
        "init"@ != "history"@,
{
    reveal_strlit("kind");
    reveal_strlit("edit");
    reveal_strlit("init");
    reveal_strlit("history");
    reveal_strlit("ack");
    reveal_strlit("out_of_sync");
    reveal_strlit("last_seen_revision");
    reveal_strlit("revision");
    reveal_strlit("start");
    reveal_strlit("up_to");
    reveal_strlit("operations");
    reveal_strlit("text");
    lemma_utf8_len("kind"@);
    lemma_utf8_len("edit"@);
    lemma_utf8_len("init"@);
    lemma_utf8_len("history"@);
    lemma_utf8_len("ack"@);
    lemma_utf8_len("out_of_sync"@);
    lemma_utf8_len("last_seen_revision"@);
    lemma_utf8_len("revision"@);
    lemma_utf8_len("start"@);
    lemma_utf8_len("up_to"@);
    lemma_utf8_len("operations"@);
    lemma_utf8_len("text"@);
    assert("init"@.len() != "history"@.len());
}

/// Every sequence of bytes stands at its own start.
pub proof fn lemma_has_at_self(s: Seq<u8>)
    ensures
        has_at(s, 0, s),
{
    assert(s.subrange(0, s.len() as int) =~= s);
}

/// What stands at a place begins with its first byte there.
pub proof fn lemma_has_at_first(s: Seq<u8>, pos: int, part: Seq<u8>)
    requires
        has_at(s, pos, part),
        part.len() > 0,
    ensures
        s[pos] == part[0],
{
    assert(s.subrange(pos, pos + part.len())[0] == s[pos]);
}

/// Two texts that stand at one place are one text.
pub proof fn lemma_one_text_at(s: Seq<u8>, pos: int, a: Seq<char>, b: Seq<char>)
    requires
        encode_utf8(a).len() <= u64::MAX,
        encode_utf8(b).len() <= u64::MAX,
        has_at(s, pos, text_item(a)),
        has_at(s, pos, text_item(b)),
    ensures
        a == b,
{
    lemma_text_round_trip(s, pos, a);
    lemma_text_round_trip(s, pos, b);
}

/// A message that starts as one of another map size, or of another kind
/// among `init` and `history`, does not start as this one.
pub proof fn lemma_prefixes_apart(s: Seq<u8>)
    ensures
        has_at(s, 0, init_prefix()) ==> !has_at(s, 0, history_prefix()) && !has_at(
            s,
            0,
            ack_prefix(),
        ) && s != out_of_sync_bytes(),
        has_at(s, 0, history_prefix()) ==> !has_at(s, 0, ack_prefix()) && s != out_of_sync_bytes(),
        has_at(s, 0, ack_prefix()) ==> s != out_of_sync_bytes(),
{
    lemma_names();
    let three = head(MAJOR_MAP, 3);
    let two = head(MAJOR_MAP, 2);
    let one = head(MAJOR_MAP, 1);
    if has_at(s, 0, init_prefix()) {
        lemma_has_at_first(s, 0, init_prefix());
    }
    if has_at(s, 0, history_prefix()) {
        lemma_has_at_first(s, 0, history_prefix());
    }
    if has_at(s, 0, ack_prefix()) {
        lemma_has_at_first(s, 0, ack_prefix());
    }
    if s == out_of_sync_bytes() {
        lemma_has_at_self(s);
        lemma_has_at_first(s, 0, out_of_sync_bytes());
    }
    if has_at(s, 0, init_prefix()) && has_at(s, 0, history_prefix()) {
        let rest_init = text_item("init"@) + text_item("revision"@);
        let rest_history = text_item("history"@) + text_item("start"@);
        lemma_has_at_split(s, 0, three, kind_key() + rest_init);
        lemma_has_at_split(s, three.len() as int, kind_key(), rest_init);
        lemma_has_at_split(
            s,
            (three.len() + kind_key().len()) as int,
            text_item("init"@),
            text_item("revision"@),
        );
        lemma_has_at_split(s, 0, three, kind_key() + rest_history);
        lemma_has_at_split(s, three.len() as int, kind_key(), rest_history);
        lemma_has_at_split(
            s,
            (three.len() + kind_key().len()) as int,
            text_item("history"@),
            text_item("start"@),
        );
        lemma_one_text_at(s, (three.len() + kind_key().len()) as int, "init"@, "history"@);
    }
}

/// Edits that were written are read back.
pub proof fn lemma_edits_round_trip(s: Seq<u8>, pos: int, log: Seq<Seq<Step>>)
    requires
        forall|i: int| 0 <= i < log.len() ==> edit_sendable(#[trigger] log[i]),
        has_at(s, pos, log_items(log)),
    ensures
        read_edits(s, pos, log.len()) == Some((log, pos + log_items(log).len())),
    decreases log.len(),
{
    if log.len() > 0 {
        let front = log.drop_last();
        assert forall|i: int| 0 <= i < front.len() implies edit_sendable(#[trigger] front[i]) by {
            assert(edit_sendable(log[i]));
        }
        assert(edit_sendable(log[log.len() - 1]));
        lemma_has_at_split(s, pos, log_items(front), edit_item(log.last()));
        lemma_edits_round_trip(s, pos, front);
        lemma_edit_round_trip(s, pos + log_items(front).len(), log.last());
        assert(front.push(log.last()) =~= log);
    }
}

/// A log that was written is read back.
pub proof fn lemma_log_round_trip(s: Seq<u8>, pos: int, log: Seq<Seq<Step>>)
    requires
        log_sendable(log),
        has_at(s, pos, log_item(log)),
    ensures
        read_log(s, pos) == Some((log, pos + log_item(log).len())),
{
    let h = head(MAJOR_ARRAY, log.len());
    lemma_has_at_split(s, pos, h, log_items(log));
    lemma_head_round_trip(s, pos, MAJOR_ARRAY, log.len());
    lemma_edits_round_trip(s, pos + h.len(), log);
}

/// An `Edit` message that was encoded is decoded to what it was.
pub proof fn law_client_round_trip(revision: nat, steps: Seq<Step>)
    requires
        revision <= usize::MAX,
        edit_sendable(steps),
    ensures
        decode_client(edit_bytes(revision, steps)) == Some(
            ClientNote::Edit { last_seen_revision: revision, operations: steps },
        ),
{
    let s = edit_bytes(revision, steps);
    let number = head(MAJOR_UNSIGNED, revision);
    let tail = operations_key() + edit_item(steps);
    lemma_has_at_self(s);
    lemma_has_at_split(s, 0, edit_prefix(), number + tail);
    lemma_has_at_split(s, edit_prefix().len() as int, number, tail);
    lemma_has_at_split(s, (edit_prefix().len() + number.len()) as int, operations_key(), edit_item(steps));
    lemma_unsigned_round_trip(s, edit_prefix().len() as int, revision);
    lemma_edit_round_trip(
        s,
        (edit_prefix().len() + number.len() + operations_key().len()) as int,
        steps,
    );
}

/// A server's message that was encoded is decoded to what it was.
pub proof fn law_server_round_trip(note: ServerNote)
    requires
        server_sendable(note),
    ensures
        decode_server(server_bytes(note)) == Some(note),
{
    let s = server_bytes(note);
    lemma_has_at_self(s);
    lemma_prefixes_apart(s);
    match note {
        ServerNote::Init { revision, text } => {
            let number = head(MAJOR_UNSIGNED, revision);
            let tail = text_key() + text_item(text);
            let at = init_prefix().len() as int;
            lemma_has_at_split(s, 0, init_prefix(), number + tail);
            lemma_has_at_split(s, at, number, tail);
            lemma_has_at_split(s, at + number.len(), text_key(), text_item(text));
            lemma_unsigned_round_trip(s, at, revision);
            lemma_text_round_trip(s, at + number.len() + text_key().len(), text);
        },
        ServerNote::History { start, operations } => {
            let number = head(MAJOR_UNSIGNED, start);
            let tail = operations_key() + log_item(operations);
            let at = history_prefix().len() as int;
            lemma_has_at_split(s, 0, history_prefix(), number + tail);
            lemma_has_at_split(s, at, number, tail);
            lemma_has_at_split(s, at + number.len(), operations_key(), log_item(operations));
            lemma_unsigned_round_trip(s, at, start);
            lemma_log_round_trip(s, at + number.len() + operations_key().len(), operations);
        },
        ServerNote::Ack { up_to } => {
            let number = head(MAJOR_UNSIGNED, up_to);
            let at = ack_prefix().len() as int;
            lemma_has_at_split(s, 0, ack_prefix(), number);
            lemma_unsigned_round_trip(s, at, up_to);
        },
        ServerNote::OutOfSync => {},
    }
}

/// Where an edit cannot be read, the log cannot be read.
pub proof fn lemma_no_edit_no_log(s: Seq<u8>, start: int, count: nat, done: nat)
    requires
        done < count,
        read_edits(s, start, done + 1) is None,
    ensures
        read_edits(s, start, count) is None,
    decreases count,
{
    if done + 1 < count {
        lemma_no_edit_no_log(s, start, (count - 1) as nat, done);
    }
}

/// Whether `part` stands in `bytes` at `pos`.
fn starts_with_at(bytes: &[u8], pos: usize, part: &Vec<u8>) -> (yes: bool)
    ensures
        yes == has_at(bytes@, pos as int, part@),
{
    let total = bytes.len();
    if pos > total || part.len() > total - pos {
        return false;
    }
    let mut i: usize = 0;
    while i < part.len()
        invariant
            i <= part.len(),
            total == bytes@.len(),
            pos + part.len() <= bytes@.len(),
            forall|k: int| 0 <= k < i ==> bytes@[pos + k] == part@[k],
        decreases part.len() - i,
    {
        if bytes[pos + i] != part[i] {
            proof {
                let window = bytes@.subrange(pos as int, pos + part.len());
                assert(window[i as int] == bytes@[pos + i]);
            }
            return false;
        }
        i += 1;
    }
    assert(bytes@.subrange(pos as int, pos + part.len()) =~= part@);
    true
}

/// The start of a message: a map of `size` entries, the first of them the
/// kind `kind`, and the key `field` of the second.
fn message_start(size: u64, kind: &str, field: &str) -> (out: Vec<u8>)
    ensures
        out@ == head(MAJOR_MAP, size as nat) + (kind_key() + (text_item(kind@) + text_item(
            field@,
        ))),
{
    let mut out: Vec<u8> = Vec::new();
    write_head(&mut out, MAJOR_MAP, size);
    write_text(&mut out, "kind");
    write_text(&mut out, kind);
    write_text(&mut out, field);
    assert(out@ =~= head(MAJOR_MAP, size as nat) + (kind_key() + (text_item(kind@) + text_item(
        field@,
    ))));
    out
}

/// A key of a message.
fn message_key(name: &str) -> (out: Vec<u8>)
    ensures
        out@ == text_item(name@),
{
    let mut out: Vec<u8> = Vec::new();
    write_text(&mut out, name);
    assert(out@ =~= text_item(name@));
    out
}

/// Appends a log as a data item.
fn write_log(out: &mut Vec<u8>, log: &Vec<OperationSeq>)
    requires
        forall|k: int| 0 <= k < log.len() ==> (#[trigger] log[k]).wf(),
    ensures
        final(out)@ == old(out)@ + log_item(log_of(log@)),
        log_sendable(log_of(log@)),
{
    let ghost all = log_of(log@);
    write_head(out, MAJOR_ARRAY, log.len() as u64);
    let ghost start = out@;
    let mut i: usize = 0;
    proof {
        assert(start + log_items(all.take(0)) =~= start);
    }
    while i < log.len()
        invariant
            i <= log.len(),
            all == log_of(log@),
            forall|k: int| 0 <= k < log.len() ==> (#[trigger] log[k]).wf(),
            out@ == start + log_items(all.take(i as int)),
            forall|k: int| 0 <= k < i ==> edit_sendable(#[trigger] all[k]),
        decreases log.len() - i,
    {
        let ghost before = out@;
        proof {
            assert(log[i as int].wf());
            log[i as int].lemma_wf();
        }
        write_edit(out, &log[i]);
        proof {
            let longer = all.take(i + 1);
            assert(longer.drop_last() =~= all.take(i as int));
            assert(longer.last() == log[i as int]@);
            assert(out@ =~= start + log_items(longer));
        }
        i += 1;
    }
    proof {
        assert(all.take(i as int) =~= all);
        assert(out@ =~= old(out)@ + log_item(all));
    }
}

/// Reads the log at `pos`.
fn take_log(bytes: &[u8], pos: usize) -> (res: Option<(Vec<OperationSeq>, usize)>)
    ensures
        match res {
            Some((log, next)) => {
                &&& forall|k: int| 0 <= k < log.len() ==> (#[trigger] log[k]).wf()
                &&& read_log(bytes@, pos as int) == Some((log_of(log@), next as int))
                &&& pos < next <= bytes@.len()
            },
            None => read_log(bytes@, pos as int) is None,
        },
{
    let (count, start) = match take_head(bytes, pos) {
        Some((major, count, next)) => {
            if major != MAJOR_ARRAY {
                return None;
            }
            (count, next)
        },
        None => {
            return None;
        },
    };
    let mut log: Vec<OperationSeq> = Vec::new();
    let mut cur: usize = start;
    let mut i: u64 = 0;
    proof {
        assert(log_of(log@) =~= Seq::<Seq<Step>>::empty());
    }
    while i < count
        invariant
            i <= count,
            forall|k: int| 0 <= k < log.len() ==> (#[trigger] log[k]).wf(),
            read_head(bytes@, pos as int) == Some((MAJOR_ARRAY, count as nat, start as int)),
            read_edits(bytes@, start as int, i as nat) == Some((log_of(log@), cur as int)),
            pos < start <= cur <= bytes@.len(),
        decreases count - i,
    {
        let ghost before = log_of(log@);
        match take_edit(bytes, cur) {
            Some((edit, next)) => {
                log.push(edit);
                cur = next;
                proof {
                    assert(log_of(log@) =~= before.push(edit@));
                }
            },
            None => {
                proof {
                    lemma_no_edit_no_log(bytes@, start as int, count as nat, i as nat);
                }
                return None;
            },
        }
        i += 1;
    }
    Some((log, cur))
}

/// The bytes of the message `Edit { last_seen_revision, operations }`.
pub fn encode_edit(last_seen_revision: Revision, operations: &OperationSeq) -> (bytes: Vec<u8>)
    requires
        operations.wf(),
    ensures
        bytes@ == edit_bytes(last_seen_revision as nat, operations@),
        decode_client(bytes@) == Some(
            ClientNote::Edit {
                last_seen_revision: last_seen_revision as nat,
                operations: operations@,
            },
        ),
{
    let mut bytes = message_start(3, "edit", "last_seen_revision");
    write_unsigned(&mut bytes, last_seen_revision as u64);
    write_text(&mut bytes, "operations");
    write_edit(&mut bytes, operations);
    proof {
        operations.lemma_wf();
        assert(bytes@ =~= edit_bytes(last_seen_revision as nat, operations@));
        law_client_round_trip(last_seen_revision as nat, operations@);
    }
    bytes
}

impl ClientMessage {
    /// The message that the bytes `raw` are. It fails if and only if they
    /// are no `Edit` message.
    pub fn decode(raw: &[u8]) -> (res: Result<ClientMessage, DecodeError>)
        ensures
            match res {
                Ok(message) => message.wf() && decode_client(raw@) == Some(message@),
                Err(_) => decode_client(raw@) is None,
            },
    {
        let total = raw.len();
        let start = message_start(3, "edit", "last_seen_revision");
        if !starts_with_at(raw, 0, &start) {
            return Err(DecodeError);
        }
        let (revision, at) = match take_unsigned(raw, start.len()) {
            Some(found) => found,
            None => {
                return Err(DecodeError);
            },
        };
        let key = message_key("operations");
        if revision > usize::MAX as u64 || !starts_with_at(raw, at, &key) {
            return Err(DecodeError);
        }
        match take_edit(raw, at + key.len()) {
            Some((operations, end)) => {
                if end != raw.len() {
                    return Err(DecodeError);
                }
                Ok(ClientMessage::Edit { last_seen_revision: revision as usize, operations })
            },
            None => Err(DecodeError),
        }
    }
}

impl ServerMessage {
    /// The bytes of the message.
    pub fn encode(&self) -> (bytes: Vec<u8>)
        requires
            self.wf(),
        ensures
            bytes@ == server_bytes(self@),
            decode_server(bytes@) == Some(self@),
    {
        let bytes = match self {
            ServerMessage::Init { revision, text } => {
                let mut bytes = message_start(3, "init", "revision");
                write_unsigned(&mut bytes, *revision as u64);
                write_text(&mut bytes, "text");
                write_text(&mut bytes, text.as_str());
                assert(bytes@ =~= server_bytes(self@));
                bytes
            },
            ServerMessage::History { start, operations } => {
                let mut bytes = message_start(3, "history", "start");
                write_unsigned(&mut bytes, *start as u64);
                write_text(&mut bytes, "operations");
                write_log(&mut bytes, operations);
                assert(bytes@ =~= server_bytes(self@));
                bytes
            },
            ServerMessage::Ack { up_to } => {
                let mut bytes = message_start(2, "ack", "up_to");
                write_unsigned(&mut bytes, *up_to as u64);
                assert(bytes@ =~= server_bytes(self@));
                bytes
            },
            ServerMessage::OutOfSync => {
                let mut bytes: Vec<u8> = Vec::new();
                write_head(&mut bytes, MAJOR_MAP, 1);
                write_text(&mut bytes, "kind");
                write_text(&mut bytes, "out_of_sync");
                assert(bytes@ =~= server_bytes(self@));
                bytes
            },
        };
        proof {
            law_server_round_trip(self@);
        }
        bytes
    }

    /// The message that the bytes `raw` are. It fails if and only if they
    /// are no message of the server.
    pub fn decode(raw: &[u8]) -> (res: Result<ServerMessage, DecodeError>)
        ensures
            match res {
                Ok(message) => message.wf() && decode_server(raw@) == Some(message@),
                Err(_) => decode_server(raw@) is None,
            },
    {
        let init = message_start(3, "init", "revision");
        if starts_with_at(raw, 0, &init) {
            return take_init(raw, init.len());
        }
        let history = message_start(3, "history", "start");
        if starts_with_at(raw, 0, &history) {
            return take_history(raw, history.len());
        }
        let ack = message_start(2, "ack", "up_to");
        if starts_with_at(raw, 0, &ack) {
            return take_ack(raw, ack.len());
        }
        take_out_of_sync(raw)
    }
}

/// Reads what follows the start of an `Init` message.
fn take_init(raw: &[u8], from: usize) -> (res: Result<ServerMessage, DecodeError>)
    requires
        from == init_prefix().len(),
    ensures
        match res {
            Ok(message) => message.wf() && decode_init(raw@) == Some(message@),
            Err(_) => decode_init(raw@) is None,
        },
{
    let total = raw.len();
    let (revision, at) = match take_unsigned(raw, from) {
        Some(found) => found,
        None => {
            return Err(DecodeError);
        },
    };
    let key = message_key("text");
    if revision > usize::MAX as u64 || !starts_with_at(raw, at, &key) {
        return Err(DecodeError);
    }
    match take_text(raw, at + key.len()) {
        Some((text, end)) => {
            if end != total {
                return Err(DecodeError);
            }
            Ok(ServerMessage::Init { revision: revision as usize, text })
        },
        None => Err(DecodeError),
    }
}

/// Reads what follows the start of a `History` message.
fn take_history(raw: &[u8], from: usize) -> (res: Result<ServerMessage, DecodeError>)
    requires
        from == history_prefix().len(),
    ensures
        match res {
            Ok(message) => message.wf() && decode_history(raw@) == Some(message@),
            Err(_) => decode_history(raw@) is None,
        },
{
    let total = raw.len();
    let (start, at) = match take_unsigned(raw, from) {
        Some(found) => found,
        None => {
            return Err(DecodeError);
        },
    };
    let key = message_key("operations");
    if start > usize::MAX as u64 || !starts_with_at(raw, at, &key) {
        return Err(DecodeError);
    }
    match take_log(raw, at + key.len()) {
        Some((operations, end)) => {
            if end != total {
                return Err(DecodeError);
            }
            Ok(ServerMessage::History { start: start as usize, operations })
        },
        None => Err(DecodeError),
    }
}

/// Reads what follows the start of an `Ack` message.
fn take_ack(raw: &[u8], from: usize) -> (res: Result<ServerMessage, DecodeError>)
    requires
        from == ack_prefix().len(),
    ensures
        match res {
            Ok(message) => message.wf() && decode_ack(raw@) == Some(message@),
            Err(_) => decode_ack(raw@) is None,
        },
{
    match take_unsigned(raw, from) {
        Some((up_to, end)) => {
            if up_to > usize::MAX as u64 || end != raw.len() {
                return Err(DecodeError);
            }
            Ok(ServerMessage::Ack { up_to: up_to as usize })
        },
        None => Err(DecodeError),
    }
}

/// Whether `raw` is the `OutOfSync` message.
fn take_out_of_sync(raw: &[u8]) -> (res: Result<ServerMessage, DecodeError>)
    ensures
        match res {
            Ok(message) => message == ServerMessage::OutOfSync && raw@ == out_of_sync_bytes(),
            Err(_) => raw@ != out_of_sync_bytes(),
        },
{
    let mut whole: Vec<u8> = Vec::new();
    write_head(&mut whole, MAJOR_MAP, 1);
    write_text(&mut whole, "kind");
    write_text(&mut whole, "out_of_sync");
    assert(whole@ =~= out_of_sync_bytes());
    if raw.len() == whole.len() && starts_with_at(raw, 0, &whole) {
        assert(raw@.subrange(0, raw@.len() as int) =~= raw@);
        Ok(ServerMessage::OutOfSync)
    } else {
        proof {
            if raw@ == out_of_sync_bytes() {
                lemma_has_at_self(raw@);
            }
        }
        Err(DecodeError)
    }
}

} // verus!
