use coedit::connection::{receive, Frame, FrameAction, Received};
use coedit::document::{EditError, State};
use coedit::editor::{Editor, MessageAction, Session};
use coedit::encoding::encode_edit;
use coedit::operation::{Operation, OperationSeq};
use coedit::protocol::{ClientMessage, ServerMessage};

fn build(steps: &[Operation]) -> OperationSeq {
    let mut seq = OperationSeq::new();
    for step in steps {
        seq.add(step);
    }
    seq
}

fn retain(n: u64) -> Operation {
    Operation::Retain(n)
}

fn delete(n: u64) -> Operation {
    Operation::Delete(n)
}

fn insert(s: &str) -> Operation {
    Operation::Insert(s.to_string())
}

fn seeded() -> Editor {
    Editor::new(State::from_text("hello, world!".to_string()))
}

#[test]
fn seed_is_revision_one() {
    let state = State::from_text("hello, world!".to_string());
    assert_eq!(state.revision(), 1);
    assert_eq!(state.text(), "hello, world!");
    assert_eq!(state.operations(), &vec![build(&[insert("hello, world!")])]);
}

#[test]
fn empty_seed_is_revision_one() {
    let state = State::from_text(String::new());
    assert_eq!(state.revision(), 1);
    assert_eq!(state.text(), "");
    assert_eq!(state.operations(), &vec![OperationSeq::new()]);
}

#[test]
fn insert_at_start_reaches_the_others() {
    let mut editor = seeded();
    let (mut other, _) = editor.open_session();
    other.wake();
    let op = build(&[insert("X"), retain(13)]);
    assert_eq!(editor.apply_edit(1, op.duplicate()), Ok(()));
    assert_eq!(editor.state().revision(), 2);
    assert_eq!(editor.state().text(), "Xhello, world!");
    assert_eq!(
        editor.sync(&mut other),
        Some(ServerMessage::History { start: 1, operations: vec![op] })
    );
}

#[test]
fn second_of_two_concurrent_edits_is_rebased() {
    let mut editor = seeded();
    let first = build(&[retain(5), insert("X"), retain(8)]);
    let second = build(&[retain(13), insert("!")]);
    assert_eq!(editor.apply_edit(1, first.duplicate()), Ok(()));
    assert_eq!(editor.apply_edit(1, second), Ok(()));
    assert_eq!(editor.state().revision(), 3);
    assert_eq!(editor.state().text(), "helloX, world!!");
    let log = editor.state().operations();
    assert_eq!(log[1], first);
    assert_eq!(log[2], build(&[retain(14), insert("!")]));
}

#[test]
fn later_of_two_inserts_at_one_place_comes_first() {
    let mut editor = seeded();
    assert_eq!(editor.apply_edit(1, build(&[insert("A"), retain(13)])), Ok(()));
    assert_eq!(editor.apply_edit(1, build(&[insert("B"), retain(13)])), Ok(()));
    assert_eq!(editor.state().text(), "BAhello, world!");
    assert_eq!(editor.state().operations()[2], build(&[insert("B"), retain(14)]));
}

#[test]
fn edit_from_an_unknown_revision_is_out_of_sync() {
    let mut editor = seeded();
    assert_eq!(editor.apply_edit(1, build(&[retain(13), insert("?")])), Ok(()));
    let frame = Frame::Binary(encode_edit(5, &build(&[retain(14)])));
    assert_eq!(editor.handle_frame(frame), FrameAction::OutOfSync);
    assert_eq!(editor.state().revision(), 2);
    assert_eq!(editor.state().text(), "hello, world!?");
    assert_eq!(
        editor.apply_edit(5, build(&[retain(14)])),
        Err(EditError::UnknownRevision)
    );
    assert_eq!(editor.state().revision(), 2);
}

#[test]
fn ping_is_answered_and_changes_nothing() {
    let mut editor = seeded();
    let (session, _) = editor.open_session();
    let kept = session;
    assert_eq!(editor.handle_frame(Frame::Ping(vec![1, 2, 3])), FrameAction::Pong(vec![1, 2, 3]));
    assert_eq!(receive(Frame::Ping(vec![9])), Received::Pong(vec![9]));
    assert_eq!(session, kept);
    assert_eq!(editor.state().revision(), 1);
    assert_eq!(editor.state().text(), "hello, world!");
    assert_eq!(editor.handle_frame(Frame::Pong), FrameAction::Skip);
}

#[test]
fn revision_counts_accepted_edits() {
    let mut editor = seeded();
    let mut accepted = 0;
    for round in 0..5usize {
        let len = editor.state().text().chars().count() as u64;
        let from = editor.state().revision();
        assert_eq!(editor.apply_edit(from, build(&[retain(len), insert("+")])), Ok(()));
        accepted += 1;
        assert_eq!(editor.apply_edit(from + 7, build(&[retain(len)])), Err(EditError::UnknownRevision));
        assert_eq!(editor.state().revision(), accepted + 1);
        assert_eq!(editor.state().operations().len(), editor.state().revision());
        assert_eq!(round + 2, editor.state().revision());
    }
    assert_eq!(editor.state().text(), "hello, world!+++++");
}

#[test]
fn log_replays_to_the_text() {
    let mut editor = seeded();
    assert_eq!(editor.apply_edit(1, build(&[delete(7), retain(6)])), Ok(()));
    assert_eq!(editor.apply_edit(1, build(&[retain(13), insert(" again")])), Ok(()));
    assert_eq!(editor.apply_edit(2, build(&[insert("oh, "), retain(6)])), Ok(()));
    let mut text = String::new();
    for op in editor.state().operations() {
        text = op.apply(&text).unwrap();
    }
    assert_eq!(text, editor.state().text());
    assert_eq!(text, "oh, world! again");
}

#[test]
fn edit_of_wrong_length_is_refused() {
    let mut editor = seeded();
    assert_eq!(editor.apply_edit(1, build(&[retain(12)])), Err(EditError::LengthMismatch));
    assert_eq!(editor.apply_edit(0, build(&[retain(13)])), Err(EditError::LengthMismatch));
    assert_eq!(editor.state().revision(), 1);
    assert_eq!(editor.state().text(), "hello, world!");
}

#[test]
fn edit_against_revision_zero_is_rebased_over_the_seed() {
    let mut editor = seeded();
    assert_eq!(editor.apply_edit(0, build(&[insert("> ")])), Ok(()));
    assert_eq!(editor.state().text(), "> hello, world!");
    assert_eq!(editor.state().operations()[1], build(&[insert("> "), retain(13)]));
}

#[test]
fn rebase_gives_the_edit_for_the_current_text() {
    let mut editor = seeded();
    assert_eq!(editor.apply_edit(1, build(&[retain(5), delete(8)])), Ok(()));
    let rebased = editor.state().rebase(1, build(&[retain(13), insert("?")])).unwrap();
    assert_eq!(rebased, build(&[retain(5), insert("?")]));
    assert_eq!(
        editor.state().rebase(3, build(&[retain(5)])),
        Err(EditError::UnknownRevision)
    );
    assert_eq!(editor.state().revision(), 2);
}

#[test]
fn history_since_gives_the_later_edits() {
    let mut editor = seeded();
    let op = build(&[insert("X"), retain(13)]);
    assert_eq!(editor.apply_edit(1, op.duplicate()), Ok(()));
    assert_eq!(editor.history_since(1), vec![op.duplicate()]);
    assert_eq!(editor.history_since(2), Vec::<OperationSeq>::new());
    assert_eq!(editor.history_since(0).len(), 2);
    assert_eq!(editor.send_history(2), None);
    assert_eq!(
        editor.send_history(1),
        Some(ServerMessage::History { start: 1, operations: vec![op] })
    );
}

#[test]
fn session_starts_with_the_document() {
    let editor = seeded();
    let (session, init) = editor.open_session();
    assert_eq!(session, Session { seen_revision: 1, must_send_full_history: true });
    assert_eq!(init, ServerMessage::Init { revision: 1, text: "hello, world!".to_string() });
}

#[test]
fn sync_sends_nothing_when_up_to_date() {
    let editor = seeded();
    let (mut session, _) = editor.open_session();
    assert_eq!(editor.sync(&mut session), None);
    assert_eq!(session, Session { seen_revision: 1, must_send_full_history: false });
}

#[test]
fn sync_acknowledges_without_a_wake_up() {
    let mut editor = seeded();
    let (mut session, _) = editor.open_session();
    assert_eq!(editor.sync(&mut session), None);
    let op = build(&[insert("X"), retain(13)]);
    assert_eq!(
        editor.handle_message(ClientMessage::Edit { last_seen_revision: 1, operations: op }),
        MessageAction::Applied
    );
    assert_eq!(editor.sync(&mut session), Some(ServerMessage::Ack { up_to: 2 }));
    assert_eq!(session, Session { seen_revision: 2, must_send_full_history: false });
}

#[test]
fn sync_sends_history_after_a_wake_up() {
    let mut editor = seeded();
    let (mut session, _) = editor.open_session();
    assert_eq!(editor.sync(&mut session), None);
    let one = build(&[insert("X"), retain(13)]);
    let two = build(&[retain(14), insert("Y")]);
    assert_eq!(editor.apply_edit(1, one.duplicate()), Ok(()));
    assert_eq!(editor.apply_edit(2, two.duplicate()), Ok(()));
    session.wake();
    assert!(session.must_send_full_history);
    assert_eq!(
        editor.sync(&mut session),
        Some(ServerMessage::History { start: 1, operations: vec![one, two] })
    );
    assert_eq!(session, Session { seen_revision: 3, must_send_full_history: false });
    session.wake();
    assert_eq!(editor.sync(&mut session), None);
    assert!(!session.must_send_full_history);
}

#[test]
fn messages_are_handled() {
    let mut editor = seeded();
    assert_eq!(editor.handle_message(ClientMessage::Disconnected), MessageAction::Disconnected);
    assert_eq!(
        editor.handle_message(ClientMessage::Edit {
            last_seen_revision: 1,
            operations: build(&[retain(3)]),
        }),
        MessageAction::OutOfSync
    );
    assert_eq!(editor.state().revision(), 1);
}

#[test]
fn frames_are_told_apart() {
    assert_eq!(receive(Frame::Closed), Received::Message(ClientMessage::Disconnected));
    assert_eq!(receive(Frame::Text), Received::Unexpected);
    assert_eq!(receive(Frame::Pong), Received::Skip);
    assert!(matches!(receive(Frame::Binary(vec![0xff])), Received::Invalid(_)));
    let op = build(&[insert("X"), retain(13)]);
    assert_eq!(
        receive(Frame::Binary(encode_edit(1, &op))),
        Received::Message(ClientMessage::Edit { last_seen_revision: 1, operations: op })
    );
}

#[test]
fn frames_are_handled() {
    let mut editor = seeded();
    assert_eq!(editor.handle_frame(Frame::Text), FrameAction::Unexpected);
    assert_eq!(editor.handle_frame(Frame::Binary(vec![1, 2])), FrameAction::Invalid);
    assert_eq!(editor.handle_frame(Frame::Closed), FrameAction::Disconnected);
    assert_eq!(editor.state().revision(), 1);
    let op = build(&[insert("X"), retain(13)]);
    assert_eq!(editor.handle_frame(Frame::Binary(encode_edit(1, &op))), FrameAction::Applied);
    assert_eq!(editor.state().text(), "Xhello, world!");
}

#[test]
fn snapshot_copies_text_and_later_edits() {
    let mut editor = seeded();
    let op = build(&[insert("X"), retain(13)]);
    assert_eq!(editor.apply_edit(1, op.duplicate()), Ok(()));
    assert_eq!(editor.state().snapshot(1), ("Xhello, world!".to_string(), vec![op]));
    assert_eq!(editor.state().snapshot(2), ("Xhello, world!".to_string(), vec![]));
}
