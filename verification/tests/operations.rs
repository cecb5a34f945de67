use coedit::operation::{LengthMismatch, Operation, OperationSeq};

fn build(steps: &[Operation]) -> OperationSeq {
    let mut seq = OperationSeq::new();
    for step in steps {
        seq.add(step);
    }
    seq
}

fn retain(n: u64) -> Operation {
    Operation::Retain(n)
}

fn delete(n: u64) -> Operation {
    Operation::Delete(n)
}

fn insert(s: &str) -> Operation {
    Operation::Insert(s.to_string())
}

#[test]
fn new_edit_is_empty() {
    let seq = OperationSeq::new();
    assert!(seq.ops().is_empty());
    assert_eq!(seq.base_len(), 0);
    assert_eq!(seq.target_len(), 0);
    assert!(seq.is_noop());
}

#[test]
fn builder_counts_lengths() {
    let seq = build(&[retain(5), insert("abc"), delete(2), retain(1)]);
    assert_eq!(seq.base_len(), 8);
    assert_eq!(seq.target_len(), 9);
    assert_eq!(seq.ops(), &vec![retain(5), insert("abc"), delete(2), retain(1)]);
}

#[test]
fn builder_merges_neighbours_of_one_kind() {
    let seq = build(&[retain(2), retain(3), delete(1), delete(4), insert("a"), insert("bc")]);
    assert_eq!(seq.ops(), &vec![retain(5), insert("abc"), delete(5)]);
}

#[test]
fn builder_drops_empty_steps() {
    let seq = build(&[retain(0), delete(0), insert("")]);
    assert!(seq.ops().is_empty());
    assert_eq!(seq.base_len(), 0);
    assert_eq!(seq.target_len(), 0);
}

#[test]
fn builder_puts_insert_before_delete() {
    let seq = build(&[retain(1), delete(2), insert("x")]);
    assert_eq!(seq.ops(), &vec![retain(1), insert("x"), delete(2)]);
    let more = build(&[insert("a"), delete(2), insert("b")]);
    assert_eq!(more.ops(), &vec![insert("ab"), delete(2)]);
}

#[test]
fn lengths_count_codepoints_not_bytes() {
    let seq = build(&[insert("héllo 🌍")]);
    assert_eq!(seq.target_len(), 7);
    assert_eq!(seq.ops()[0].span(), 7);
}

#[test]
fn apply_retains_deletes_and_inserts() {
    let seq = build(&[retain(5), delete(2), insert("!!"), retain(6)]);
    assert_eq!(seq.apply("hello, world!"), Ok("hello!!world!".to_string()));
}

#[test]
fn apply_works_on_codepoints() {
    let seq = build(&[retain(1), delete(1), insert("ö"), retain(1)]);
    assert_eq!(seq.apply("aéz"), Ok("aöz".to_string()));
}

#[test]
fn apply_refuses_a_text_of_another_length() {
    let seq = build(&[retain(3)]);
    assert_eq!(seq.apply("ab"), Err(LengthMismatch));
    assert_eq!(seq.apply("abcd"), Err(LengthMismatch));
    assert_eq!(seq.apply("abc"), Ok("abc".to_string()));
}

#[test]
fn length_mismatch_in_words() {
    assert_eq!(LengthMismatch.message(), "incompatible lengths");
}

#[test]
fn full_retain_is_noop() {
    assert!(build(&[retain(13)]).is_noop());
    assert!(!build(&[retain(12), insert("x")]).is_noop());
    assert!(!build(&[delete(1)]).is_noop());
    assert!(!build(&[insert("x")]).is_noop());
}

#[test]
fn compose_does_both_edits() {
    let a = build(&[retain(3), insert("abc")]);
    let b = build(&[delete(1), retain(5)]);
    let both = a.compose(&b).unwrap();
    assert_eq!(both.ops(), &vec![delete(1), retain(2), insert("abc")]);
    assert_eq!(both.apply("xyz"), Ok("yzabc".to_string()));
    assert_eq!(b.apply(&a.apply("xyz").unwrap()), Ok("yzabc".to_string()));
}

#[test]
fn compose_cancels_an_insert_that_is_deleted() {
    let a = build(&[insert("hello"), retain(2)]);
    let b = build(&[delete(3), retain(4)]);
    let both = a.compose(&b).unwrap();
    assert_eq!(both.ops(), &vec![insert("lo"), retain(2)]);
    assert_eq!(both.base_len(), 2);
    assert_eq!(both.target_len(), 4);
}

#[test]
fn compose_refuses_lengths_that_do_not_meet() {
    let a = build(&[retain(3)]);
    let b = build(&[retain(4)]);
    assert_eq!(a.compose(&b), Err(LengthMismatch));
}

#[test]
fn compose_with_noop_gives_the_edit_back() {
    let x = build(&[retain(2), insert("é"), delete(1), retain(3)]);
    let before = build(&[retain(6)]);
    let after = build(&[retain(6)]);
    assert_eq!(before.compose(&x).unwrap(), x);
    assert_eq!(x.compose(&after).unwrap(), x);
}

#[test]
fn transform_puts_the_first_edit_first_at_ties() {
    let a = build(&[insert("a")]);
    let b = build(&[insert("b")]);
    let (a1, b1) = a.transform(&b).unwrap();
    assert_eq!(a1.ops(), &vec![insert("a"), retain(1)]);
    assert_eq!(b1.ops(), &vec![retain(1), insert("b")]);
    let (b2, a2) = b.transform(&a).unwrap();
    assert_eq!(b2.ops(), &vec![insert("b"), retain(1)]);
    assert_eq!(a2.ops(), &vec![retain(1), insert("a")]);
}

#[test]
fn transform_converges() {
    let text = "hello, world!";
    let a = build(&[retain(5), delete(2), insert("; "), retain(6)]);
    let b = build(&[insert(">> "), retain(7), delete(5), insert("there"), retain(1)]);
    let (a1, b1) = a.transform(&b).unwrap();
    let via_a = b1.apply(&a.apply(text).unwrap()).unwrap();
    let via_b = a1.apply(&b.apply(text).unwrap()).unwrap();
    assert_eq!(via_a, via_b);
    assert_eq!(via_a, ">> hello; there!");
}

#[test]
fn transform_handles_overlapping_deletes() {
    let a = build(&[delete(3), retain(2)]);
    let b = build(&[retain(1), delete(3), retain(1)]);
    let (a1, b1) = a.transform(&b).unwrap();
    assert_eq!(a1.ops(), &vec![delete(1), retain(1)]);
    assert_eq!(b1.ops(), &vec![delete(1), retain(1)]);
    assert_eq!(b1.apply(&a.apply("abcde").unwrap()), Ok("e".to_string()));
    assert_eq!(a1.apply(&b.apply("abcde").unwrap()), Ok("e".to_string()));
}

#[test]
fn transform_refuses_edits_of_different_texts() {
    let a = build(&[retain(3)]);
    let b = build(&[retain(4)]);
    assert_eq!(a.transform(&b), Err(LengthMismatch));
}

#[test]
fn transform_against_noop_gives_the_edit_back() {
    let x = build(&[retain(2), insert("xy"), delete(1), retain(3)]);
    let noop = build(&[retain(6)]);
    let (x1, n1) = x.transform(&noop).unwrap();
    assert_eq!(x1, x);
    assert!(n1.is_noop());
    assert_eq!(n1.base_len(), 7);
    let (n2, x2) = noop.transform(&x).unwrap();
    assert_eq!(x2, x);
    assert!(n2.is_noop());
}

#[test]
fn arrival_order_matters_only_at_ties() {
    let text = "abc";
    let a = build(&[retain(1), insert("x"), retain(2)]);
    let b = build(&[retain(2), insert("y"), retain(1)]);
    let a_first = b.transform(&a).unwrap().0.apply(&a.apply(text).unwrap()).unwrap();
    let b_first = a.transform(&b).unwrap().0.apply(&b.apply(text).unwrap()).unwrap();
    assert_eq!(a_first, "axbyc");
    assert_eq!(b_first, "axbyc");

    let c = build(&[retain(1), insert("y"), retain(2)]);
    let a_then_c = c.transform(&a).unwrap().0.apply(&a.apply(text).unwrap()).unwrap();
    let c_then_a = a.transform(&c).unwrap().0.apply(&c.apply(text).unwrap()).unwrap();
    assert_eq!(a_then_c, "ayxbc");
    assert_eq!(c_then_a, "axybc");
}

#[test]
fn duplicate_is_equal() {
    let x = build(&[retain(2), insert("xy"), delete(1)]);
    assert_eq!(x.duplicate(), x);
}

#[test]
fn step_kinds() {
    assert!(insert("a").is_insert());
    assert!(retain(1).is_retain());
    assert!(delete(1).is_delete());
    assert!(!retain(1).is_insert());
    assert_eq!(delete(4).span(), 4);
    assert_eq!(retain(1).clone(), retain(1));
}
