//! Lengths, and application over concatenations.

use crate::model::{apply_steps, base_len, cons, target_len, Step};
use vstd::prelude::*;

verus! {

/// What `cons` builds, by its head and its rest.
pub proof fn lemma_cons(first: Step, rest: Seq<Step>)
    ensures
        cons(first, rest).len() == rest.len() + 1,
        cons(first, rest)[0] == first,
        cons(first, rest).drop_first() == rest,
        base_len(cons(first, rest)) == first.consumed() + base_len(rest),
        target_len(cons(first, rest)) == first.produced() + target_len(rest),
{
    assert(cons(first, rest).drop_first() =~= rest);
}

/// Application of a sequence with a known head.
pub proof fn lemma_apply_cons(first: Step, rest: Seq<Step>, text: Seq<char>)
    ensures
        apply_steps(cons(first, rest), text) == match first {
            Step::Delete(n) => apply_steps(rest, text.skip(n as int)),
            Step::Retain(n) => text.take(n as int) + apply_steps(rest, text.skip(n as int)),
            Step::Insert(s) => s + apply_steps(rest, text),
        },
{
    lemma_cons(first, rest);
}

/// A sequence with at least one step is its head before its rest.
pub proof fn lemma_uncons(steps: Seq<Step>)
    requires
        steps.len() > 0,
    ensures
        steps == cons(steps[0], steps.drop_first()),
{
    assert(steps =~= cons(steps[0], steps.drop_first()));
}

/// Lengths add up over a concatenation.
pub proof fn lemma_len_concat(x: Seq<Step>, y: Seq<Step>)
    ensures
        base_len(x + y) == base_len(x) + base_len(y),
        target_len(x + y) == target_len(x) + target_len(y),
    decreases x.len(),
{
    if x.len() == 0 {
        assert(x + y =~= y);
    } else {
        assert((x + y).drop_first() =~= x.drop_first() + y);
        lemma_len_concat(x.drop_first(), y);
    }
}

/// Lengths of a sequence with one more step at its end.
pub proof fn lemma_len_push(x: Seq<Step>, step: Step)
    ensures
        base_len(x.push(step)) == base_len(x) + step.consumed(),
        target_len(x.push(step)) == target_len(x) + step.produced(),
{
    lemma_len_concat(x, seq![step]);
    assert(x.push(step) =~= x + seq![step]);
    lemma_cons(step, Seq::empty());
    assert(cons(step, Seq::empty()) =~= seq![step]);
}

/// No step is longer than the whole.
pub proof fn lemma_step_within(x: Seq<Step>, i: int)
    requires
        0 <= i < x.len(),
    ensures
        x[i].consumed() <= base_len(x),
        x[i].produced() <= target_len(x),
    decreases x.len(),
{
    if i > 0 {
        lemma_step_within(x.drop_first(), i - 1);
    }
}

/// The first part of a concatenation works on the first part of the text,
/// the second on what is left.
pub proof fn lemma_apply_concat(x: Seq<Step>, y: Seq<Step>, text: Seq<char>)
    requires
        base_len(x) <= text.len(),
    ensures
        apply_steps(x + y, text) == apply_steps(x, text.take(base_len(x) as int)) + apply_steps(
            y,
            text.skip(base_len(x) as int),
        ),
    decreases x.len(),
{
    let k = base_len(x) as int;
    if x.len() == 0 {
        assert(x + y =~= y);
        assert(text.skip(0) =~= text);
        assert(apply_steps(x, text.take(0)) =~= Seq::<char>::empty());
        assert(Seq::<char>::empty() + apply_steps(y, text) =~= apply_steps(y, text));
    } else {
        let xr = x.drop_first();
        let kr = base_len(xr) as int;
        assert((x + y).drop_first() =~= xr + y);
        assert((x + y)[0] == x[0]);
        match x[0] {
            Step::Delete(n) => {
                lemma_apply_concat(xr, y, text.skip(n as int));
                assert(text.skip(n as int).take(kr) =~= text.take(k).skip(n as int));
                assert(text.skip(n as int).skip(kr) =~= text.skip(k));
            },
            Step::Retain(n) => {
                lemma_apply_concat(xr, y, text.skip(n as int));
                assert(text.skip(n as int).take(kr) =~= text.take(k).skip(n as int));
                assert(text.skip(n as int).skip(kr) =~= text.skip(k));
                assert(text.take(k).take(n as int) =~= text.take(n as int));
                let head = text.take(n as int);
                let mid = apply_steps(xr, text.take(k).skip(n as int));
                let tail = apply_steps(y, text.skip(k));
                assert(head + (mid + tail) =~= (head + mid) + tail);
            },
            Step::Insert(s) => {
                lemma_apply_concat(xr, y, text);
                let mid = apply_steps(xr, text.take(k));
                let tail = apply_steps(y, text.skip(k));
                assert(s + (mid + tail) =~= (s + mid) + tail);
            },
        }
    }
}

/// Application with one more step at the end.
pub proof fn lemma_apply_push(x: Seq<Step>, step: Step, text: Seq<char>)
    requires
        text.len() == base_len(x) + step.consumed(),
    ensures
        apply_steps(x.push(step), text) == apply_steps(x, text.take(base_len(x) as int)) + (
        match step {
            Step::Delete(_) => Seq::<char>::empty(),
            Step::Retain(_) => text.skip(base_len(x) as int),
            Step::Insert(s) => s,
        }),
{
    let k = base_len(x) as int;
    let tail = text.skip(k);
    lemma_apply_concat(x, seq![step], text);
    assert(x.push(step) =~= x + seq![step]);
    assert(seq![step] =~= cons(step, Seq::empty()));
    lemma_apply_cons(step, Seq::empty(), tail);
    match step {
        Step::Delete(n) => {},
        Step::Retain(n) => {
            assert(tail.take(n as int) =~= tail);
            assert(tail + Seq::<char>::empty() =~= tail);
        },
        Step::Insert(s) => {
            assert(s + Seq::<char>::empty() =~= s);
        },
    }
}

/// The result of an application has the target length.
pub proof fn lemma_apply_len(x: Seq<Step>, text: Seq<char>)
    requires
        text.len() == base_len(x),
    ensures
        apply_steps(x, text).len() == target_len(x),
    decreases x.len(),
{
    if x.len() > 0 {
        match x[0] {
            Step::Delete(n) => lemma_apply_len(x.drop_first(), text.skip(n as int)),
            Step::Retain(n) => lemma_apply_len(x.drop_first(), text.skip(n as int)),
            Step::Insert(s) => lemma_apply_len(x.drop_first(), text),
        }
    }
}

} // verus!
