//! A place in an edit: a step and how much of it is done.

use crate::model::{advance, positive, Step};
use crate::proofs::walk::lemma_positive_skip;
use vstd::prelude::*;

verus! {

/// The steps from step `i` on, with the first `done` codepoints of step `i`
/// handled already.
pub open spec fn rest_at(steps: Seq<Step>, i: int, done: nat) -> Seq<Step> {
    if done == 0 {
        steps.skip(i)
    } else {
        steps.skip(i).update(0, steps[i].shrink(done))
    }
}

/// Whether `(i, done)` is a place in `steps`: a step and a part of it that
/// leaves something, or the end.
pub open spec fn cursor_ok(steps: Seq<Step>, i: int, done: nat) -> bool {
    &&& 0 <= i <= steps.len()
    &&& i < steps.len() ==> done < steps[i].size()
    &&& i == steps.len() ==> done == 0
}

/// What stands at a cursor.
pub proof fn lemma_rest_at(steps: Seq<Step>, i: int, done: nat)
    requires
        positive(steps),
        cursor_ok(steps, i, done),
    ensures
        positive(rest_at(steps, i, done)),
        rest_at(steps, i, done).len() == steps.len() - i,
        i < steps.len() ==> rest_at(steps, i, done)[0].size() == steps[i].size() - done,
        i < steps.len() ==> (rest_at(steps, i, done)[0] is Insert <==> steps[i] is Insert),
        i < steps.len() ==> (rest_at(steps, i, done)[0] is Retain <==> steps[i] is Retain),
        i < steps.len() ==> (rest_at(steps, i, done)[0] is Delete <==> steps[i] is Delete),
        i < steps.len() && done == 0 ==> rest_at(steps, i, done)[0] == steps[i],
        i < steps.len() && done > 0 ==> rest_at(steps, i, done)[0] == steps[i].shrink(done),
        i < steps.len() ==> rest_at(steps, i, done).drop_first() == rest_at(steps, i + 1, 0),
{
    let rest = rest_at(steps, i, done);
    lemma_positive_skip(steps, i);
    assert forall|k: int| 0 <= k < rest.len() implies (#[trigger] rest[k]).size() > 0 by {
        assert(steps[i + k].size() > 0);
    }
    if i < steps.len() {
        assert(rest.drop_first() =~= rest_at(steps, i + 1, 0));
    }
}

/// Moving a cursor on by `m` codepoints within its step.
pub proof fn lemma_rest_at_advance(steps: Seq<Step>, i: int, done: nat, m: nat)
    requires
        positive(steps),
        cursor_ok(steps, i, done),
        i < steps.len(),
        0 < m,
        done + m <= steps[i].size(),
    ensures
        advance(rest_at(steps, i, done), m) == (if done + m == steps[i].size() {
            rest_at(steps, i + 1, 0)
        } else {
            rest_at(steps, i, done + m)
        }),
{
    let rest = rest_at(steps, i, done);
    lemma_rest_at(steps, i, done);
    if done + m < steps[i].size() {
        match steps[i] {
            Step::Insert(s) => {
                assert(s.skip(done as int).skip(m as int) =~= s.skip((done + m) as int));
            },
            _ => {},
        }
        assert(rest[0].shrink(m) == steps[i].shrink(done + m));
        assert(advance(rest, m) =~= rest_at(steps, i, done + m));
    }
}

} // verus!
