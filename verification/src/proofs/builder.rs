//! The builder's append: what it does to lengths, to the canonical form and
//! to the text that an edit makes.

use crate::model::{
    apply_steps, base_len, canonical, cons, extend, normalize, push_step, target_len, Step,
};
use crate::proofs::apply::{lemma_apply_concat, lemma_apply_push, lemma_cons, lemma_len_push};
use vstd::prelude::*;

verus! {

/// The builder's append adds the step's lengths to the sequence's.
pub proof fn lemma_push_step_len(acc: Seq<Step>, step: Step)
    ensures
        base_len(push_step(acc, step)) == base_len(acc) + step.consumed(),
        target_len(push_step(acc, step)) == target_len(acc) + step.produced(),
{
    let len = acc.len() as int;
    if step.size() == 0 {
    } else if len == 0 {
        lemma_len_push(acc, step);
    } else {
        let pre = acc.drop_last();
        let last = acc.last();
        assert(acc =~= pre.push(last));
        lemma_len_push(pre, last);
        match step {
            Step::Delete(n) => {
                if last is Delete {
                    lemma_len_push(pre, Step::Delete(last.size() + n));
                } else {
                    lemma_len_push(acc, step);
                }
            },
            Step::Retain(n) => {
                if last is Retain {
                    lemma_len_push(pre, Step::Retain(last.size() + n));
                } else {
                    lemma_len_push(acc, step);
                }
            },
            Step::Insert(s) => {
                if last is Insert {
                    let merged = Step::Insert(last->Insert_0 + s);
                    assert(acc.update(len - 1, merged) =~= pre.push(merged));
                    lemma_len_push(pre, merged);
                } else if len > 1 && last is Delete && acc[len - 2] is Insert {
                    let front = pre.drop_last();
                    let before = acc[len - 2];
                    let merged = Step::Insert(before->Insert_0 + s);
                    assert(pre =~= front.push(before));
                    assert(acc.update(len - 2, merged) =~= front.push(merged).push(last));
                    lemma_len_push(front, before);
                    lemma_len_push(front, merged);
                    lemma_len_push(front.push(merged), last);
                } else if last is Delete {
                    assert(acc.update(len - 1, step).push(last) =~= pre.push(step).push(last));
                    lemma_len_push(pre, step);
                    lemma_len_push(pre.push(step), last);
                } else {
                    lemma_len_push(acc, step);
                }
            },
        }
    }
}

/// The builder's append does to a text what a plain append does.
pub proof fn lemma_push_step_apply(acc: Seq<Step>, step: Step, text: Seq<char>)
    requires
        text.len() == base_len(acc) + step.consumed(),
    ensures
        apply_steps(push_step(acc, step), text) == apply_steps(acc.push(step), text),
{
    let len = acc.len() as int;
    let k = base_len(acc) as int;
    lemma_apply_push(acc, step, text);
    if step.size() == 0 {
        assert(text.take(k) =~= text);
        assert(text.skip(k) =~= Seq::<char>::empty());
        let whole = apply_steps(acc, text);
        assert(whole + Seq::<char>::empty() =~= whole);
        match step {
            Step::Insert(s) => {
                assert(s =~= Seq::<char>::empty());
            },
            _ => {},
        }
    } else if len == 0 {
    } else {
        let pre = acc.drop_last();
        let last = acc.last();
        let j = base_len(pre) as int;
        assert(acc =~= pre.push(last));
        lemma_len_push(pre, last);
        lemma_apply_push(pre, last, text.take(k));
        assert(text.take(k).take(j) =~= text.take(j));
        let done = apply_steps(pre, text.take(j));
        match step {
            Step::Delete(n) => {
                if last is Delete {
                    lemma_apply_push(pre, Step::Delete(last.size() + n), text);
                }
            },
            Step::Retain(n) => {
                if last is Retain {
                    lemma_apply_push(pre, Step::Retain(last.size() + n), text);
                    assert(text.take(k).skip(j) + text.skip(k) =~= text.skip(j));
                    assert((done + text.take(k).skip(j)) + text.skip(k) =~= done + (text.take(
                        k,
                    ).skip(j) + text.skip(k)));
                }
            },
            Step::Insert(s) => {
                assert(text.take(k) =~= text);
                if last is Insert {
                    let merged = Step::Insert(last->Insert_0 + s);
                    assert(acc.update(len - 1, merged) =~= pre.push(merged));
                    lemma_apply_push(pre, merged, text);
                    assert((done + last->Insert_0) + s =~= done + (last->Insert_0 + s));
                } else if len > 1 && last is Delete && acc[len - 2] is Insert {
                    let front = pre.drop_last();
                    let before = acc[len - 2];
                    let merged = Step::Insert(before->Insert_0 + s);
                    assert(pre =~= front.push(before));
                    assert(acc.update(len - 2, merged) =~= front.push(merged).push(last));
                    lemma_len_push(front, before);
                    lemma_len_push(front, merged);
                    lemma_apply_push(front.push(merged), last, text);
                    lemma_apply_push(front, merged, text.take(j));
                    lemma_apply_push(front, before, text.take(j));
                    let base = apply_steps(front, text.take(j).take(base_len(front) as int));
                    assert((base + before->Insert_0) + s =~= base + (before->Insert_0 + s));
                    assert((base + before->Insert_0) + Seq::<char>::empty() =~= base
                        + before->Insert_0);
                    assert((base + (before->Insert_0 + s)) + Seq::<char>::empty() =~= base + (
                    before->Insert_0 + s));
                } else if last is Delete {
                    assert(acc.update(len - 1, step).push(last) =~= pre.push(step).push(last));
                    lemma_len_push(pre, step);
                    lemma_apply_push(pre.push(step), last, text);
                    lemma_apply_push(pre, step, text.take(j));
                    assert(text.take(j).take(j) =~= text.take(j));
                    assert(done + Seq::<char>::empty() =~= done);
                    assert((done + s) + Seq::<char>::empty() =~= done + s);
                }
            },
        }
    }
}

/// The builder's append keeps the canonical form.
pub proof fn lemma_push_step_canonical(acc: Seq<Step>, step: Step)
    requires
        canonical(acc),
    ensures
        canonical(push_step(acc, step)),
{
    let len = acc.len() as int;
    let out = push_step(acc, step);
    if step.size() > 0 && len > 0 {
        assert forall|i: int| 0 <= i < out.len() implies (#[trigger] out[i]).size() > 0 by {
            if i < len {
                assert(acc[i].size() > 0);
            }
            if 0 < i {
                assert(acc[i - 1].size() > 0);
            }
        }
        assert forall|i: int| 0 <= i < out.len() - 1 implies !(#[trigger] out[i]).clashes_with(
            out[i + 1],
        ) by {
            if i < len - 1 {
                assert(!acc[i].clashes_with(acc[i + 1]));
            }
            if 0 < i && i < len {
                assert(!acc[i - 1].clashes_with(acc[i]));
            }
        }
    }
}

/// On a sequence that is canonical with the step at its end, the builder's
/// append is the plain append.
pub proof fn lemma_push_step_plain(acc: Seq<Step>, step: Step)
    requires
        canonical(acc.push(step)),
    ensures
        push_step(acc, step) == acc.push(step),
{
    let all = acc.push(step);
    let len = acc.len() as int;
    assert(all[len].size() > 0);
    if len > 0 {
        assert(!all[len - 1].clashes_with(all[len]));
    }
}

/// A canonical sequence stays canonical without its last steps.
pub proof fn lemma_canonical_take(steps: Seq<Step>, n: int)
    requires
        canonical(steps),
        0 <= n <= steps.len(),
    ensures
        canonical(steps.take(n)),
{
    let front = steps.take(n);
    assert forall|i: int| 0 <= i < front.len() implies (#[trigger] front[i]).size() > 0 by {
        assert(steps[i].size() > 0);
    }
    assert forall|i: int| 0 <= i < front.len() - 1 implies !(#[trigger] front[i]).clashes_with(
        front[i + 1],
    ) by {
        assert(!steps[i].clashes_with(steps[i + 1]));
    }
}

/// The builder's repeated append adds up the lengths.
pub proof fn lemma_extend_len(acc: Seq<Step>, more: Seq<Step>)
    ensures
        base_len(extend(acc, more)) == base_len(acc) + base_len(more),
        target_len(extend(acc, more)) == target_len(acc) + target_len(more),
    decreases more.len(),
{
    if more.len() > 0 {
        lemma_push_step_len(acc, more[0]);
        lemma_extend_len(push_step(acc, more[0]), more.drop_first());
    }
}

/// The builder's repeated append keeps the canonical form.
pub proof fn lemma_extend_canonical(acc: Seq<Step>, more: Seq<Step>)
    requires
        canonical(acc),
    ensures
        canonical(extend(acc, more)),
    decreases more.len(),
{
    if more.len() > 0 {
        lemma_push_step_canonical(acc, more[0]);
        lemma_extend_canonical(push_step(acc, more[0]), more.drop_first());
    }
}

/// The builder's repeated append does to a text what the concatenation does.
pub proof fn lemma_extend_apply(acc: Seq<Step>, more: Seq<Step>, text: Seq<char>)
    requires
        text.len() == base_len(acc) + base_len(more),
    ensures
        apply_steps(extend(acc, more), text) == apply_steps(acc + more, text),
    decreases more.len(),
{
    if more.len() == 0 {
        assert(acc + more =~= acc);
    } else {
        let first = more[0];
        let rest = more.drop_first();
        let pushed = push_step(acc, first);
        let plain = acc.push(first);
        let k = base_len(pushed) as int;
        lemma_push_step_len(acc, first);
        lemma_len_push(acc, first);
        lemma_extend_apply(pushed, rest, text);
        lemma_apply_concat(pushed, rest, text);
        lemma_apply_concat(plain, rest, text);
        lemma_push_step_apply(acc, first, text.take(k));
        assert(plain + rest =~= acc + more);
    }
}

/// On a canonical concatenation the builder's repeated append is the plain one.
pub proof fn lemma_extend_plain(acc: Seq<Step>, more: Seq<Step>)
    requires
        canonical(acc + more),
    ensures
        extend(acc, more) == acc + more,
    decreases more.len(),
{
    if more.len() == 0 {
        assert(acc + more =~= acc);
    } else {
        let first = more[0];
        let rest = more.drop_first();
        let plain = acc.push(first);
        lemma_canonical_take(acc + more, acc.len() as int + 1);
        assert((acc + more).take(acc.len() as int + 1) =~= plain);
        lemma_push_step_plain(acc, first);
        assert(plain + rest =~= acc + more);
        lemma_extend_plain(plain, rest);
    }
}

/// One step of the builder's repeated append, and the room it needs.
pub proof fn lemma_extend_step(acc: Seq<Step>, first: Step, rest: Seq<Step>)
    ensures
        extend(acc, cons(first, rest)) == extend(push_step(acc, first), rest),
        base_len(acc) + first.consumed() <= base_len(extend(acc, cons(first, rest))),
        target_len(acc) + first.produced() <= target_len(extend(acc, cons(first, rest))),
{
    lemma_cons(first, rest);
    lemma_push_step_len(acc, first);
    lemma_extend_len(push_step(acc, first), rest);
}

/// Normal form: canonical, with the lengths and the effect of the steps
/// given, and the sequence itself where that is canonical already.
pub proof fn lemma_normalize(steps: Seq<Step>)
    ensures
        canonical(normalize(steps)),
        base_len(normalize(steps)) == base_len(steps),
        target_len(normalize(steps)) == target_len(steps),
        canonical(steps) ==> normalize(steps) == steps,
        forall|text: Seq<char>|
            text.len() == base_len(steps) ==> #[trigger] apply_steps(normalize(steps), text)
                == apply_steps(steps, text),
{
    let none = Seq::<Step>::empty();
    lemma_extend_len(none, steps);
    lemma_extend_canonical(none, steps);
    assert(none + steps =~= steps);
    if canonical(steps) {
        lemma_extend_plain(none, steps);
    }
    assert forall|text: Seq<char>| text.len() == base_len(steps) implies #[trigger] apply_steps(
        normalize(steps),
        text,
    ) == apply_steps(steps, text) by {
        lemma_extend_apply(none, steps, text);
    }
}

} // verus!
