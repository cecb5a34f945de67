//! Two edits walked together: what is left of an edit as its first step is
//! worked off, and what composition and transformation make.

use crate::model::{
    advance, apply_steps, base_len, canonical, cross, fuse, positive, smaller, target_len, Step,
};
use crate::proofs::apply::{lemma_apply_cons, lemma_apply_len, lemma_cons};
use vstd::prelude::*;

verus! {

/// A sequence without empty steps stays so without its first steps.
pub proof fn lemma_positive_skip(steps: Seq<Step>, n: int)
    requires
        positive(steps),
        0 <= n <= steps.len(),
    ensures
        positive(steps.skip(n)),
{
    let back = steps.skip(n);
    assert forall|i: int| 0 <= i < back.len() implies (#[trigger] back[i]).size() > 0 by {
        assert(steps[i + n].size() > 0);
    }
}

/// What is left of a sequence once part of its first step is done.
pub proof fn lemma_advance(steps: Seq<Step>, m: nat)
    requires
        steps.len() > 0,
        m <= steps[0].size(),
        positive(steps),
    ensures
        positive(advance(steps, m)),
        base_len(steps) == base_len(advance(steps, m)) + (if steps[0] is Insert {
            0
        } else {
            m
        }),
        target_len(steps) == target_len(advance(steps, m)) + (if steps[0] is Delete {
            0
        } else {
            m
        }),
        m == steps[0].size() ==> advance(steps, m).len() + 1 == steps.len(),
        m < steps[0].size() ==> advance(steps, m).len() == steps.len(),
{
    let out = advance(steps, m);
    if m == steps[0].size() {
        lemma_positive_skip(steps, 1);
    } else {
        assert(out.drop_first() =~= steps.drop_first());
        assert forall|i: int| 0 <= i < out.len() implies (#[trigger] out[i]).size() > 0 by {
            assert(steps[i].size() > 0);
        }
    }
}

/// A canonical sequence stays canonical as its first step is worked off.
pub proof fn lemma_canonical_advance(steps: Seq<Step>, m: nat)
    requires
        canonical(steps),
        steps.len() > 0,
        m <= steps[0].size(),
    ensures
        canonical(advance(steps, m)),
        canonical(steps.drop_first()),
        steps.len() > 1 ==> !steps[0].clashes_with(steps[1]),
{
    let out = advance(steps, m);
    let rest = steps.drop_first();
    assert forall|i: int| 0 <= i < rest.len() implies (#[trigger] rest[i]).size() > 0 by {
        assert(steps[i + 1].size() > 0);
    }
    assert forall|i: int| 0 <= i < rest.len() - 1 implies !(#[trigger] rest[i]).clashes_with(
        rest[i + 1],
    ) by {
        assert(!steps[i + 1].clashes_with(steps[i + 2]));
    }
    if m < steps[0].size() {
        assert forall|i: int| 0 <= i < out.len() implies (#[trigger] out[i]).size() > 0 by {
            assert(steps[i].size() > 0);
        }
        assert forall|i: int| 0 <= i < out.len() - 1 implies !(#[trigger] out[i]).clashes_with(
            out[i + 1],
        ) by {
            assert(!steps[i].clashes_with(steps[i + 1]));
        }
    }
    if steps.len() > 1 {
        assert(!steps[0].clashes_with(steps[1]));
    }
}

/// Application, with the first `m` codepoints of the first step done apart.
pub proof fn lemma_apply_advance(steps: Seq<Step>, m: nat, text: Seq<char>)
    requires
        steps.len() > 0,
        m <= steps[0].size(),
        steps[0].consumed() <= text.len(),
    ensures
        apply_steps(steps, text) == match steps[0] {
            Step::Delete(_) => apply_steps(advance(steps, m), text.skip(m as int)),
            Step::Retain(_) => text.take(m as int) + apply_steps(
                advance(steps, m),
                text.skip(m as int),
            ),
            Step::Insert(s) => s.take(m as int) + apply_steps(advance(steps, m), text),
        },
{
    let out = advance(steps, m);
    let rest = steps.drop_first();
    if m == steps[0].size() {
        match steps[0] {
            Step::Insert(s) => {
                assert(s.take(m as int) =~= s);
            },
            _ => {},
        }
    } else {
        assert(out.drop_first() =~= rest);
        match steps[0] {
            Step::Delete(n) => {
                assert(text.skip(m as int).skip(n - m) =~= text.skip(n as int));
            },
            Step::Retain(n) => {
                assert(text.skip(m as int).skip(n - m) =~= text.skip(n as int));
                assert(text.take(m as int) + text.skip(m as int).take(n - m) =~= text.take(
                    n as int,
                ));
                let tail = apply_steps(rest, text.skip(n as int));
                assert(text.take(m as int) + (text.skip(m as int).take(n - m) + tail) =~= (
                text.take(m as int) + text.skip(m as int).take(n - m)) + tail);
            },
            Step::Insert(s) => {
                assert(s.take(m as int) + s.skip(m as int) =~= s);
                let tail = apply_steps(rest, text);
                assert(s.take(m as int) + (s.skip(m as int) + tail) =~= (s.take(m as int)
                    + s.skip(m as int)) + tail);
            },
        }
    }
}

/// The lengths of a composition: it reads what `a` reads and writes what
/// `b` writes.
pub proof fn lemma_fuse_len(a: Seq<Step>, b: Seq<Step>)
    requires
        positive(a),
        positive(b),
        target_len(a) == base_len(b),
    ensures
        base_len(fuse(a, b)) == base_len(a),
        target_len(fuse(a, b)) == target_len(b),
    decreases a.len() + b.len(),
{
    if a.len() > 0 && a[0] is Delete {
        lemma_positive_skip(a, 1);
        lemma_fuse_len(a.drop_first(), b);
        lemma_cons(a[0], fuse(a.drop_first(), b));
    } else if b.len() > 0 && b[0] is Insert {
        lemma_positive_skip(b, 1);
        lemma_fuse_len(a, b.drop_first());
        lemma_cons(b[0], fuse(a, b.drop_first()));
    } else if a.len() == 0 || b.len() == 0 {
        if a.len() > 0 {
            assert(a[0].size() > 0);
        }
        if b.len() > 0 {
            assert(b[0].size() > 0);
        }
    } else {
        let m = smaller(a[0].size(), b[0].size());
        lemma_advance(a, m);
        lemma_advance(b, m);
        lemma_fuse_len(advance(a, m), advance(b, m));
        let rest = fuse(advance(a, m), advance(b, m));
        lemma_cons(Step::Retain(m), rest);
        lemma_cons(Step::Delete(m), rest);
        match a[0] {
            Step::Insert(s) => {
                lemma_cons(Step::Insert(s.take(m as int)), rest);
            },
            _ => {},
        }
    }
}

/// The lengths of a transformation: each result reads what the other edit
/// writes, and both write texts of one length.
pub proof fn lemma_cross_len(a: Seq<Step>, b: Seq<Step>)
    requires
        positive(a),
        positive(b),
        base_len(a) == base_len(b),
    ensures
        base_len(cross(a, b).0) == target_len(b),
        base_len(cross(a, b).1) == target_len(a),
        target_len(cross(a, b).0) == target_len(cross(a, b).1),
        target_len(cross(a, b).0) <= target_len(a) + target_len(b),
    decreases a.len() + b.len(),
{
    if a.len() > 0 && a[0] is Insert {
        let rest = cross(a.drop_first(), b);
        lemma_positive_skip(a, 1);
        lemma_cross_len(a.drop_first(), b);
        lemma_cons(a[0], rest.0);
        lemma_cons(Step::Retain(a[0].size()), rest.1);
    } else if b.len() > 0 && b[0] is Insert {
        let rest = cross(a, b.drop_first());
        lemma_positive_skip(b, 1);
        lemma_cross_len(a, b.drop_first());
        lemma_cons(Step::Retain(b[0].size()), rest.0);
        lemma_cons(b[0], rest.1);
    } else if a.len() == 0 || b.len() == 0 {
        if a.len() > 0 {
            assert(a[0].size() > 0);
        }
        if b.len() > 0 {
            assert(b[0].size() > 0);
        }
    } else {
        let m = smaller(a[0].size(), b[0].size());
        lemma_advance(a, m);
        lemma_advance(b, m);
        lemma_cross_len(advance(a, m), advance(b, m));
        let rest = cross(advance(a, m), advance(b, m));
        lemma_cons(Step::Retain(m), rest.0);
        lemma_cons(Step::Retain(m), rest.1);
        lemma_cons(Step::Delete(m), rest.0);
        lemma_cons(Step::Delete(m), rest.1);
    }
}

/// The raw composition does to a text what the two edits do in turn.
pub proof fn lemma_fuse_apply(a: Seq<Step>, b: Seq<Step>, text: Seq<char>)
    requires
        positive(a),
        positive(b),
        target_len(a) == base_len(b),
        text.len() == base_len(a),
    ensures
        apply_steps(fuse(a, b), text) == apply_steps(b, apply_steps(a, text)),
    decreases a.len() + b.len(),
{
    if a.len() > 0 && a[0] is Delete {
        lemma_positive_skip(a, 1);
        lemma_fuse_apply(a.drop_first(), b, text.skip(a[0].size() as int));
        lemma_apply_cons(a[0], fuse(a.drop_first(), b), text);
    } else if b.len() > 0 && b[0] is Insert {
        lemma_positive_skip(b, 1);
        lemma_fuse_apply(a, b.drop_first(), text);
        lemma_apply_cons(b[0], fuse(a, b.drop_first()), text);
    } else if a.len() == 0 || b.len() == 0 {
        if a.len() > 0 {
            assert(a[0].size() > 0);
        }
        if b.len() > 0 {
            assert(b[0].size() > 0);
        }
    } else {
        let m = smaller(a[0].size(), b[0].size());
        let ra = advance(a, m);
        let rb = advance(b, m);
        let rest = fuse(ra, rb);
        let mid = apply_steps(a, text);
        lemma_advance(a, m);
        lemma_advance(b, m);
        lemma_apply_len(a, text);
        lemma_apply_advance(a, m, text);
        lemma_apply_advance(b, m, mid);
        match a[0] {
            Step::Insert(s) => {
                let head = s.take(m as int);
                let tail = apply_steps(ra, text);
                lemma_fuse_apply(ra, rb, text);
                lemma_apply_cons(Step::Insert(head), rest, text);
                assert((head + tail).take(m as int) =~= head);
                assert((head + tail).skip(m as int) =~= tail);
            },
            _ => {
                let head = text.take(m as int);
                let tail = apply_steps(ra, text.skip(m as int));
                lemma_fuse_apply(ra, rb, text.skip(m as int));
                lemma_apply_cons(Step::Retain(m), rest, text);
                lemma_apply_cons(Step::Delete(m), rest, text);
                assert((head + tail).take(m as int) =~= head);
                assert((head + tail).skip(m as int) =~= tail);
            },
        }
    }
}

/// The raw transformation converges: each edit followed by the other as
/// transformed gives one text.
pub proof fn lemma_cross_apply(a: Seq<Step>, b: Seq<Step>, text: Seq<char>)
    requires
        positive(a),
        positive(b),
        base_len(a) == base_len(b),
        text.len() == base_len(a),
    ensures
        apply_steps(cross(a, b).1, apply_steps(a, text)) == apply_steps(
            cross(a, b).0,
            apply_steps(b, text),
        ),
    decreases a.len() + b.len(),
{
    if a.len() > 0 && a[0] is Insert {
        let s = a[0]->Insert_0;
        let rest = cross(a.drop_first(), b);
        let tail = apply_steps(a.drop_first(), text);
        lemma_positive_skip(a, 1);
        lemma_cross_apply(a.drop_first(), b, text);
        lemma_apply_cons(Step::Retain(s.len()), rest.1, s + tail);
        lemma_apply_cons(a[0], rest.0, apply_steps(b, text));
        assert((s + tail).take(s.len() as int) =~= s);
        assert((s + tail).skip(s.len() as int) =~= tail);
    } else if b.len() > 0 && b[0] is Insert {
        let s = b[0]->Insert_0;
        let rest = cross(a, b.drop_first());
        let tail = apply_steps(b.drop_first(), text);
        lemma_positive_skip(b, 1);
        lemma_cross_apply(a, b.drop_first(), text);
        lemma_apply_cons(Step::Retain(s.len()), rest.0, s + tail);
        lemma_apply_cons(b[0], rest.1, apply_steps(a, text));
        assert((s + tail).take(s.len() as int) =~= s);
        assert((s + tail).skip(s.len() as int) =~= tail);
    } else if a.len() == 0 || b.len() == 0 {
        if a.len() > 0 {
            assert(a[0].size() > 0);
        }
        if b.len() > 0 {
            assert(b[0].size() > 0);
        }
    } else {
        let m = smaller(a[0].size(), b[0].size());
        let ra = advance(a, m);
        let rb = advance(b, m);
        let rest = cross(ra, rb);
        let head = text.take(m as int);
        let tail_a = apply_steps(ra, text.skip(m as int));
        let tail_b = apply_steps(rb, text.skip(m as int));
        lemma_advance(a, m);
        lemma_advance(b, m);
        lemma_apply_advance(a, m, text);
        lemma_apply_advance(b, m, text);
        lemma_cross_apply(ra, rb, text.skip(m as int));
        lemma_apply_cons(Step::Retain(m), rest.0, head + tail_b);
        lemma_apply_cons(Step::Retain(m), rest.1, head + tail_a);
        lemma_apply_cons(Step::Delete(m), rest.0, head + tail_b);
        lemma_apply_cons(Step::Delete(m), rest.1, head + tail_a);
        assert((head + tail_a).take(m as int) =~= head);
        assert((head + tail_a).skip(m as int) =~= tail_a);
        assert((head + tail_b).take(m as int) =~= head);
        assert((head + tail_b).skip(m as int) =~= tail_b);
    }
}

} // verus!
