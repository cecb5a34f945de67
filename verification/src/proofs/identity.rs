//! Edits that change nothing, composed with and transformed against others.

use crate::model::{
    advance, base_len, canonical, cross, extend, fuse, is_identity, positive, push_step,
    target_len, Step,
};
use crate::proofs::apply::{lemma_cons, lemma_uncons};
use crate::proofs::walk::lemma_positive_skip;
use vstd::prelude::*;

verus! {

/// The edit that changes nothing of a text of `k` codepoints.
pub open spec fn identity_steps(k: nat) -> Seq<Step> {
    if k == 0 {
        Seq::empty()
    } else {
        seq![Step::Retain(k)]
    }
}

/// Every step is a `Retain`.
pub open spec fn only_retains(steps: Seq<Step>) -> bool {
    forall|i: int| 0 <= i < steps.len() ==> (#[trigger] steps[i]) is Retain
}

/// A canonical edit that changes nothing is `identity_steps` of its length.
pub proof fn lemma_identity_form(steps: Seq<Step>)
    requires
        canonical(steps),
        is_identity(steps),
    ensures
        steps == identity_steps(base_len(steps)),
        target_len(steps) == base_len(steps),
{
    if steps.len() == 0 {
        assert(steps =~= identity_steps(0));
    } else {
        assert(steps[0].size() > 0);
        assert(steps.drop_first() =~= Seq::<Step>::empty());
        assert(base_len(steps.drop_first()) == 0);
        assert(target_len(steps.drop_first()) == 0);
        assert(steps =~= identity_steps(steps[0].size()));
    }
}

/// What is left of `identity_steps` once `m` codepoints are done.
pub proof fn lemma_identity_advance(k: nat, m: nat)
    requires
        0 < m <= k,
    ensures
        advance(identity_steps(k), m) == identity_steps((k - m) as nat),
{
    assert(advance(identity_steps(k), m) =~= identity_steps((k - m) as nat));
}

/// Composing the unchanged text with `x` gives the steps of `x`.
pub proof fn lemma_fuse_identity_left(k: nat, x: Seq<Step>)
    requires
        positive(x),
        base_len(x) == k,
    ensures
        fuse(identity_steps(k), x) == x,
    decreases x.len(),
{
    let n = identity_steps(k);
    if x.len() == 0 {
        assert(x =~= Seq::<Step>::empty());
    } else {
        lemma_uncons(x);
        lemma_positive_skip(x, 1);
        assert(x[0].size() > 0);
        if x[0] is Insert {
            lemma_fuse_identity_left(k, x.drop_first());
        } else {
            let m = x[0].size();
            lemma_identity_advance(k, m);
            lemma_fuse_identity_left((k - m) as nat, x.drop_first());
        }
    }
}

/// Composing `x` with the unchanged text gives the steps of `x`.
pub proof fn lemma_fuse_identity_right(x: Seq<Step>, k: nat)
    requires
        positive(x),
        target_len(x) == k,
    ensures
        fuse(x, identity_steps(k)) == x,
    decreases x.len(),
{
    let n = identity_steps(k);
    if x.len() == 0 {
        assert(x =~= Seq::<Step>::empty());
    } else {
        lemma_uncons(x);
        lemma_positive_skip(x, 1);
        assert(x[0].size() > 0);
        match x[0] {
            Step::Delete(_) => {
                lemma_fuse_identity_right(x.drop_first(), k);
            },
            Step::Retain(m) => {
                lemma_identity_advance(k, m);
                lemma_fuse_identity_right(x.drop_first(), (k - m) as nat);
            },
            Step::Insert(s) => {
                assert(s.take(s.len() as int) =~= s);
                lemma_identity_advance(k, s.len());
                lemma_fuse_identity_right(x.drop_first(), (k - s.len()) as nat);
            },
        }
    }
}

/// Transforming `x` and the unchanged text against each other gives the
/// steps of `x` and nothing but `Retain`s.
pub proof fn lemma_cross_identity(x: Seq<Step>, k: nat)
    requires
        positive(x),
        base_len(x) == k,
    ensures
        cross(x, identity_steps(k)).0 == x,
        cross(identity_steps(k), x).1 == x,
        only_retains(cross(x, identity_steps(k)).1),
        only_retains(cross(identity_steps(k), x).0),
    decreases x.len(),
{
    let n = identity_steps(k);
    if x.len() == 0 {
        assert(x =~= Seq::<Step>::empty());
    } else {
        lemma_uncons(x);
        lemma_positive_skip(x, 1);
        assert(x[0].size() > 0);
        let m = x[0].size();
        let (left, right) = if x[0] is Insert {
            lemma_cross_identity(x.drop_first(), k);
            (cross(x.drop_first(), n), cross(n, x.drop_first()))
        } else {
            let shorter = identity_steps((k - m) as nat);
            lemma_identity_advance(k, m);
            lemma_cross_identity(x.drop_first(), (k - m) as nat);
            (cross(x.drop_first(), shorter), cross(shorter, x.drop_first()))
        };
        lemma_cons(Step::Retain(m), left.1);
        lemma_cons(Step::Retain(m), right.0);
        let via_left = cross(x, n).1;
        let via_right = cross(n, x).0;
        assert forall|i: int| 0 <= i < via_left.len() implies (#[trigger] via_left[i]) is Retain by {
            if x[0] is Delete {
            } else if i > 0 {
                assert(via_left[i] == left.1[i - 1]);
            }
        }
        assert forall|i: int| 0 <= i < via_right.len() implies (
        #[trigger] via_right[i]) is Retain by {
            if x[0] is Delete {
            } else if i > 0 {
                assert(via_right[i] == right.0[i - 1]);
            }
        }
    }
}

/// The builder makes of `Retain`s, appended to an edit that changes
/// nothing, an edit that changes nothing.
pub proof fn lemma_extend_retains(acc: Seq<Step>, more: Seq<Step>)
    requires
        is_identity(acc),
        only_retains(more),
    ensures
        is_identity(extend(acc, more)),
    decreases more.len(),
{
    if more.len() > 0 {
        assert(more[0] is Retain);
        let next = push_step(acc, more[0]);
        assert(is_identity(next));
        let rest = more.drop_first();
        assert forall|i: int| 0 <= i < rest.len() implies (#[trigger] rest[i]) is Retain by {
            assert(more[i + 1] is Retain);
        }
        lemma_extend_retains(next, rest);
    }
}

} // verus!
