//! The mathematical model of an edit: a sequence of steps over a text of
//! Unicode codepoints, and what applying, composing and transforming such
//! sequences means.

use vstd::prelude::*;

verus! {

/// One primitive step of an edit.
pub enum Step {
    /// Skip over this many codepoints of the base text, dropping them.
    Delete(nat),
    /// Copy this many codepoints of the base text.
    Retain(nat),
    /// Add these codepoints.
    Insert(Seq<char>),
}

impl Step {
    /// The number of codepoints that the step covers: of the base text for
    /// `Retain` and `Delete`, of the inserted text for `Insert`.
    pub open spec fn size(self) -> nat {
        match self {
            Step::Delete(n) => n,
            Step::Retain(n) => n,
            Step::Insert(s) => s.len(),
        }
    }

    /// Codepoints of the base text that the step reads.
    pub open spec fn consumed(self) -> nat {
        match self {
            Step::Delete(n) => n,
            Step::Retain(n) => n,
            Step::Insert(_) => 0,
        }
    }

    /// Codepoints that the step writes to the result.
    pub open spec fn produced(self) -> nat {
        match self {
            Step::Delete(_) => 0,
            Step::Retain(n) => n,
            Step::Insert(s) => s.len(),
        }
    }

    /// What is left of the step once its first `m` codepoints are done.
    pub open spec fn shrink(self, m: nat) -> Step
        recommends
            m <= self.size(),
    {
        match self {
            Step::Delete(n) => Step::Delete((n - m) as nat),
            Step::Retain(n) => Step::Retain((n - m) as nat),
            Step::Insert(s) => Step::Insert(s.skip(m as int)),
        }
    }

    /// Two steps that a canonical sequence never holds side by side: two of
    /// one kind, or a `Delete` directly before an `Insert`.
    pub open spec fn clashes_with(self, next: Step) -> bool {
        match (self, next) {
            (Step::Delete(_), Step::Delete(_)) => true,
            (Step::Retain(_), Step::Retain(_)) => true,
            (Step::Insert(_), Step::Insert(_)) => true,
            (Step::Delete(_), Step::Insert(_)) => true,
            _ => false,
        }
    }
}

/// The codepoint length of the text that `steps` must be applied to.
pub open spec fn base_len(steps: Seq<Step>) -> nat
    decreases steps.len(),
{
    if steps.len() == 0 {
        0
    } else {
        steps[0].consumed() + base_len(steps.drop_first())
    }
}

/// The codepoint length of the text that `steps` produce.
pub open spec fn target_len(steps: Seq<Step>) -> nat
    decreases steps.len(),
{
    if steps.len() == 0 {
        0
    } else {
        steps[0].produced() + target_len(steps.drop_first())
    }
}

/// The text that `steps` make of `text`.
pub open spec fn apply_steps(steps: Seq<Step>, text: Seq<char>) -> Seq<char>
    recommends
        text.len() == base_len(steps),
    decreases steps.len(),
{
    if steps.len() == 0 {
        Seq::empty()
    } else {
        let rest = steps.drop_first();
        match steps[0] {
            Step::Delete(n) => apply_steps(rest, text.skip(n as int)),
            Step::Retain(n) => text.take(n as int) + apply_steps(rest, text.skip(n as int)),
            Step::Insert(s) => s + apply_steps(rest, text),
        }
    }
}

/// No step of `steps` is empty.
pub open spec fn positive(steps: Seq<Step>) -> bool {
    forall|i: int| 0 <= i < steps.len() ==> (#[trigger] steps[i]).size() > 0
}

/// The canonical form that the builder keeps: no empty step, no two
/// neighbours of one kind, and an `Insert` never directly after a `Delete`.
pub open spec fn canonical(steps: Seq<Step>) -> bool {
    &&& positive(steps)
    &&& forall|i: int|
        0 <= i < steps.len() - 1 ==> !(#[trigger] steps[i]).clashes_with(steps[i + 1])
}

/// A sequence that changes nothing: empty, or one `Retain`.
pub open spec fn is_identity(steps: Seq<Step>) -> bool {
    steps.len() == 0 || (steps.len() == 1 && steps[0] is Retain)
}

/// Appends a `Retain` of `n` codepoints, merging it into a `Retain` at the end.
pub open spec fn push_retain(steps: Seq<Step>, n: nat) -> Seq<Step> {
    if n == 0 {
        steps
    } else if steps.len() > 0 && steps.last() is Retain {
        steps.drop_last().push(Step::Retain(steps.last().size() + n))
    } else {
        steps.push(Step::Retain(n))
    }
}

/// Appends a `Delete` of `n` codepoints, merging it into a `Delete` at the end.
pub open spec fn push_delete(steps: Seq<Step>, n: nat) -> Seq<Step> {
    if n == 0 {
        steps
    } else if steps.len() > 0 && steps.last() is Delete {
        steps.drop_last().push(Step::Delete(steps.last().size() + n))
    } else {
        steps.push(Step::Delete(n))
    }
}

/// Appends an `Insert` of `s`. It merges into an `Insert` at the end, and it
/// moves in front of a `Delete` at the end (merging with an `Insert` there).
pub open spec fn push_insert(steps: Seq<Step>, s: Seq<char>) -> Seq<Step> {
    let len = steps.len() as int;
    if s.len() == 0 {
        steps
    } else if len > 0 && steps[len - 1] is Insert {
        steps.update(len - 1, Step::Insert(steps[len - 1]->Insert_0 + s))
    } else if len > 1 && steps[len - 1] is Delete && steps[len - 2] is Insert {
        steps.update(len - 2, Step::Insert(steps[len - 2]->Insert_0 + s))
    } else if len > 0 && steps[len - 1] is Delete {
        steps.update(len - 1, Step::Insert(s)).push(steps[len - 1])
    } else {
        steps.push(Step::Insert(s))
    }
}

/// Appends one step as the builder does.
pub open spec fn push_step(steps: Seq<Step>, step: Step) -> Seq<Step> {
    match step {
        Step::Delete(n) => push_delete(steps, n),
        Step::Retain(n) => push_retain(steps, n),
        Step::Insert(s) => push_insert(steps, s),
    }
}

/// Appends `more` to `steps`, one step after the other, as the builder does.
pub open spec fn extend(steps: Seq<Step>, more: Seq<Step>) -> Seq<Step>
    decreases more.len(),
{
    if more.len() == 0 {
        steps
    } else {
        extend(push_step(steps, more[0]), more.drop_first())
    }
}

/// The canonical sequence with the effect of `steps`.
pub open spec fn normalize(steps: Seq<Step>) -> Seq<Step> {
    extend(Seq::empty(), steps)
}

/// `steps` with the first `m` codepoints of its first step done.
pub open spec fn advance(steps: Seq<Step>, m: nat) -> Seq<Step>
    recommends
        steps.len() > 0,
        m <= steps[0].size(),
{
    if m == steps[0].size() {
        steps.drop_first()
    } else {
        steps.update(0, steps[0].shrink(m))
    }
}

/// `first` followed by `rest`.
pub open spec fn cons(first: Step, rest: Seq<Step>) -> Seq<Step> {
    seq![first] + rest
}

pub open spec fn smaller(x: nat, y: nat) -> nat {
    if x <= y {
        x
    } else {
        y
    }
}

/// Sequential composition, step by step and not yet canonical: the steps
/// that do to a text what `a` and then `b` do.
///
/// The two sequences are walked together over the text between them, which
/// `a` writes and `b` reads. A `Delete` of `a` and an `Insert` of `b` do not
/// touch that text and pass through. Otherwise the shorter of the two first
/// steps decides how much is handled at once.
pub open spec fn fuse(a: Seq<Step>, b: Seq<Step>) -> Seq<Step>
    decreases a.len() + b.len(),
{
    if a.len() > 0 && a[0] is Delete {
        cons(a[0], fuse(a.drop_first(), b))
    } else if b.len() > 0 && b[0] is Insert {
        cons(b[0], fuse(a, b.drop_first()))
    } else if a.len() == 0 || b.len() == 0 {
        Seq::empty()
    } else {
        let m = smaller(a[0].size(), b[0].size());
        let rest = fuse(advance(a, m), advance(b, m));
        match (a[0], b[0]) {
            (Step::Retain(_), Step::Retain(_)) => cons(Step::Retain(m), rest),
            (Step::Retain(_), Step::Delete(_)) => cons(Step::Delete(m), rest),
            (Step::Insert(s), Step::Retain(_)) => cons(Step::Insert(s.take(m as int)), rest),
            _ => rest,
        }
    }
}

/// Transformation of two edits of one text against each other, step by step
/// and not yet canonical. The first component is `a` as it reads after `b`,
/// the second is `b` as it reads after `a`.
///
/// Where both insert at one place, the text of `a` comes first: an `Insert`
/// at the head of `a` is handled before anything of `b`.
pub open spec fn cross(a: Seq<Step>, b: Seq<Step>) -> (Seq<Step>, Seq<Step>)
    decreases a.len() + b.len(),
{
    if a.len() > 0 && a[0] is Insert {
        let rest = cross(a.drop_first(), b);
        (cons(a[0], rest.0), cons(Step::Retain(a[0].size()), rest.1))
    } else if b.len() > 0 && b[0] is Insert {
        let rest = cross(a, b.drop_first());
        (cons(Step::Retain(b[0].size()), rest.0), cons(b[0], rest.1))
    } else if a.len() == 0 || b.len() == 0 {
        (Seq::empty(), Seq::empty())
    } else {
        let m = smaller(a[0].size(), b[0].size());
        let rest = cross(advance(a, m), advance(b, m));
        match (a[0], b[0]) {
            (Step::Retain(_), Step::Retain(_)) => (
                cons(Step::Retain(m), rest.0),
                cons(Step::Retain(m), rest.1),
            ),
            (Step::Delete(_), Step::Retain(_)) => (cons(Step::Delete(m), rest.0), rest.1),
            (Step::Retain(_), Step::Delete(_)) => (rest.0, cons(Step::Delete(m), rest.1)),
            _ => rest,
        }
    }
}

/// Whether, wherever both edits insert at one place of their text, the two
/// inserted texts give one text in either order.
pub open spec fn ties_commute(a: Seq<Step>, b: Seq<Step>) -> bool
    decreases a.len() + b.len(),
{
    if a.len() > 0 && a[0] is Insert && b.len() > 0 && b[0] is Insert {
        &&& a[0]->Insert_0 + b[0]->Insert_0 == b[0]->Insert_0 + a[0]->Insert_0
        &&& ties_commute(a.drop_first(), b.drop_first())
    } else if a.len() > 0 && a[0] is Insert {
        ties_commute(a.drop_first(), b)
    } else if b.len() > 0 && b[0] is Insert {
        ties_commute(a, b.drop_first())
    } else if a.len() == 0 || b.len() == 0 {
        true
    } else {
        let m = smaller(a[0].size(), b[0].size());
        ties_commute(advance(a, m), advance(b, m))
    }
}

/// The composition of `a` and `b`, in canonical form.
pub open spec fn compose_steps(a: Seq<Step>, b: Seq<Step>) -> Seq<Step> {
    normalize(fuse(a, b))
}

/// The transformation of `a` and `b` against each other, in canonical form.
pub open spec fn transform_steps(a: Seq<Step>, b: Seq<Step>) -> (Seq<Step>, Seq<Step>) {
    (normalize(cross(a, b).0), normalize(cross(a, b).1))
}

} // verus!
