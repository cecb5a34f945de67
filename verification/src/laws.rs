//! What holds of applying, composing and transforming edits.

use crate::document::{
    accepted, lemma_edit, lemma_seed, rebase, rebase_fits, run, Document, EditError,
};
use crate::model::{
    apply_steps, base_len, canonical, compose_steps, cross, fuse, is_identity, push_retain,
    target_len, ties_commute, transform_steps, Step,
};
use crate::proofs::apply::lemma_apply_len;
use crate::proofs::builder::lemma_normalize;
use crate::proofs::identity::{
    identity_steps, lemma_cross_identity, lemma_extend_retains, lemma_fuse_identity_left,
    lemma_fuse_identity_right, lemma_identity_form,
};
use crate::proofs::ties::lemma_tie_order;
use crate::proofs::walk::{lemma_cross_apply, lemma_cross_len, lemma_fuse_apply, lemma_fuse_len};
use vstd::prelude::*;

verus! {

/// The composition of two edits does to a text what the first and then the
/// second do, and it has the base length of the first and the target length
/// of the second.
pub proof fn law_compose_applies(a: Seq<Step>, b: Seq<Step>, text: Seq<char>)
    requires
        canonical(a),
        canonical(b),
        target_len(a) == base_len(b),
        text.len() == base_len(a),
    ensures
        canonical(compose_steps(a, b)),
        base_len(compose_steps(a, b)) == base_len(a),
        target_len(compose_steps(a, b)) == target_len(b),
        apply_steps(compose_steps(a, b), text) == apply_steps(b, apply_steps(a, text)),
{
    lemma_fuse_len(a, b);
    lemma_fuse_apply(a, b, text);
    lemma_normalize(fuse(a, b));
}

/// Two edits of one text, transformed against each other, converge: the
/// first followed by the transformed second gives the text that the second
/// followed by the transformed first gives.
pub proof fn law_transform_converges(a: Seq<Step>, b: Seq<Step>, text: Seq<char>)
    requires
        canonical(a),
        canonical(b),
        base_len(a) == base_len(b),
        text.len() == base_len(a),
    ensures
        canonical(transform_steps(a, b).0),
        canonical(transform_steps(a, b).1),
        base_len(transform_steps(a, b).0) == target_len(b),
        base_len(transform_steps(a, b).1) == target_len(a),
        target_len(transform_steps(a, b).0) == target_len(transform_steps(a, b).1),
        apply_steps(transform_steps(a, b).1, apply_steps(a, text)) == apply_steps(
            transform_steps(a, b).0,
            apply_steps(b, text),
        ),
{
    lemma_cross_len(a, b);
    lemma_cross_apply(a, b, text);
    lemma_normalize(cross(a, b).0);
    lemma_normalize(cross(a, b).1);
    lemma_apply_len(a, text);
    lemma_apply_len(b, text);
}

/// The texts that two transformed edits make are no longer than the texts
/// of the two edits together: where those lengths can be counted, the
/// transformation can be made.
pub proof fn law_transform_length(a: Seq<Step>, b: Seq<Step>)
    requires
        canonical(a),
        canonical(b),
        base_len(a) == base_len(b),
    ensures
        target_len(transform_steps(a, b).0) <= target_len(a) + target_len(b),
        target_len(transform_steps(a, b).1) <= target_len(a) + target_len(b),
{
    lemma_cross_len(a, b);
    lemma_normalize(cross(a, b).0);
    lemma_normalize(cross(a, b).1);
}

/// An edit that reports itself as changing nothing gives every text of its
/// length back as it was.
pub proof fn law_noop_keeps_text(noop: Seq<Step>, text: Seq<char>)
    requires
        is_identity(noop),
        text.len() == base_len(noop),
    ensures
        apply_steps(noop, text) == text,
{
    if noop.len() == 1 {
        assert(noop.drop_first() =~= Seq::<Step>::empty());
        assert(base_len(noop.drop_first()) == 0);
        assert(apply_steps(noop.drop_first(), text.skip(text.len() as int)) =~= Seq::<char>::empty(
        ));
        assert(text.take(text.len() as int) + Seq::<char>::empty() =~= text);
    } else {
        assert(text =~= Seq::<char>::empty());
    }
}

/// A single `Retain` over a whole text, as the builder makes it, changes
/// nothing.
pub proof fn law_full_retain_is_noop(len: nat)
    ensures
        is_identity(push_retain(Seq::empty(), len)),
        canonical(push_retain(Seq::empty(), len)),
        base_len(push_retain(Seq::empty(), len)) == len,
{
    let built = push_retain(Seq::empty(), len);
    assert(built =~= identity_steps(len));
    if len > 0 {
        assert(built.drop_first() =~= Seq::<Step>::empty());
        assert(base_len(built.drop_first()) == 0);
    }
}

/// Composing an edit `x` with an edit that changes nothing, before it or
/// after it, gives `x`.
pub proof fn law_noop_compose(x: Seq<Step>, noop: Seq<Step>)
    requires
        canonical(x),
        canonical(noop),
        is_identity(noop),
    ensures
        base_len(noop) == base_len(x) ==> compose_steps(noop, x) == x,
        base_len(noop) == target_len(x) ==> compose_steps(x, noop) == x,
{
    lemma_identity_form(noop);
    lemma_normalize(x);
    if base_len(noop) == base_len(x) {
        lemma_fuse_identity_left(base_len(x), x);
    }
    if base_len(noop) == target_len(x) {
        lemma_fuse_identity_right(x, target_len(x));
    }
}

/// Transforming an edit `x` against an edit of the same text that changes
/// nothing gives `x`, on either side, and the other edit of the pair changes
/// nothing.
pub proof fn law_noop_transform(x: Seq<Step>, noop: Seq<Step>)
    requires
        canonical(x),
        canonical(noop),
        is_identity(noop),
        base_len(noop) == base_len(x),
    ensures
        transform_steps(x, noop).0 == x,
        transform_steps(noop, x).1 == x,
        is_identity(transform_steps(x, noop).1),
        is_identity(transform_steps(noop, x).0),
{
    lemma_identity_form(noop);
    lemma_normalize(x);
    lemma_cross_identity(x, base_len(x));
    lemma_extend_retains(Seq::empty(), cross(x, noop).1);
    lemma_extend_retains(Seq::empty(), cross(noop, x).0);
}

/// Two edits `a` and `b` of one text may reach a server in either order:
/// the first to arrive is applied as it is, the second is transformed
/// against the first and then applied. Both orders end in one text exactly
/// when, wherever `a` and `b` insert at one place, the two inserted texts
/// commute; in particular when they never insert at one place.
pub proof fn law_arrival_order(a: Seq<Step>, b: Seq<Step>, text: Seq<char>)
    requires
        canonical(a),
        canonical(b),
        base_len(a) == base_len(b),
        text.len() == base_len(a),
    ensures
        (apply_steps(transform_steps(b, a).0, apply_steps(a, text)) == apply_steps(
            transform_steps(a, b).0,
            apply_steps(b, text),
        )) <==> ties_commute(a, b),
{
    lemma_tie_order(a, b, text);
    lemma_cross_apply(b, a, text);
    lemma_cross_len(a, b);
    lemma_cross_len(b, a);
    lemma_normalize(cross(a, b).0);
    lemma_normalize(cross(b, a).0);
    lemma_apply_len(a, text);
    lemma_apply_len(b, text);
}

/// After any number of edits have come in to a seeded document, its
/// revision is the number of its log entries, which is one more than the
/// number of edits that were accepted, and the log still makes the text.
pub proof fn law_revision_counts_edits(text: Seq<char>, requests: Seq<(nat, Seq<Step>)>)
    requires
        forall|i: int| 0 <= i < requests.len() ==> canonical((#[trigger] requests[i]).1),
    ensures
        run(Document::seed(text), requests).consistent(),
        run(Document::seed(text), requests).revision() == 1 + accepted(
            Document::seed(text),
            requests,
        ),
        run(Document::seed(text), requests).log.len() == run(
            Document::seed(text),
            requests,
        ).revision(),
    decreases requests.len(),
{
    lemma_seed(text);
    if requests.len() > 0 {
        let earlier = requests.drop_last();
        assert forall|i: int| 0 <= i < earlier.len() implies canonical((#[trigger] earlier[i]).1) by {
            assert(canonical(requests[i].1));
        }
        law_revision_counts_edits(text, earlier);
        assert(canonical(requests[requests.len() - 1].1));
        lemma_edit(run(Document::seed(text), earlier), requests.last().0, requests.last().1);
    }
}

/// An edit that claims a revision beyond the log is refused as of an
/// unknown revision, and the document stays as it is.
pub proof fn law_unknown_revision(doc: Document, from: nat, op: Seq<Step>)
    requires
        from > doc.revision(),
    ensures
        doc.refusal(from, op) == Some(EditError::UnknownRevision),
        doc.edit(from, op) == doc,
{
}

/// Every entry of the log makes, of the text at its own revision, the text
/// at the next: an accepted edit is stored as brought up to date, and it is
/// that edit which makes the new text of the old.
pub proof fn law_log_entry_makes_next_text(doc: Document, from: nat, op: Seq<Step>)
    requires
        doc.consistent(),
        canonical(op),
        doc.refusal(from, op) is None,
    ensures
        doc.edit(from, op).consistent(),
        doc.edit(from, op).log == doc.log.push(rebase(op, doc.log, from)),
        doc.edit(from, op).text == apply_steps(rebase(op, doc.log, from), doc.text),
        base_len(rebase(op, doc.log, from)) == doc.text.len(),
{
    lemma_edit(doc, from, op);
}

/// Two edits `a` and `b`, both written against the current revision of a
/// document, come in one after the other. Whichever comes first, the
/// document ends with one text, exactly when the texts that `a` and `b`
/// insert at one place commute wherever they do so.
pub proof fn law_two_edits_either_order(doc: Document, a: Seq<Step>, b: Seq<Step>)
    requires
        doc.consistent(),
        canonical(a),
        canonical(b),
        base_len(a) == doc.text.len(),
        base_len(b) == doc.text.len(),
        target_len(a) + target_len(b) <= usize::MAX,
    ensures
        ({
            let from = doc.revision();
            let a_then_b = doc.edit(from, a).edit(from, b);
            let b_then_a = doc.edit(from, b).edit(from, a);
            &&& a_then_b.revision() == from + 2
            &&& b_then_a.revision() == from + 2
            &&& a_then_b.text == b_then_a.text <==> ties_commute(a, b)
        }),
{
    let from = doc.revision();
    let after_a = doc.edit(from, a);
    let after_b = doc.edit(from, b);
    assert(rebase_fits(a, doc.log, from));
    assert(rebase_fits(b, doc.log, from));
    assert(doc.refusal(from, a) is None);
    assert(doc.refusal(from, b) is None);
    assert(rebase(a, doc.log, from) == a);
    assert(rebase(b, doc.log, from) == b);
    assert(after_a.log == doc.log.push(a));
    assert(after_b.log == doc.log.push(b));
    assert(after_a.text == apply_steps(a, doc.text));
    assert(after_b.text == apply_steps(b, doc.text));
    assert(after_a.log[from as int] == a);
    assert(after_b.log[from as int] == b);
    assert(rebase(transform_steps(b, a).0, after_a.log, from + 1) == transform_steps(b, a).0);
    assert(rebase(transform_steps(a, b).0, after_b.log, from + 1) == transform_steps(a, b).0);
    assert(rebase(b, after_a.log, from) == transform_steps(b, a).0);
    assert(rebase(a, after_b.log, from) == transform_steps(a, b).0);
    assert(rebase_fits(transform_steps(b, a).0, after_a.log, from + 1));
    assert(rebase_fits(transform_steps(a, b).0, after_b.log, from + 1));
    assert(rebase_fits(b, after_a.log, from));
    assert(rebase_fits(a, after_b.log, from));
    assert(after_a.refusal(from, b) is None);
    assert(after_b.refusal(from, a) is None);
    law_arrival_order(a, b, doc.text);
}

} // verus!
