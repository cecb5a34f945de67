//! Where two edits insert at one place.

use crate::model::{
    advance, apply_steps, base_len, canonical, cons, cross, smaller, ties_commute, Step,
};
use crate::proofs::apply::lemma_apply_cons;
use crate::proofs::walk::{lemma_advance, lemma_apply_advance, lemma_canonical_advance};
use vstd::prelude::*;

verus! {

/// Two concatenations with first parts of one length are equal exactly when
/// their parts are.
pub proof fn lemma_concat_eq(p: Seq<char>, x: Seq<char>, q: Seq<char>, y: Seq<char>)
    requires
        p.len() == q.len(),
    ensures
        (p + x == q + y) <==> (p == q && x == y),
{
    if p + x == q + y {
        assert((p + x).take(p.len() as int) =~= p);
        assert((q + y).take(q.len() as int) =~= q);
        assert((p + x).skip(p.len() as int) =~= x);
        assert((q + y).skip(q.len() as int) =~= y);
    }
}

/// An edit `a`, read after a concurrent edit `b`, once with the text of `a`
/// first where both insert at one place and once with the text of `b`
/// first: the two readings make one text of what `b` made exactly when the
/// texts inserted at such places commute.
pub proof fn lemma_tie_order(a: Seq<Step>, b: Seq<Step>, text: Seq<char>)
    requires
        canonical(a),
        canonical(b),
        base_len(a) == base_len(b),
        text.len() == base_len(a),
    ensures
        apply_steps(cross(a, b).0, apply_steps(b, text)).len() == apply_steps(
            cross(b, a).1,
            apply_steps(b, text),
        ).len(),
        (apply_steps(cross(a, b).0, apply_steps(b, text)) == apply_steps(
            cross(b, a).1,
            apply_steps(b, text),
        )) <==> ties_commute(a, b),
    decreases a.len() + b.len(),
{
    let mid = apply_steps(b, text);
    let none = Seq::<char>::empty();
    if a.len() > 0 && a[0] is Insert && b.len() > 0 && b[0] is Insert {
        let sa = a[0]->Insert_0;
        let sb = b[0]->Insert_0;
        let ar = a.drop_first();
        let br = b.drop_first();
        let tail = apply_steps(br, text);
        lemma_canonical_advance(a, 0);
        lemma_canonical_advance(b, 0);
        lemma_tie_order(ar, br, text);
        let left = apply_steps(cross(ar, br).0, tail);
        let right = apply_steps(cross(br, ar).1, tail);
        assert(cross(ar, b).0 == cons(Step::Retain(sb.len()), cross(ar, br).0));
        assert(cross(br, a).1 == cons(a[0], cross(br, ar).1));
        lemma_apply_cons(a[0], cross(ar, b).0, mid);
        lemma_apply_cons(Step::Retain(sb.len()), cross(ar, br).0, mid);
        lemma_apply_cons(Step::Retain(sb.len()), cross(br, a).1, mid);
        lemma_apply_cons(a[0], cross(br, ar).1, tail);
        assert((sb + tail).take(sb.len() as int) =~= sb);
        assert((sb + tail).skip(sb.len() as int) =~= tail);
        assert(sa + (sb + left) =~= (sa + sb) + left);
        assert(sb + (sa + right) =~= (sb + sa) + right);
        lemma_concat_eq(sa + sb, left, sb + sa, right);
    } else if a.len() > 0 && a[0] is Insert {
        let sa = a[0]->Insert_0;
        let ar = a.drop_first();
        lemma_canonical_advance(a, 0);
        lemma_tie_order(ar, b, text);
        lemma_apply_cons(a[0], cross(ar, b).0, mid);
        lemma_apply_cons(a[0], cross(b, ar).1, mid);
        lemma_concat_eq(
            sa,
            apply_steps(cross(ar, b).0, mid),
            sa,
            apply_steps(cross(b, ar).1, mid),
        );
    } else if b.len() > 0 && b[0] is Insert {
        let sb = b[0]->Insert_0;
        let br = b.drop_first();
        let tail = apply_steps(br, text);
        lemma_canonical_advance(b, 0);
        lemma_tie_order(a, br, text);
        lemma_apply_cons(Step::Retain(sb.len()), cross(a, br).0, mid);
        lemma_apply_cons(Step::Retain(sb.len()), cross(br, a).1, mid);
        assert((sb + tail).take(sb.len() as int) =~= sb);
        assert((sb + tail).skip(sb.len() as int) =~= tail);
        lemma_concat_eq(
            sb,
            apply_steps(cross(a, br).0, tail),
            sb,
            apply_steps(cross(br, a).1, tail),
        );
    } else if a.len() == 0 || b.len() == 0 {
    } else {
        let m = smaller(a[0].size(), b[0].size());
        let ra = advance(a, m);
        let rb = advance(b, m);
        let head = text.take(m as int);
        let tail = apply_steps(rb, text.skip(m as int));
        let left = apply_steps(cross(ra, rb).0, tail);
        let right = apply_steps(cross(rb, ra).1, tail);
        assert(a[0].size() > 0);
        assert(b[0].size() > 0);
        lemma_canonical_advance(a, m);
        lemma_canonical_advance(b, m);
        lemma_advance(a, m);
        lemma_advance(b, m);
        lemma_apply_advance(b, m, text);
        lemma_tie_order(ra, rb, text.skip(m as int));
        lemma_apply_cons(Step::Retain(m), cross(ra, rb).0, mid);
        lemma_apply_cons(Step::Retain(m), cross(rb, ra).1, mid);
        lemma_apply_cons(Step::Delete(m), cross(ra, rb).0, mid);
        lemma_apply_cons(Step::Delete(m), cross(rb, ra).1, mid);
        assert((head + tail).take(m as int) =~= head);
        assert((head + tail).skip(m as int) =~= tail);
        lemma_concat_eq(head, left, head, right);
    }
}

} // verus!
