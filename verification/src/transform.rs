//! Transformation of two concurrent edits against each other.

use crate::laws::law_transform_converges;
use crate::model::{
    advance, apply_steps, base_len, cross, extend, positive, push_step, smaller, target_len,
    transform_steps, Step,
};
use crate::operation::{steps_of, LengthMismatch, Operation, OperationSeq};
use crate::proofs::apply::lemma_step_within;
use crate::proofs::builder::{lemma_extend_step, lemma_normalize};
use crate::proofs::cursor::{cursor_ok, lemma_rest_at, lemma_rest_at_advance, rest_at};
use crate::proofs::walk::{lemma_advance, lemma_cross_len};
use vstd::prelude::*;
use vstd::string::*;

verus! {

/// Appends the `Insert` step `op` to `out` and returns its length.
pub(crate) fn copy_insert(op: &Operation, out: &mut OperationSeq) -> (n: u64)
    requires
        op@ is Insert,
        old(out).wf(),
        target_len(old(out)@) + op@.size() <= usize::MAX,
    ensures
        final(out).wf(),
        final(out)@ == push_step(old(out)@, op@),
        n == op@.size(),
{
    match op {
        Operation::Insert(s) => {
            out.insert(s.as_str());
            s.as_str().unicode_len() as u64
        },
        _ => 0,
    }
}

impl OperationSeq {
    /// Transforms two edits of one text against each other. Of the pair
    /// that comes back, the first is `self` as it reads once `other` has been
    /// applied, the second is `other` as it reads once `self` has been
    /// applied. Where both insert at one place, the text of `self` comes
    /// before the text of `other`.
    ///
    /// It fails if and only if the two edits are for texts of different
    /// lengths. The length of the text that the transformed edits make must
    /// fit a `usize`; it does where the target lengths of the two edits
    /// together do (`law_transform_length`).
    pub fn transform(&self, other: &OperationSeq) -> (res: Result<
        (OperationSeq, OperationSeq),
        LengthMismatch,
    >)
        requires
            self.wf(),
            other.wf(),
            base_len(self@) == base_len(other@) ==> target_len(transform_steps(self@, other@).0)
                <= usize::MAX,
        ensures
            res is Ok <==> base_len(self@) == base_len(other@),
            res matches Ok(pair) ==> {
                &&& pair.0.wf()
                &&& pair.1.wf()
                &&& pair.0@ == transform_steps(self@, other@).0
                &&& pair.1@ == transform_steps(self@, other@).1
                &&& base_len(pair.0@) == target_len(other@)
                &&& base_len(pair.1@) == target_len(self@)
                &&& target_len(pair.0@) == target_len(pair.1@)
            },
            res matches Ok(pair) ==> forall|text: Seq<char>|
                #![trigger apply_steps(self@, text)]
                #![trigger apply_steps(other@, text)]
                text.len() == base_len(self@) ==> apply_steps(pair.1@, apply_steps(self@, text))
                    == apply_steps(pair.0@, apply_steps(other@, text)),
    {
        if self.base_len() != other.base_len() {
            return Err(LengthMismatch);
        }
        let a = self.ops();
        let b = other.ops();
        let ghost goal = transform_steps(self@, other@);
        let mut a1 = OperationSeq::new();
        let mut b1 = OperationSeq::new();
        let mut i: usize = 0;
        let mut j: usize = 0;
        let mut done_a: u64 = 0;
        let mut done_b: u64 = 0;
        proof {
            self.lemma_wf();
            other.lemma_wf();
            lemma_cross_len(self@, other@);
            lemma_normalize(cross(self@, other@).0);
            lemma_normalize(cross(self@, other@).1);
            assert(rest_at(self@, 0, 0) =~= self@);
            assert(rest_at(other@, 0, 0) =~= other@);
            assert(self@.len() > 0 ==> self@[0].size() > 0);
            assert(other@.len() > 0 ==> other@[0].size() > 0);
        }
        loop
            invariant
                self.wf(),
                other.wf(),
                a1.wf(),
                b1.wf(),
                steps_of(a@) == self@,
                steps_of(b@) == other@,
                positive(self@),
                positive(other@),
                cursor_ok(self@, i as int, done_a as nat),
                cursor_ok(other@, j as int, done_b as nat),
                i < a.len() && self@[i as int] is Insert ==> done_a == 0,
                j < b.len() && other@[j as int] is Insert ==> done_b == 0,
                base_len(rest_at(self@, i as int, done_a as nat)) == base_len(
                    rest_at(other@, j as int, done_b as nat),
                ),
                goal == transform_steps(self@, other@),
                extend(
                    a1@,
                    cross(
                        rest_at(self@, i as int, done_a as nat),
                        rest_at(other@, j as int, done_b as nat),
                    ).0,
                ) == goal.0,
                extend(
                    b1@,
                    cross(
                        rest_at(self@, i as int, done_a as nat),
                        rest_at(other@, j as int, done_b as nat),
                    ).1,
                ) == goal.1,
                base_len(goal.0) <= usize::MAX,
                target_len(goal.0) <= usize::MAX,
                base_len(goal.1) <= usize::MAX,
                target_len(goal.1) <= usize::MAX,
            ensures
                a1.wf(),
                b1.wf(),
                a1@ == goal.0,
                b1@ == goal.1,
            decreases (a.len() - i) + (b.len() - j),
        {
            let ghost ra = rest_at(self@, i as int, done_a as nat);
            let ghost rb = rest_at(other@, j as int, done_b as nat);
            proof {
                lemma_rest_at(self@, i as int, done_a as nat);
                lemma_rest_at(other@, j as int, done_b as nat);
            }
            if i < a.len() && a[i].is_insert() {
                let ghost rest = cross(ra.drop_first(), rb);
                proof {
                    lemma_step_within(self@, i as int);
                    lemma_extend_step(a1@, ra[0], rest.0);
                    lemma_extend_step(b1@, Step::Retain(ra[0].size()), rest.1);
                }
                let n = copy_insert(&a[i], &mut a1);
                b1.retain(n);
                i += 1;
                proof {
                    assert(i < a.len() ==> self@[i as int].size() > 0);
                }
            } else if j < b.len() && b[j].is_insert() {
                let ghost rest = cross(ra, rb.drop_first());
                proof {
                    lemma_step_within(other@, j as int);
                    lemma_extend_step(a1@, Step::Retain(rb[0].size()), rest.0);
                    lemma_extend_step(b1@, rb[0], rest.1);
                }
                let n = copy_insert(&b[j], &mut b1);
                a1.retain(n);
                j += 1;
                proof {
                    assert(j < b.len() ==> other@[j as int].size() > 0);
                }
            } else if i == a.len() && j == b.len() {
                break ;
            } else if i == a.len() || j == b.len() {
                proof {
                    if i < a.len() {
                        assert(ra[0].consumed() > 0);
                    }
                    if j < b.len() {
                        assert(rb[0].consumed() > 0);
                    }
                    assert(false);
                }
                return Err(LengthMismatch);
            } else {
                proof {
                    lemma_step_within(self@, i as int);
                    lemma_step_within(other@, j as int);
                }
                let left_a: u64 = a[i].span() - done_a;
                let left_b: u64 = b[j].span() - done_b;
                let m: u64 = if left_a <= left_b {
                    left_a
                } else {
                    left_b
                };
                let ghost rest = cross(advance(ra, m as nat), advance(rb, m as nat));
                proof {
                    assert(m == smaller(ra[0].size(), rb[0].size()));
                    lemma_rest_at_advance(self@, i as int, done_a as nat, m as nat);
                    lemma_rest_at_advance(other@, j as int, done_b as nat, m as nat);
                    lemma_advance(ra, m as nat);
                    lemma_advance(rb, m as nat);
                    lemma_extend_step(a1@, Step::Retain(m as nat), rest.0);
                    lemma_extend_step(b1@, Step::Retain(m as nat), rest.1);
                    lemma_extend_step(a1@, Step::Delete(m as nat), rest.0);
                    lemma_extend_step(b1@, Step::Delete(m as nat), rest.1);
                }
                let keep_a = a[i].is_retain();
                let keep_b = b[j].is_retain();
                if keep_a && keep_b {
                    a1.retain(m);
                    b1.retain(m);
                } else if keep_b {
                    a1.delete(m);
                } else if keep_a {
                    b1.delete(m);
                }
                if m == left_a {
                    i += 1;
                    done_a = 0;
                } else {
                    done_a = done_a + m;
                }
                if m == left_b {
                    j += 1;
                    done_b = 0;
                } else {
                    done_b = done_b + m;
                }
                proof {
                    assert(i < a.len() ==> self@[i as int].size() > 0);
                    assert(j < b.len() ==> other@[j as int].size() > 0);
                }
            }
        }
        proof {
            assert forall|text: Seq<char>|
                #![trigger apply_steps(self@, text)]
                #![trigger apply_steps(other@, text)]
                text.len() == base_len(self@) implies apply_steps(b1@, apply_steps(self@, text))
                == apply_steps(a1@, apply_steps(other@, text)) by {
                law_transform_converges(self@, other@, text);
            }
        }
        Ok((a1, b1))
    }
}

} // verus!
