//! Sequential composition of two edits.

use crate::laws::law_compose_applies;
use crate::model::{
    advance, apply_steps, base_len, compose_steps, extend, fuse, positive, smaller, target_len,
    Step,
};
use crate::operation::{steps_of, LengthMismatch, Operation, OperationSeq};
use crate::proofs::apply::lemma_step_within;
use crate::proofs::builder::{lemma_extend_step, lemma_normalize};
use crate::proofs::cursor::{cursor_ok, lemma_rest_at, lemma_rest_at_advance, rest_at};
use crate::proofs::walk::{lemma_advance, lemma_fuse_len};
use crate::transform::copy_insert;
use vstd::prelude::*;
use vstd::string::*;

verus! {

impl OperationSeq {
    /// Composes two edits into one that does to a text what `self` and then
    /// `other` do.
    ///
    /// It fails if and only if `self` makes a text of another length than
    /// `other` is for.
    pub fn compose(&self, other: &OperationSeq) -> (res: Result<OperationSeq, LengthMismatch>)
        requires
            self.wf(),
            other.wf(),
        ensures
            res is Ok <==> target_len(self@) == base_len(other@),
            res matches Ok(both) ==> both.wf() && both@ == compose_steps(self@, other@),
            res matches Ok(both) ==> base_len(both@) == base_len(self@) && target_len(both@)
                == target_len(other@),
            res matches Ok(both) ==> forall|text: Seq<char>|
                #![trigger apply_steps(self@, text)]
                text.len() == base_len(self@) ==> apply_steps(both@, text) == apply_steps(
                    other@,
                    apply_steps(self@, text),
                ),
    {
        if self.target_len() != other.base_len() {
            return Err(LengthMismatch);
        }
        let a = self.ops();
        let b = other.ops();
        let ghost goal = compose_steps(self@, other@);
        let mut both = OperationSeq::new();
        let mut i: usize = 0;
        let mut j: usize = 0;
        let mut done_a: u64 = 0;
        let mut done_b: u64 = 0;
        proof {
            self.lemma_wf();
            other.lemma_wf();
            lemma_fuse_len(self@, other@);
            lemma_normalize(fuse(self@, other@));
            assert(rest_at(self@, 0, 0) =~= self@);
            assert(rest_at(other@, 0, 0) =~= other@);
            assert(self@.len() > 0 ==> self@[0].size() > 0);
            assert(other@.len() > 0 ==> other@[0].size() > 0);
        }
        loop
            invariant
                self.wf(),
                other.wf(),
                both.wf(),
                steps_of(a@) == self@,
                steps_of(b@) == other@,
                positive(self@),
                positive(other@),
                cursor_ok(self@, i as int, done_a as nat),
                cursor_ok(other@, j as int, done_b as nat),
                i < a.len() && self@[i as int] is Delete ==> done_a == 0,
                j < b.len() && other@[j as int] is Insert ==> done_b == 0,
                target_len(rest_at(self@, i as int, done_a as nat)) == base_len(
                    rest_at(other@, j as int, done_b as nat),
                ),
                goal == compose_steps(self@, other@),
                extend(
                    both@,
                    fuse(
                        rest_at(self@, i as int, done_a as nat),
                        rest_at(other@, j as int, done_b as nat),
                    ),
                ) == goal,
                base_len(goal) <= usize::MAX,
                target_len(goal) <= usize::MAX,
            ensures
                both.wf(),
                both@ == goal,
            decreases (a.len() - i) + (b.len() - j),
        {
            let ghost ra = rest_at(self@, i as int, done_a as nat);
            let ghost rb = rest_at(other@, j as int, done_b as nat);
            proof {
                lemma_rest_at(self@, i as int, done_a as nat);
                lemma_rest_at(other@, j as int, done_b as nat);
            }
            if i < a.len() && a[i].is_delete() {
                proof {
                    lemma_extend_step(both@, ra[0], fuse(ra.drop_first(), rb));
                }
                both.delete(a[i].span());
                i += 1;
                proof {
                    assert(i < a.len() ==> self@[i as int].size() > 0);
                }
            } else if j < b.len() && b[j].is_insert() {
                proof {
                    lemma_extend_step(both@, rb[0], fuse(ra, rb.drop_first()));
                }
                copy_insert(&b[j], &mut both);
                j += 1;
                proof {
                    assert(j < b.len() ==> other@[j as int].size() > 0);
                }
            } else if i == a.len() && j == b.len() {
                break ;
            } else if i == a.len() || j == b.len() {
                proof {
                    if i < a.len() {
                        assert(ra[0].produced() > 0);
                    }
                    if j < b.len() {
                        assert(rb[0].consumed() > 0);
                    }
                    assert(false);
                }
                return Err(LengthMismatch);
            } else {
                proof {
                    self.lemma_wf();
                    other.lemma_wf();
                    lemma_step_within(self@, i as int);
                    lemma_step_within(other@, j as int);
                }
                let left_a: u64 = a[i].span() - done_a;
                let left_b: u64 = b[j].span() - done_b;
                let m: u64 = if left_a <= left_b {
                    left_a
                } else {
                    left_b
                };
                let ghost rest = fuse(advance(ra, m as nat), advance(rb, m as nat));
                proof {
                    assert(m == smaller(ra[0].size(), rb[0].size()));
                    lemma_rest_at_advance(self@, i as int, done_a as nat, m as nat);
                    lemma_rest_at_advance(other@, j as int, done_b as nat, m as nat);
                    lemma_advance(ra, m as nat);
                    lemma_advance(rb, m as nat);
                    lemma_extend_step(both@, Step::Retain(m as nat), rest);
                    lemma_extend_step(both@, Step::Delete(m as nat), rest);
                }
                let drop_b = b[j].is_delete();
                match &a[i] {
                    Operation::Insert(s) => {
                        if !drop_b {
                            let from = done_a as usize;
                            let to = (done_a + m) as usize;
                            let piece = s.as_str().substring_char(from, to);
                            proof {
                                let whole = ra[0]->Insert_0;
                                assert(piece@ =~= whole.take(m as int));
                                lemma_extend_step(both@, Step::Insert(piece@), rest);
                            }
                            both.insert(piece);
                        }
                    },
                    _ => {
                        if drop_b {
                            both.delete(m);
                        } else {
                            both.retain(m);
                        }
                    },
                }
                if m == left_a {
                    i += 1;
                    done_a = 0;
                } else {
                    done_a = done_a + m;
                }
                if m == left_b {
                    j += 1;
                    done_b = 0;
                } else {
                    done_b = done_b + m;
                }
                proof {
                    assert(i < a.len() ==> self@[i as int].size() > 0);
                    assert(j < b.len() ==> other@[j as int].size() > 0);
                }
            }
        }
        proof {
            assert forall|text: Seq<char>|
                #![trigger apply_steps(self@, text)]
                text.len() == base_len(self@) implies apply_steps(both@, text) == apply_steps(
                other@,
                apply_steps(self@, text),
            ) by {
                law_compose_applies(self@, other@, text);
            }
        }
        Ok(both)
    }
}

} // verus!
