//! Edits of a text: the steps of one edit, built in canonical form, and
//! their application to a text.

use crate::model::{
    apply_steps, base_len, canonical, is_identity, push_delete, push_insert, push_retain,
    push_step, target_len, Step,
};
use crate::proofs::apply::{lemma_apply_cons, lemma_step_within, lemma_uncons};
use crate::proofs::builder::{lemma_push_step_canonical, lemma_push_step_len};
use vstd::prelude::*;
use vstd::string::*;

verus! {

/// One step of an edit, with lengths counted in Unicode codepoints.
#[derive(Debug, PartialEq, Eq)]
pub enum Operation {
    /// Drop the next codepoints of the base text.
    Delete(u64),
    /// Keep the next codepoints of the base text.
    Retain(u64),
    /// Add this text.
    Insert(String),
}

impl View for Operation {
    type V = Step;

    open spec fn view(&self) -> Step {
        match self {
            Operation::Delete(n) => Step::Delete(*n as nat),
            Operation::Retain(n) => Step::Retain(*n as nat),
            Operation::Insert(s) => Step::Insert(s@),
        }
    }
}

impl Clone for Operation {
    fn clone(&self) -> (copy: Self)
        ensures
            copy == *self,
    {
        match self {
            Operation::Delete(n) => Operation::Delete(*n),
            Operation::Retain(n) => Operation::Retain(*n),
            Operation::Insert(s) => Operation::Insert(s.clone()),
        }
    }
}

impl Operation {
    /// The number of codepoints that the step covers.
    pub fn span(&self) -> (n: u64)
        ensures
            n == self@.size(),
    {
        match self {
            Operation::Delete(n) => *n,
            Operation::Retain(n) => *n,
            Operation::Insert(s) => s.as_str().unicode_len() as u64,
        }
    }

    /// Whether the step is an `Insert`.
    pub fn is_insert(&self) -> (yes: bool)
        ensures
            yes == (self@ is Insert),
    {
        match self {
            Operation::Insert(_) => true,
            _ => false,
        }
    }

    /// Whether the step is a `Retain`.
    pub fn is_retain(&self) -> (yes: bool)
        ensures
            yes == (self@ is Retain),
    {
        match self {
            Operation::Retain(_) => true,
            _ => false,
        }
    }

    /// Whether the step is a `Delete`.
    pub fn is_delete(&self) -> (yes: bool)
        ensures
            yes == (self@ is Delete),
    {
        match self {
            Operation::Delete(_) => true,
            _ => false,
        }
    }
}

/// The error of an edit whose base length does not fit what it is used on.
#[derive(Debug, Clone, Copy, PartialEq, Eq)]
pub struct LengthMismatch;

impl LengthMismatch {
    /// The error in words.
    pub fn message(&self) -> (text: String)
        ensures
            text@ == "incompatible lengths"@,
    {
        String::from_str("incompatible lengths")
    }
}

/// The views of a vector of steps.
pub open spec fn steps_of(ops: Seq<Operation>) -> Seq<Step> {
    ops.map_values(|op: Operation| op@)
}

/// An edit: steps in canonical form, with the length of the text they are
/// for and of the text they make.
#[derive(Debug, PartialEq, Eq)]
pub struct OperationSeq {
    ops: Vec<Operation>,
    base_len: usize,
    target_len: usize,
}

impl View for OperationSeq {
    type V = Seq<Step>;

    closed spec fn view(&self) -> Seq<Step> {
        steps_of(self.ops@)
    }
}

impl OperationSeq {
    /// The steps are canonical and the two lengths are theirs.
    pub closed spec fn wf(&self) -> bool {
        &&& canonical(self@)
        &&& self.base_len == base_len(self@)
        &&& self.target_len == target_len(self@)
    }

    /// What `wf` says of the view.
    pub proof fn lemma_wf(&self)
        requires
            self.wf(),
        ensures
            canonical(self@),
            base_len(self@) <= usize::MAX,
            target_len(self@) <= usize::MAX,
    {
    }

    /// The edit without steps, of the empty text.
    pub fn new() -> (seq: Self)
        ensures
            seq.wf(),
            seq@ == Seq::<Step>::empty(),
            base_len(seq@) == 0,
            target_len(seq@) == 0,
    {
        let seq = OperationSeq { ops: Vec::new(), base_len: 0, target_len: 0 };
        assert(seq@ =~= Seq::<Step>::empty());
        seq
    }

    /// The codepoint length of the text that the edit is for.
    pub fn base_len(&self) -> (len: usize)
        requires
            self.wf(),
        ensures
            len == base_len(self@),
    {
        self.base_len
    }

    /// The codepoint length of the text that the edit makes.
    pub fn target_len(&self) -> (len: usize)
        requires
            self.wf(),
        ensures
            len == target_len(self@),
    {
        self.target_len
    }

    /// The steps of the edit.
    pub fn ops(&self) -> (ops: &Vec<Operation>)
        ensures
            steps_of(ops@) == self@,
    {
        &self.ops
    }

    /// Whether the edit changes nothing: it is empty or a single `Retain`.
    pub fn is_noop(&self) -> (noop: bool)
        ensures
            noop == is_identity(self@),
    {
        if self.ops.len() == 0 {
            true
        } else if self.ops.len() == 1 {
            match &self.ops[0] {
                Operation::Retain(_) => true,
                _ => false,
            }
        } else {
            false
        }
    }

    /// Keeps the next `n` codepoints.
    pub fn retain(&mut self, n: u64)
        requires
            old(self).wf(),
            base_len(old(self)@) + n <= usize::MAX,
            target_len(old(self)@) + n <= usize::MAX,
        ensures
            final(self).wf(),
            final(self)@ == push_retain(old(self)@, n as nat),
            base_len(final(self)@) == base_len(old(self)@) + n,
            target_len(final(self)@) == target_len(old(self)@) + n,
    {
        if n == 0 {
            return ;
        }
        proof {
            lemma_push_step_len(self@, Step::Retain(n as nat));
            lemma_push_step_canonical(self@, Step::Retain(n as nat));
        }
        let len = self.ops.len();
        let last: Option<u64> = if len == 0 {
            None
        } else {
            match &self.ops[len - 1] {
                Operation::Retain(m) => Some(*m),
                _ => None,
            }
        };
        match last {
            Some(m) => {
                proof {
                    lemma_step_within(self@, len - 1);
                }
                self.ops.set(len - 1, Operation::Retain(m + n));
            },
            None => {
                self.ops.push(Operation::Retain(n));
            },
        }
        self.base_len = self.base_len + (n as usize);
        self.target_len = self.target_len + (n as usize);
        assert(self@ =~= push_retain(old(self)@, n as nat));
    }

    /// Drops the next `n` codepoints.
    pub fn delete(&mut self, n: u64)
        requires
            old(self).wf(),
            base_len(old(self)@) + n <= usize::MAX,
        ensures
            final(self).wf(),
            final(self)@ == push_delete(old(self)@, n as nat),
            base_len(final(self)@) == base_len(old(self)@) + n,
            target_len(final(self)@) == target_len(old(self)@),
    {
        if n == 0 {
            return ;
        }
        proof {
            lemma_push_step_len(self@, Step::Delete(n as nat));
            lemma_push_step_canonical(self@, Step::Delete(n as nat));
        }
        let len = self.ops.len();
        let last: Option<u64> = if len == 0 {
            None
        } else {
            match &self.ops[len - 1] {
                Operation::Delete(m) => Some(*m),
                _ => None,
            }
        };
        match last {
            Some(m) => {
                proof {
                    lemma_step_within(self@, len - 1);
                }
                self.ops.set(len - 1, Operation::Delete(m + n));
            },
            None => {
                self.ops.push(Operation::Delete(n));
            },
        }
        self.base_len = self.base_len + (n as usize);
        assert(self@ =~= push_delete(old(self)@, n as nat));
    }

    /// Adds the text `s`.
    pub fn insert(&mut self, s: &str)
        requires
            old(self).wf(),
            target_len(old(self)@) + s@.len() <= usize::MAX,
        ensures
            final(self).wf(),
            final(self)@ == push_insert(old(self)@, s@),
            base_len(final(self)@) == base_len(old(self)@),
            target_len(final(self)@) == target_len(old(self)@) + s@.len(),
    {
        let count = s.unicode_len();
        if count == 0 {
            return ;
        }
        proof {
            lemma_push_step_len(self@, Step::Insert(s@));
            lemma_push_step_canonical(self@, Step::Insert(s@));
        }
        let ghost before = self.ops@;
        match self.ops.pop() {
            None => {
                self.ops.push(Operation::Insert(String::from_str(s)));
            },
            Some(Operation::Insert(text)) => {
                self.ops.push(Operation::Insert(text.concat(s)));
            },
            Some(Operation::Retain(n)) => {
                self.ops.push(Operation::Retain(n));
                self.ops.push(Operation::Insert(String::from_str(s)));
            },
            Some(Operation::Delete(n)) => {
                match self.ops.pop() {
                    None => {
                        self.ops.push(Operation::Insert(String::from_str(s)));
                    },
                    Some(Operation::Insert(text)) => {
                        self.ops.push(Operation::Insert(text.concat(s)));
                    },
                    Some(other) => {
                        self.ops.push(other);
                        self.ops.push(Operation::Insert(String::from_str(s)));
                    },
                }
                self.ops.push(Operation::Delete(n));
            },
        }
        self.target_len = self.target_len + count;
        assert(self@ =~= push_insert(old(self)@, s@));
    }

    /// Appends one step.
    pub fn add(&mut self, op: &Operation)
        requires
            old(self).wf(),
            base_len(old(self)@) + op@.consumed() <= usize::MAX,
            target_len(old(self)@) + op@.produced() <= usize::MAX,
        ensures
            final(self).wf(),
            final(self)@ == push_step(old(self)@, op@),
            base_len(final(self)@) == base_len(old(self)@) + op@.consumed(),
            target_len(final(self)@) == target_len(old(self)@) + op@.produced(),
    {
        match op {
            Operation::Delete(n) => self.delete(*n),
            Operation::Retain(n) => self.retain(*n),
            Operation::Insert(s) => self.insert(s.as_str()),
        }
    }

    /// A copy of the edit.
    pub fn duplicate(&self) -> (copy: Self)
        ensures
            copy@ == self@,
            copy.wf() == self.wf(),
    {
        let mut ops: Vec<Operation> = Vec::new();
        let mut i: usize = 0;
        while i < self.ops.len()
            invariant
                i <= self.ops.len(),
                ops@ == self.ops@.take(i as int),
            decreases self.ops.len() - i,
        {
            ops.push(self.ops[i].clone());
            assert(ops@ =~= self.ops@.take(i + 1));
            i += 1;
        }
        assert(ops@ =~= self.ops@);
        OperationSeq { ops, base_len: self.base_len, target_len: self.target_len }
    }

    /// Applies the edit to `s`. It fails if and only if `s` has not the
    /// length that the edit is for.
    pub fn apply(&self, s: &str) -> (res: Result<String, LengthMismatch>)
        requires
            self.wf(),
        ensures
            res is Ok <==> s@.len() == base_len(self@),
            res matches Ok(text) ==> text@ == apply_steps(self@, s@),
    {
        let total = s.unicode_len();
        if total != self.base_len {
            return Err(LengthMismatch);
        }
        let mut out = String::new();
        let mut pos: usize = 0;
        let mut i: usize = 0;
        assert(self@.skip(0) =~= self@);
        assert(s@.skip(0) =~= s@);
        assert(out@ + apply_steps(self@, s@) =~= apply_steps(self@, s@));
        while i < self.ops.len()
            invariant
                self.wf(),
                i <= self.ops.len(),
                total == s@.len(),
                pos + base_len(self@.skip(i as int)) == total,
                out@ + apply_steps(self@.skip(i as int), s@.skip(pos as int)) == apply_steps(
                    self@,
                    s@,
                ),
            decreases self.ops.len() - i,
        {
            let ghost rest = self@.skip(i as int);
            let ghost tail = s@.skip(pos as int);
            proof {
                lemma_uncons(rest);
                assert(rest.drop_first() =~= self@.skip(i + 1));
                assert(rest[0] == self.ops@[i as int]@);
                lemma_apply_cons(rest[0], rest.drop_first(), tail);
            }
            match &self.ops[i] {
                Operation::Delete(n) => {
                    proof {
                        assert(tail.skip(*n as int) =~= s@.skip(pos + *n));
                    }
                    pos = pos + (*n as usize);
                },
                Operation::Retain(n) => {
                    let end = pos + (*n as usize);
                    let kept = s.substring_char(pos, end);
                    proof {
                        assert(tail.skip(*n as int) =~= s@.skip(end as int));
                        assert(kept@ =~= tail.take(*n as int));
                        let after = apply_steps(rest.drop_first(), s@.skip(end as int));
                        assert(out@ + (kept@ + after) =~= (out@ + kept@) + after);
                    }
                    out.append(kept);
                    pos = end;
                },
                Operation::Insert(text) => {
                    proof {
                        let after = apply_steps(rest.drop_first(), tail);
                        assert(out@ + (text@ + after) =~= (out@ + text@) + after);
                    }
                    out.append(text.as_str());
                },
            }
            i += 1;
        }
        proof {
            let none = apply_steps(self@.skip(i as int), s@.skip(pos as int));
            assert(out@ + none =~= out@);
        }
        Ok(out)
    }
}

} // verus!
