//! The shared document: its text and the append-only log of the edits that
//! made it, and how an edit written against an earlier revision is brought
//! up to date and appended.

use crate::model::{
    apply_steps, base_len, canonical, cross, push_insert, target_len, transform_steps, Step,
};
use crate::operation::OperationSeq;
use crate::proofs::apply::lemma_apply_len;
use crate::proofs::builder::lemma_normalize;
use crate::proofs::walk::lemma_cross_len;
use vstd::prelude::*;
use vstd::string::*;

verus! {

/// The number of edits in the log.
pub type Revision = usize;

/// Why an edit was refused.
#[derive(Debug, Clone, Copy, PartialEq, Eq)]
pub enum EditError {
    /// The edit claims a revision that the log has not reached.
    UnknownRevision,
    /// The edit is not for a text of the length that the document had at
    /// the revision it claims.
    LengthMismatch,
    /// Bringing the edit up to date needs a length beyond `usize::MAX`.
    TooLong,
}

/// The text that the first `n` edits of `log` make of the empty text.
pub open spec fn replay(log: Seq<Seq<Step>>, n: nat) -> Seq<char>
    decreases n,
{
    if n == 0 {
        Seq::empty()
    } else {
        apply_steps(log[n - 1], replay(log, (n - 1) as nat))
    }
}

/// The edit `op`, written against revision `from`, transformed against
/// every later edit of `log` in turn.
pub open spec fn rebase(op: Seq<Step>, log: Seq<Seq<Step>>, from: nat) -> Seq<Step>
    decreases log.len() - from,
{
    if from >= log.len() {
        op
    } else {
        rebase(transform_steps(op, log[from as int]).0, log, from + 1)
    }
}

/// Whether every step of `rebase` stays within the lengths that the machine
/// can count: the target lengths of the two edits transformed against each
/// other together do not exceed `usize::MAX`.
pub open spec fn rebase_fits(op: Seq<Step>, log: Seq<Seq<Step>>, from: nat) -> bool
    decreases log.len() - from,
{
    if from >= log.len() {
        true
    } else {
        &&& target_len(op) + target_len(log[from as int]) <= usize::MAX
        &&& rebase_fits(transform_steps(op, log[from as int]).0, log, from + 1)
    }
}

/// A document as a mathematical value.
pub struct Document {
    /// The current text.
    pub text: Seq<char>,
    /// The edits that made it, oldest first.
    pub log: Seq<Seq<Step>>,
}

impl Document {
    /// The revision of the document: the length of its log.
    pub open spec fn revision(self) -> nat {
        self.log.len()
    }

    /// The document that holds `text` after the one edit that inserts it.
    pub open spec fn seed(text: Seq<char>) -> Document {
        Document { text, log: seq![push_insert(Seq::empty(), text)] }
    }

    /// The log is not empty, its edits are canonical, each is for the text
    /// that the edits before it make, and together they make the text.
    pub open spec fn consistent(self) -> bool {
        &&& self.log.len() > 0
        &&& forall|k: int|
            0 <= k < self.log.len() ==> canonical(#[trigger] self.log[k]) && base_len(self.log[k])
                == replay(self.log, k as nat).len()
        &&& self.text == replay(self.log, self.log.len())
    }

    /// The length of the text at revision `from`.
    pub open spec fn len_at(self, from: nat) -> nat {
        if from < self.log.len() {
            base_len(self.log[from as int])
        } else {
            self.text.len()
        }
    }

    /// Why the edit `op`, written against revision `from`, is refused, if
    /// it is.
    pub open spec fn refusal(self, from: nat, op: Seq<Step>) -> Option<EditError> {
        if from > self.revision() {
            Some(EditError::UnknownRevision)
        } else if base_len(op) != self.len_at(from) {
            Some(EditError::LengthMismatch)
        } else if !rebase_fits(op, self.log, from) {
            Some(EditError::TooLong)
        } else {
            None
        }
    }

    /// The document after the edit `op`, written against revision `from`:
    /// the edit is brought up to date, applied to the text and appended to
    /// the log. A refused edit leaves the document as it is.
    pub open spec fn edit(self, from: nat, op: Seq<Step>) -> Document {
        if self.refusal(from, op) is Some {
            self
        } else {
            let current = rebase(op, self.log, from);
            Document { text: apply_steps(current, self.text), log: self.log.push(current) }
        }
    }
}

/// The documents after the edits `requests`, each given with the revision
/// it was written against, have come in one after the other.
pub open spec fn run(doc: Document, requests: Seq<(nat, Seq<Step>)>) -> Document
    decreases requests.len(),
{
    if requests.len() == 0 {
        doc
    } else {
        run(doc, requests.drop_last()).edit(requests.last().0, requests.last().1)
    }
}

/// How many of the edits `requests` were accepted as they came in.
pub open spec fn accepted(doc: Document, requests: Seq<(nat, Seq<Step>)>) -> nat
    decreases requests.len(),
{
    if requests.len() == 0 {
        0
    } else {
        let before = run(doc, requests.drop_last());
        accepted(doc, requests.drop_last()) + (if before.refusal(
            requests.last().0,
            requests.last().1,
        ) is None {
            1nat
        } else {
            0nat
        })
    }
}

/// A seeded document is consistent and at revision 1.
pub proof fn lemma_seed(text: Seq<char>)
    ensures
        Document::seed(text).consistent(),
        Document::seed(text).revision() == 1,
{
    let doc = Document::seed(text);
    let first = push_insert(Seq::empty(), text);
    assert(replay(doc.log, 0) =~= Seq::<char>::empty());
    assert(first =~= if text.len() == 0 {
        Seq::<Step>::empty()
    } else {
        seq![Step::Insert(text)]
    });
    if text.len() > 0 {
        assert(first.drop_first() =~= Seq::<Step>::empty());
        assert(apply_steps(first.drop_first(), Seq::<char>::empty()) =~= Seq::<char>::empty());
        assert(text + Seq::<char>::empty() =~= text);
        assert(base_len(first.drop_first()) == 0);
    } else {
        assert(text =~= Seq::<char>::empty());
    }
    assert(replay(doc.log, 1) == apply_steps(first, replay(doc.log, 0)));
}

/// Replaying a log does not look beyond the edits it replays.
pub proof fn lemma_replay_prefix(log: Seq<Seq<Step>>, longer: Seq<Seq<Step>>, n: nat)
    requires
        n <= log.len() <= longer.len(),
        forall|k: int| 0 <= k < log.len() ==> log[k] == longer[k],
    ensures
        replay(longer, n) == replay(log, n),
    decreases n,
{
    if n > 0 {
        lemma_replay_prefix(log, longer, (n - 1) as nat);
    }
}

/// In a consistent document each edit makes a text of the length that the
/// next revision has.
pub proof fn lemma_len_at_next(doc: Document, k: nat)
    requires
        doc.consistent(),
        k < doc.log.len(),
    ensures
        target_len(doc.log[k as int]) == doc.len_at(k + 1),
        replay(doc.log, k).len() == doc.len_at(k),
        replay(doc.log, k + 1).len() == doc.len_at(k + 1),
{
    assert(canonical(doc.log[k as int]));
    lemma_apply_len(doc.log[k as int], replay(doc.log, k));
    if k + 1 < doc.log.len() {
        assert(canonical(doc.log[k as int + 1]));
    }
}

/// Bringing an edit up to date: what comes out is canonical and is for the
/// current text.
pub proof fn lemma_rebase(doc: Document, op: Seq<Step>, from: nat)
    requires
        doc.consistent(),
        canonical(op),
        from <= doc.log.len(),
        base_len(op) == doc.len_at(from),
    ensures
        canonical(rebase(op, doc.log, from)),
        base_len(rebase(op, doc.log, from)) == doc.text.len(),
    decreases doc.log.len() - from,
{
    if from < doc.log.len() {
        let entry = doc.log[from as int];
        let next = transform_steps(op, entry).0;
        assert(canonical(entry));
        lemma_cross_len(op, entry);
        lemma_normalize(cross(op, entry).0);
        lemma_len_at_next(doc, from);
        lemma_rebase(doc, next, from + 1);
    }
}

/// An accepted edit keeps the document consistent, adds one entry to the
/// log, and that entry makes the new text of the old.
pub proof fn lemma_edit(doc: Document, from: nat, op: Seq<Step>)
    requires
        doc.consistent(),
        canonical(op),
    ensures
        doc.edit(from, op).consistent(),
        doc.refusal(from, op) is Some ==> doc.edit(from, op) == doc,
        doc.refusal(from, op) is None ==> {
            let after = doc.edit(from, op);
            &&& after.revision() == doc.revision() + 1
            &&& after.log.drop_last() == doc.log
            &&& base_len(after.log.last()) == doc.text.len()
            &&& after.text == apply_steps(after.log.last(), doc.text)
        },
{
    if doc.refusal(from, op) is None {
        let after = doc.edit(from, op);
        let current = rebase(op, doc.log, from);
        let n = doc.log.len();
        lemma_rebase(doc, op, from);
        assert(after.log.drop_last() =~= doc.log);
        assert forall|k: int| 0 <= k < after.log.len() implies canonical(#[trigger] after.log[k])
            && base_len(after.log[k]) == replay(after.log, k as nat).len() by {
            lemma_replay_prefix(doc.log, after.log, if k < n {
                k as nat
            } else {
                n
            });
            if k < n {
                assert(canonical(doc.log[k]));
            }
        }
        lemma_replay_prefix(doc.log, after.log, n);
    }
}

/// The document: its text and the log of the edits that made it.
#[derive(Debug)]
pub struct State {
    text: String,
    operations: Vec<OperationSeq>,
}

/// The views of a vector of edits.
pub open spec fn log_of(operations: Seq<OperationSeq>) -> Seq<Seq<Step>> {
    operations.map_values(|op: OperationSeq| op@)
}

impl View for State {
    type V = Document;

    closed spec fn view(&self) -> Document {
        Document { text: self.text@, log: log_of(self.operations@) }
    }
}

impl State {
    /// Every edit of the log is well formed and the document is consistent.
    pub closed spec fn wf(&self) -> bool {
        &&& forall|k: int| 0 <= k < self.operations.len() ==> (#[trigger] self.operations[k]).wf()
        &&& self@.consistent()
    }

    /// What `wf` says of the view.
    pub proof fn lemma_wf(&self)
        requires
            self.wf(),
        ensures
            self@.consistent(),
            self@.revision() <= usize::MAX,
            self@.text.len() <= usize::MAX,
    {
        let n = self.operations.len() as int;
        assert(self.operations[n - 1].wf());
        self.operations[n - 1].lemma_wf();
        assert(self@.log[n - 1] == self.operations[n - 1]@);
        lemma_len_at_next(self@, (n - 1) as nat);
    }

    /// The document that holds `text`, at revision 1: its log is the one
    /// edit that inserts `text`.
    pub fn from_text(text: String) -> (state: State)
        ensures
            state.wf(),
            state@ == Document::seed(text@),
    {
        let len = text.as_str().unicode_len();
        let mut operation = OperationSeq::new();
        operation.insert(text.as_str());
        let mut operations: Vec<OperationSeq> = Vec::new();
        operations.push(operation);
        let state = State { text, operations };
        proof {
            lemma_seed(text@);
            assert(state@.log =~= Document::seed(text@).log);
        }
        state
    }

    /// The revision: the number of edits in the log.
    pub fn revision(&self) -> (revision: Revision)
        ensures
            revision == self@.revision(),
    {
        self.operations.len()
    }

    /// The current text.
    pub fn text(&self) -> (text: &str)
        ensures
            text@ == self@.text,
    {
        self.text.as_str()
    }

    /// The edits of the log, oldest first.
    pub fn operations(&self) -> (operations: &Vec<OperationSeq>)
        ensures
            log_of(operations@) == self@.log,
            self.wf() ==> forall|k: int|
                0 <= k < operations.len() ==> (#[trigger] operations[k]).wf(),
    {
        &self.operations
    }

    /// The edits from revision `from` on, copied: what a client that has
    /// seen `from` edits is missing.
    pub fn history_since(&self, from: Revision) -> (history: Vec<OperationSeq>)
        requires
            from <= self@.revision(),
        ensures
            log_of(history@) == self@.log.skip(from as int),
            self.wf() ==> forall|k: int| 0 <= k < history.len() ==> (#[trigger] history[k]).wf(),
    {
        let mut history: Vec<OperationSeq> = Vec::new();
        let mut k: usize = from;
        while k < self.operations.len()
            invariant
                from <= k <= self.operations.len(),
                history.len() == k - from,
                forall|i: int| 0 <= i < history.len() ==> (#[trigger] history[i])@ == self.operations[from + i]@,
                forall|i: int|
                    0 <= i < history.len() ==> (#[trigger] history[i]).wf() == self.operations[from + i].wf(),
            decreases self.operations.len() - k,
        {
            history.push(self.operations[k].duplicate());
            k += 1;
        }
        assert(log_of(history@) =~= self@.log.skip(from as int));
        history
    }

    /// The text and the edits from revision `from` on, copied at one moment.
    pub fn snapshot(&self, from: Revision) -> (copy: (String, Vec<OperationSeq>))
        requires
            from <= self@.revision(),
        ensures
            copy.0@ == self@.text,
            log_of(copy.1@) == self@.log.skip(from as int),
            self.wf() ==> forall|k: int| 0 <= k < copy.1.len() ==> (#[trigger] copy.1[k]).wf(),
    {
        (self.text.clone(), self.history_since(from))
    }

    /// Brings the edit `operation`, written against revision `from`, up to
    /// date: it is transformed against every edit from `from` on, in turn,
    /// each time as the first of the two, so that it can be applied to the
    /// current text.
    pub fn rebase(&self, from: Revision, operation: OperationSeq) -> (res: Result<
        OperationSeq,
        EditError,
    >)
        requires
            self.wf(),
            operation.wf(),
        ensures
            match res {
                Ok(current) => {
                    &&& self@.refusal(from as nat, operation@) is None
                    &&& current.wf()
                    &&& current@ == rebase(operation@, self@.log, from as nat)
                    &&& base_len(current@) == self@.text.len()
                },
                Err(error) => self@.refusal(from as nat, operation@) == Some(error),
            },
    {
        let n = self.operations.len();
        if from > n {
            return Err(EditError::UnknownRevision);
        }
        proof {
            self.lemma_wf();
            operation.lemma_wf();
            assert(forall|k: int| 0 <= k < n ==> self@.log[k] == (#[trigger] self.operations[k])@);
            lemma_len_at_next(self@, (n - 1) as nat);
        }
        let expected = if from < n {
            self.operations[from].base_len()
        } else {
            self.operations[n - 1].target_len()
        };
        if operation.base_len() != expected {
            return Err(EditError::LengthMismatch);
        }
        let mut current = operation;
        let mut k: usize = from;
        while k < n
            invariant
                self.wf(),
                self@.consistent(),
                current.wf(),
                n == self.operations.len(),
                from <= k <= n,
                forall|i: int| 0 <= i < n ==> self@.log[i] == (#[trigger] self.operations[i])@,
                base_len(operation@) == self@.len_at(from as nat),
                base_len(current@) == self@.len_at(k as nat),
                rebase(current@, self@.log, k as nat) == rebase(
                    operation@,
                    self@.log,
                    from as nat,
                ),
                rebase_fits(current@, self@.log, k as nat) == rebase_fits(
                    operation@,
                    self@.log,
                    from as nat,
                ),
            decreases n - k,
        {
            let entry = &self.operations[k];
            proof {
                current.lemma_wf();
                entry.lemma_wf();
                lemma_cross_len(current@, entry@);
                lemma_normalize(cross(current@, entry@).0);
                lemma_len_at_next(self@, k as nat);
            }
            if current.target_len() > usize::MAX - entry.target_len() {
                return Err(EditError::TooLong);
            }
            match current.transform(entry) {
                Ok(pair) => {
                    current = pair.0;
                },
                Err(_) => {
                    return Err(EditError::LengthMismatch);
                },
            }
            k += 1;
        }
        proof {
            lemma_rebase(self@, operation@, from as nat);
        }
        Ok(current)
    }

    /// Applies the edit `operation`, written against revision `from`: it is
    /// brought up to date, applied to the text, and appended to the log as
    /// brought up to date. A refused edit leaves the document as it was.
    pub fn apply_edit(&mut self, from: Revision, operation: OperationSeq) -> (res: Result<
        (),
        EditError,
    >)
        requires
            old(self).wf(),
            operation.wf(),
        ensures
            final(self).wf(),
            final(self)@ == old(self)@.edit(from as nat, operation@),
            match res {
                Ok(_) => old(self)@.refusal(from as nat, operation@) is None,
                Err(error) => old(self)@.refusal(from as nat, operation@) == Some(error),
            },
            res is Err ==> *final(self) == *old(self),
            res is Ok ==> final(self)@.revision() == old(self)@.revision() + 1,
    {
        proof {
            operation.lemma_wf();
        }
        let current = match self.rebase(from, operation) {
            Ok(current) => current,
            Err(error) => {
                return Err(error);
            },
        };
        proof {
            lemma_edit(self@, from as nat, operation@);
        }
        match current.apply(self.text.as_str()) {
            Ok(text) => {
                self.operations.push(current);
                self.text = text;
                proof {
                    assert(self@.log =~= old(self)@.log.push(current@));
                    assert forall|k: int| 0 <= k < self.operations.len() implies (
                    #[trigger] self.operations[k]).wf() by {
                        if k < old(self).operations.len() {
                            assert(old(self).operations[k].wf());
                        }
                    }
                }
                Ok(())
            },
            Err(_) => Err(EditError::LengthMismatch),
        }
    }
}

} // verus!
