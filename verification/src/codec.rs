//! Edits and logs on the wire: an edit is an array whose items are an
//! unsigned number for a `Retain`, a negative number for a `Delete` and a
//! text for an `Insert`.

use crate::model::{base_len, canonical, extend, normalize, push_step, target_len, Step};
use crate::operation::{steps_of, Operation, OperationSeq};
use crate::proofs::apply::{lemma_len_concat, lemma_len_push};
use crate::proofs::builder::lemma_normalize;
use crate::wire::{
    has_at, head, lemma_has_at_split, lemma_head_round_trip, lemma_text_round_trip, read_head,
    read_text, take_head, take_text, text_item, write_head, write_text, MAJOR_ARRAY,
    MAJOR_NEGATIVE, MAJOR_TEXT, MAJOR_UNSIGNED,
};
use vstd::prelude::*;
use vstd::string::*;
use vstd::utf8::*;

verus! {

/// One step as a data item.
pub open spec fn step_item(step: Step) -> Seq<u8> {
    match step {
        Step::Retain(n) => head(MAJOR_UNSIGNED, n),
        Step::Delete(n) => head(MAJOR_NEGATIVE, (n - 1) as nat),
        Step::Insert(s) => text_item(s),
    }
}

/// Whether a step can be written: its number, or the length of its text in
/// bytes, fits the head of a data item.
pub open spec fn step_writable(step: Step) -> bool {
    match step {
        Step::Retain(n) => n <= u64::MAX,
        Step::Delete(n) => 1 <= n <= u64::MAX,
        Step::Insert(s) => encode_utf8(s).len() <= u64::MAX,
    }
}

/// The items of the steps, one after the other.
pub open spec fn steps_items(steps: Seq<Step>) -> Seq<u8>
    decreases steps.len(),
{
    if steps.len() == 0 {
        Seq::empty()
    } else {
        steps_items(steps.drop_last()) + step_item(steps.last())
    }
}

/// Whether an edit can be written.
pub open spec fn edit_writable(steps: Seq<Step>) -> bool {
    &&& steps.len() <= u64::MAX
    &&& forall|i: int| 0 <= i < steps.len() ==> step_writable(#[trigger] steps[i])
}

/// An edit as a data item: an array of its steps.
pub open spec fn edit_item(steps: Seq<Step>) -> Seq<u8> {
    head(MAJOR_ARRAY, steps.len()) + steps_items(steps)
}

/// The step that stands in `s` at `pos`, and the place after it.
pub open spec fn read_step(s: Seq<u8>, pos: int) -> Option<(Step, int)> {
    match read_head(s, pos) {
        Some((major, arg, next)) => if major == MAJOR_UNSIGNED {
            Some((Step::Retain(arg), next))
        } else if major == MAJOR_NEGATIVE {
            Some((Step::Delete(arg + 1), next))
        } else {
            match read_text(s, pos) {
                Some((text, end)) => Some((Step::Insert(text), end)),
                None => None,
            }
        },
        None => None,
    }
}

/// The `count` steps that stand in `s` from `pos` on, and the place after
/// them.
pub open spec fn read_steps(s: Seq<u8>, pos: int, count: nat) -> Option<(Seq<Step>, int)>
    decreases count,
{
    if count == 0 {
        Some((Seq::empty(), pos))
    } else {
        match read_steps(s, pos, (count - 1) as nat) {
            Some((front, mid)) => match read_step(s, mid) {
                Some((step, end)) => Some((front.push(step), end)),
                None => None,
            },
            None => None,
        }
    }
}

/// Whether the lengths of the steps can be counted in a `usize`.
pub open spec fn fits(steps: Seq<Step>) -> bool {
    base_len(steps) <= usize::MAX && target_len(steps) <= usize::MAX
}

/// The edit that stands in `s` at `pos`, in canonical form, and the place
/// after it. The steps need not be canonical as they stand; their lengths
/// must fit a `usize`.
pub open spec fn read_edit(s: Seq<u8>, pos: int) -> Option<(Seq<Step>, int)> {
    match read_head(s, pos) {
        Some((major, count, next)) => if major == MAJOR_ARRAY {
            match read_steps(s, next, count) {
                Some((raw, end)) => if fits(raw) {
                    Some((normalize(raw), end))
                } else {
                    None
                },
                None => None,
            }
        } else {
            None
        },
        None => None,
    }
}

/// A step that was written is read back.
pub proof fn lemma_step_round_trip(s: Seq<u8>, pos: int, step: Step)
    requires
        step_writable(step),
        has_at(s, pos, step_item(step)),
    ensures
        read_step(s, pos) == Some((step, pos + step_item(step).len())),
{
    match step {
        Step::Retain(n) => {
            lemma_head_round_trip(s, pos, MAJOR_UNSIGNED, n);
        },
        Step::Delete(n) => {
            lemma_head_round_trip(s, pos, MAJOR_NEGATIVE, (n - 1) as nat);
        },
        Step::Insert(text) => {
            let bytes = encode_utf8(text);
            lemma_has_at_split(s, pos, head(MAJOR_TEXT, bytes.len()), bytes);
            lemma_head_round_trip(s, pos, MAJOR_TEXT, bytes.len());
            lemma_text_round_trip(s, pos, text);
        },
    }
}

/// Steps that were written are read back.
pub proof fn lemma_steps_round_trip(s: Seq<u8>, pos: int, steps: Seq<Step>)
    requires
        forall|i: int| 0 <= i < steps.len() ==> step_writable(#[trigger] steps[i]),
        has_at(s, pos, steps_items(steps)),
    ensures
        read_steps(s, pos, steps.len()) == Some((steps, pos + steps_items(steps).len())),
    decreases steps.len(),
{
    if steps.len() > 0 {
        let front = steps.drop_last();
        assert forall|i: int| 0 <= i < front.len() implies step_writable(#[trigger] front[i]) by {
            assert(step_writable(steps[i]));
        }
        assert(step_writable(steps[steps.len() - 1]));
        lemma_has_at_split(s, pos, steps_items(front), step_item(steps.last()));
        lemma_steps_round_trip(s, pos, front);
        lemma_step_round_trip(s, pos + steps_items(front).len(), steps.last());
        assert(front.push(steps.last()) =~= steps);
    }
}

/// An edit that was written is read back.
pub proof fn lemma_edit_round_trip(s: Seq<u8>, pos: int, steps: Seq<Step>)
    requires
        canonical(steps),
        fits(steps),
        edit_writable(steps),
        has_at(s, pos, edit_item(steps)),
    ensures
        read_edit(s, pos) == Some((steps, pos + edit_item(steps).len())),
{
    let h = head(MAJOR_ARRAY, steps.len());
    lemma_has_at_split(s, pos, h, steps_items(steps));
    lemma_head_round_trip(s, pos, MAJOR_ARRAY, steps.len());
    lemma_steps_round_trip(s, pos + h.len(), steps);
    lemma_normalize(steps);
}

/// Reading more steps takes the steps read so far as they are.
pub proof fn lemma_read_steps_prefix(s: Seq<u8>, pos: int, count: nat, fewer: nat)
    requires
        fewer <= count,
        read_steps(s, pos, count) is Some,
    ensures
        read_steps(s, pos, fewer) is Some,
        read_steps(s, pos, count).unwrap().0.len() == count,
        read_steps(s, pos, fewer).unwrap().0 == read_steps(s, pos, count).unwrap().0.take(fewer as int),
    decreases count,
{
    if count == 0 {
        assert(read_steps(s, pos, count).unwrap().0.take(0) =~= read_steps(s, pos, 0).unwrap().0);
    } else {
        let all = read_steps(s, pos, count).unwrap().0;
        lemma_read_steps_prefix(s, pos, (count - 1) as nat, if fewer < count {
            fewer
        } else {
            (count - 1) as nat
        });
        let front = read_steps(s, pos, (count - 1) as nat).unwrap().0;
        if fewer < count {
            assert(all.take(fewer as int) =~= front.take(fewer as int));
        } else {
            assert(all.take(count as int) =~= all);
        }
    }
}

/// The first steps of steps whose lengths fit have lengths that fit.
pub proof fn lemma_fits_prefix(steps: Seq<Step>, n: int)
    requires
        0 <= n <= steps.len(),
        fits(steps),
    ensures
        fits(steps.take(n)),
{
    lemma_len_concat(steps.take(n), steps.skip(n));
    assert(steps.take(n) + steps.skip(n) =~= steps);
}

/// The builder's repeated append, seen from the last step.
pub proof fn lemma_extend_push(acc: Seq<Step>, more: Seq<Step>, last: Step)
    ensures
        extend(acc, more.push(last)) == push_step(extend(acc, more), last),
    decreases more.len(),
{
    let longer = more.push(last);
    if more.len() == 0 {
        assert(longer.drop_first() =~= more);
        assert(longer[0] == last);
        assert(extend(push_step(acc, last), longer.drop_first()) == push_step(acc, last));
    } else {
        assert(longer.drop_first() =~= more.drop_first().push(last));
        assert(longer[0] == more[0]);
        lemma_extend_push(push_step(acc, more[0]), more.drop_first(), last);
    }
}

/// Where a step cannot be read, the edit cannot be read.
pub proof fn lemma_no_step_no_edit(s: Seq<u8>, pos: int, count: nat, start: int, done: nat)
    requires
        read_head(s, pos) == Some((MAJOR_ARRAY, count, start)),
        done < count,
        read_steps(s, start, done + 1) is None,
    ensures
        read_edit(s, pos) is None,
{
    if read_steps(s, start, count) is Some {
        lemma_read_steps_prefix(s, start, count, done + 1);
    }
}

/// Where the lengths of the first steps do not fit, the edit cannot be read.
pub proof fn lemma_no_fit_no_edit(
    s: Seq<u8>,
    pos: int,
    count: nat,
    start: int,
    done: nat,
    raw: Seq<Step>,
    cur: int,
)
    requires
        read_head(s, pos) == Some((MAJOR_ARRAY, count, start)),
        done <= count,
        read_steps(s, start, done) == Some((raw, cur)),
        !fits(raw),
    ensures
        read_edit(s, pos) is None,
{
    if read_steps(s, start, count) is Some {
        let all = read_steps(s, start, count).unwrap().0;
        lemma_read_steps_prefix(s, start, count, done);
        if fits(all) {
            lemma_fits_prefix(all, done as int);
        }
    }
}

/// Appends an edit as a data item.
pub fn write_edit(out: &mut Vec<u8>, edit: &OperationSeq)
    requires
        edit.wf(),
    ensures
        final(out)@ == old(out)@ + edit_item(edit@),
        edit_writable(edit@),
{
    let ops = edit.ops();
    write_head(out, MAJOR_ARRAY, ops.len() as u64);
    let ghost start = out@;
    let mut i: usize = 0;
    proof {
        edit.lemma_wf();
        assert(start + steps_items(edit@.take(0)) =~= start);
    }
    while i < ops.len()
        invariant
            i <= ops.len(),
            steps_of(ops@) == edit@,
            canonical(edit@),
            out@ == start + steps_items(edit@.take(i as int)),
            forall|k: int| 0 <= k < i ==> step_writable(#[trigger] edit@[k]),
        decreases ops.len() - i,
    {
        let ghost before = out@;
        let ghost step = edit@[i as int];
        proof {
            assert(edit@[i as int].size() > 0);
            assert(step == ops@[i as int]@);
        }
        match &ops[i] {
            Operation::Retain(n) => write_head(out, MAJOR_UNSIGNED, *n),
            Operation::Delete(n) => write_head(out, MAJOR_NEGATIVE, *n - 1),
            Operation::Insert(text) => write_text(out, text.as_str()),
        }
        proof {
            let longer = edit@.take(i + 1);
            assert(longer.drop_last() =~= edit@.take(i as int));
            assert(longer.last() == step);
            assert(out@ == before + step_item(step));
            assert(out@ =~= start + steps_items(longer));
        }
        i += 1;
    }
    proof {
        assert(edit@.take(i as int) =~= edit@);
        assert(out@ =~= old(out)@ + edit_item(edit@));
    }
}

/// Reads the edit at `pos`.
pub fn take_edit(bytes: &[u8], pos: usize) -> (res: Option<(OperationSeq, usize)>)
    ensures
        match res {
            Some((edit, next)) => {
                &&& edit.wf()
                &&& read_edit(bytes@, pos as int) == Some((edit@, next as int))
                &&& pos < next <= bytes@.len()
            },
            None => read_edit(bytes@, pos as int) is None,
        },
{
    let (count, start) = match take_head(bytes, pos) {
        Some((major, count, next)) => {
            if major != MAJOR_ARRAY {
                return None;
            }
            (count, next)
        },
        None => {
            return None;
        },
    };
    let mut edit = OperationSeq::new();
    let ghost mut raw: Seq<Step> = Seq::empty();
    let mut cur: usize = start;
    let mut i: u64 = 0;
    while i < count
        invariant
            i <= count,
            edit.wf(),
            edit@ == normalize(raw),
            read_head(bytes@, pos as int) == Some((MAJOR_ARRAY, count as nat, start as int)),
            read_steps(bytes@, start as int, i as nat) == Some((raw, cur as int)),
            pos < start <= cur <= bytes@.len(),
        decreases count - i,
    {
        proof {
            lemma_normalize(raw);
            edit.lemma_wf();
        }
        let ghost s = bytes@;
        let room_base: usize = usize::MAX - edit.base_len();
        let room_target: usize = usize::MAX - edit.target_len();
        let (major, arg, next) = match take_head(bytes, cur) {
            Some(found) => found,
            None => {
                proof {
                    lemma_no_step_no_edit(s, pos as int, count as nat, start as int, i as nat);
                }
                return None;
            },
        };
        let ghost step: Step;
        if major == MAJOR_UNSIGNED {
            proof {
                step = Step::Retain(arg as nat);
                lemma_len_push(raw, step);
            }
            if arg > room_base as u64 || arg > room_target as u64 {
                proof {
                    lemma_no_fit_no_edit(
                        s,
                        pos as int,
                        count as nat,
                        start as int,
                        (i + 1) as nat,
                        raw.push(step),
                        next as int,
                    );
                }
                return None;
            }
            edit.retain(arg);
            cur = next;
        } else if major == MAJOR_NEGATIVE {
            proof {
                step = Step::Delete(arg as nat + 1);
                lemma_len_push(raw, step);
            }
            if arg >= room_base as u64 {
                proof {
                    lemma_no_fit_no_edit(
                        s,
                        pos as int,
                        count as nat,
                        start as int,
                        (i + 1) as nat,
                        raw.push(step),
                        next as int,
                    );
                }
                return None;
            }
            edit.delete(arg + 1);
            cur = next;
        } else {
            let (text, end) = match take_text(bytes, cur) {
                Some(found) => found,
                None => {
                    proof {
                        lemma_no_step_no_edit(
                            s,
                            pos as int,
                            count as nat,
                            start as int,
                            i as nat,
                        );
                    }
                    return None;
                },
            };
            proof {
                step = Step::Insert(text@);
                lemma_len_push(raw, step);
            }
            if text.as_str().unicode_len() > room_target {
                proof {
                    lemma_no_fit_no_edit(
                        s,
                        pos as int,
                        count as nat,
                        start as int,
                        (i + 1) as nat,
                        raw.push(step),
                        end as int,
                    );
                }
                return None;
            }
            edit.insert(text.as_str());
            cur = end;
        }
        proof {
            lemma_extend_push(Seq::empty(), raw, step);
            raw = raw.push(step);
        }
        i += 1;
    }
    proof {
        lemma_normalize(raw);
        edit.lemma_wf();
    }
    Some((edit, cur))
}

} // verus!
