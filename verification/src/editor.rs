//! Edits of a shared text, and how an edit is changed to follow another one
//! that was applied first.

use vstd::prelude::*;
use vstd::string::string_is_ascii;

verus! {

/// Actions (edits) which can be applied to a text.
#[derive(Clone, PartialEq, Eq, Debug, Structural)]
pub enum Action {
    /// Insert the character at the position.
    Insert { idx: usize, ch: char },
    /// Delete a character at the position.
    Delete { idx: usize },
    /// A _do nothing_ operation.
    Nop,
}

/// `String::insert` on a text of ASCII characters, where every position up
/// to the length is the boundary of a character: `ch` stands at `idx`
/// afterwards, before what stood there.
#[verifier::external_body]
fn text_insert(text: &mut String, idx: usize, ch: char)
    requires
        string_is_ascii(old(text)),
        idx <= old(text)@.len(),
    ensures
        final(text)@ == old(text)@.insert(idx as int, ch),
{
    text.insert(idx, ch)
}

/// `String::remove` on a text of ASCII characters: the character at `idx`
/// is taken out and returned.
#[verifier::external_body]
fn text_remove(text: &mut String, idx: usize) -> (ch: char)
    requires
        string_is_ascii(old(text)),
        idx < old(text)@.len(),
    ensures
        ch == old(text)@[idx as int],
        final(text)@ == old(text)@.remove(idx as int),
{
    text.remove(idx)
}

impl Action {
    /// The action can be applied to the text: its position lies in the text,
    /// or at its end for an insertion.
    pub open spec fn fits(self, text: Seq<char>) -> bool {
        match self {
            Action::Insert { idx, .. } => idx <= text.len(),
            Action::Delete { idx } => idx < text.len(),
            Action::Nop => true,
        }
    }

    /// The text after the action.
    pub open spec fn applied(self, text: Seq<char>) -> Seq<char> {
        match self {
            Action::Insert { idx, ch } => text.insert(idx as int, ch),
            Action::Delete { idx } => text.remove(idx as int),
            Action::Nop => text,
        }
    }

    /// Apply the action to the text, which holds ASCII characters.
    pub fn apply_to(&self, text: &mut String)
        requires
            string_is_ascii(old(text)),
            self.fits(old(text)@),
        ensures
            final(text)@ == self.applied(old(text)@),
    {
        match self {
            Action::Insert { idx, ch } => {
                text_insert(text, *idx, *ch);
            },
            Action::Delete { idx } => {
                let _ = text_remove(text, *idx);
            },
            Action::Nop => {},
        }
    }
}

/// An action with the rank of the process which issued it.
#[derive(Clone, PartialEq, Eq, Debug, Structural)]
pub struct Operation {
    /// Rank of a process which issued this operation.
    pub process_rank: usize,
    /// Action (edit) to be applied to a text.
    pub action: Action,
}

/// `op1` as it is applied behind `op2`. An edit before the place of `op2`
/// stays as it is; behind it, a deletion moves with the text; two deletions
/// of one character leave nothing to do.
pub open spec fn spec_transform(op1: Operation, op2: Operation) -> Operation {
    let first_rank = op1.process_rank;
    let second_rank = op2.process_rank;
    match (op1.action, op2.action) {
        (Action::Nop, _) => op1,
        (_, Action::Nop) => op1,
        (Action::Insert { idx: first_at, ch: _ }, Action::Insert { idx: second_at, ch: second_ch }) => if first_at < second_at || (
        first_at == second_at && first_rank < second_rank) {
            op1
        } else {
            Operation { action: Action::Insert { idx: first_at, ch: second_ch }, process_rank: first_rank }
        },
        (Action::Delete { idx: first_at }, Action::Delete { idx: second_at }) => if first_at < second_at {
            op1
        } else if first_at == second_at {
            Operation { action: Action::Nop, process_rank: first_rank }
        } else {
            Operation { action: Action::Delete { idx: (first_at - 1) as usize }, process_rank: first_rank }
        },
        (Action::Insert { idx: first_at, ch: first_ch }, Action::Delete { idx: second_at }) => if first_at <= second_at {
            op1
        } else {
            Operation { action: Action::Insert { idx: (first_at - 1) as usize, ch: first_ch }, process_rank: first_rank }
        },
        (Action::Delete { idx: first_at }, Action::Insert { idx: second_at, ch: _ }) => if first_at < second_at {
            op1
        } else {
            Operation { action: Action::Delete { idx: (first_at + 1) as usize }, process_rank: first_rank }
        },
    }
}

/// Whether `transform` would move a deletion beyond `usize`.
pub open spec fn transform_overflows(op1: Operation, op2: Operation) -> bool {
    &&& op1.action matches Action::Delete { idx: first_at }
    &&& op2.action matches Action::Insert { idx: second_at, .. }
    &&& first_at >= second_at
    &&& first_at == usize::MAX
}

/// Changes `op1` so that it can be applied behind `op2`.
pub fn transform(op1: Operation, op2: Operation) -> (r: Operation)
    requires
        !transform_overflows(op1, op2),
    ensures
        r == spec_transform(op1, op2),
{
    let first_rank = op1.process_rank;
    let second_rank = op2.process_rank;
    match (&op1.action, &op2.action) {
        (Action::Nop, _) => op1,
        (_, Action::Nop) => op1,
        (Action::Insert { idx: first_at, ch: _ }, Action::Insert { idx: second_at, ch: second_ch }) => {
            if *first_at < *second_at {
                return op1;
            }
            if *first_at == *second_at && first_rank < second_rank {
                op1
            } else {
                Operation { action: Action::Insert { idx: *first_at, ch: *second_ch }, process_rank: first_rank }
            }
        },
        (Action::Delete { idx: first_at }, Action::Delete { idx: second_at }) => {
            if *first_at < *second_at {
                return op1;
            }
            if *first_at == *second_at {
                Operation { action: Action::Nop, process_rank: first_rank }
            } else {
                Operation { action: Action::Delete { idx: *first_at - 1 }, process_rank: first_rank }
            }
        },
        (Action::Insert { idx: first_at, ch: first_ch }, Action::Delete { idx: second_at }) => {
            if *first_at <= *second_at {
                op1
            } else {
                Operation { action: Action::Insert { idx: *first_at - 1, ch: *first_ch }, process_rank: first_rank }
            }
        },
        (Action::Delete { idx: first_at }, Action::Insert { idx: second_at, ch: _ }) => {
            if *first_at < *second_at {
                op1
            } else {
                Operation { action: Action::Delete { idx: *first_at + 1 }, process_rank: first_rank }
            }
        },
    }
}

/// Two deletions and a deletion with an insertion commute once each is
/// changed to follow the other: both orders give one text.
pub proof fn lemma_transform_converges(op1: Operation, op2: Operation, text: Seq<char>)
    requires
        op1.action.fits(text),
        op2.action.fits(text),
        !(op1.action is Insert && op2.action is Insert),
        !transform_overflows(op1, op2),
        !transform_overflows(op2, op1),
    ensures
        spec_transform(op1, op2).action.fits(op2.action.applied(text)),
        spec_transform(op2, op1).action.fits(op1.action.applied(text)),
        spec_transform(op1, op2).action.applied(op2.action.applied(text)) == spec_transform(
            op2,
            op1,
        ).action.applied(op1.action.applied(text)),
{
    match (op1.action, op2.action) {
        (Action::Delete { idx: first_at }, Action::Delete { idx: second_at }) => {
            lemma_deletions_converge(first_at, second_at, text);
            lemma_deletions_converge(second_at, first_at, text);
        },
        (Action::Insert { idx: first_at, ch: first_ch }, Action::Delete { idx: second_at }) => {
            lemma_insertion_and_deletion_converge(first_at, first_ch, second_at, text);
        },
        (Action::Delete { idx: first_at }, Action::Insert { idx: second_at, ch: second_ch }) => {
            lemma_insertion_and_deletion_converge(second_at, second_ch, first_at, text);
        },
        _ => {},
    }
}

/// Two deletions, the first before the second or at its place.
proof fn lemma_deletions_converge(first_at: usize, second_at: usize, text: Seq<char>)
    requires
        first_at < text.len(),
        second_at < text.len(),
    ensures
        first_at < second_at ==> text.remove(second_at as int).remove(first_at as int) == text.remove(first_at as int).remove(
            second_at - 1,
        ),
{
    if first_at < second_at {
        assert(text.remove(second_at as int).remove(first_at as int) =~= text.remove(first_at as int).remove(second_at - 1));
    }
}

/// An insertion and a deletion, in both orders.
proof fn lemma_insertion_and_deletion_converge(first_at: usize, first_ch: char, second_at: usize, text: Seq<char>)
    requires
        first_at <= text.len(),
        second_at < text.len(),
    ensures
        first_at <= second_at ==> text.remove(second_at as int).insert(first_at as int, first_ch) == text.insert(
            first_at as int,
            first_ch,
        ).remove(second_at + 1),
        first_at > second_at ==> text.remove(second_at as int).insert(first_at - 1, first_ch) == text.insert(first_at as int, first_ch).remove(
            second_at as int,
        ),
{
    if first_at <= second_at {
        assert(text.remove(second_at as int).insert(first_at as int, first_ch) =~= text.insert(first_at as int, first_ch).remove(
            second_at + 1,
        ));
    } else {
        assert(text.remove(second_at as int).insert(first_at - 1, first_ch) =~= text.insert(first_at as int, first_ch).remove(
            second_at as int,
        ));
    }
}

} // verus!
