//! The edit-script model: the `Change` record, its mathematical view, and
//! the properties a well-formed change list has — the referenced index
//! ranges partition both original sequences in order, every content field
//! holds the original content of its range, and replaying the list
//! reconstructs the new sequence.
use vstd::prelude::*;
use crate::interner::views;

verus! {

/// The single failure of a diff invocation: the sequence-diff engine
/// reported an operation stream that does not walk the two windows
/// contiguously from start to end (or its input would not fit the machine's
/// address arithmetic). No partial change list is surfaced.
#[derive(Clone, Copy, Debug, PartialEq, Eq)]
pub struct DiffError;

/// One contiguous edit operation. All indices are relative to the original,
/// untrimmed sequences; the content fields hold the affected original
/// segment contents in order.
#[derive(Debug, Clone, PartialEq, Eq)]
pub enum Change {
    Equal { old_index: usize, new: Vec<String>, new_index: usize, len: usize },
    Delete { old: Vec<String>, old_index: usize, len: usize },
    Insert { old_index: usize, new: Vec<String>, new_index: usize, new_len: usize },
    Replace {
        old: Vec<String>,
        old_index: usize,
        old_len: usize,
        new: Vec<String>,
        new_index: usize,
        new_len: usize,
    },
}

/// The mathematical value of a `Change`: indices as integers, contents as
/// sequences of character sequences.
pub enum ChangeV {
    Equal { old_index: int, new: Seq<Seq<char>>, new_index: int, len: int },
    Delete { old: Seq<Seq<char>>, old_index: int, len: int },
    Insert { old_index: int, new: Seq<Seq<char>>, new_index: int, new_len: int },
    Replace {
        old: Seq<Seq<char>>,
        old_index: int,
        old_len: int,
        new: Seq<Seq<char>>,
        new_index: int,
        new_len: int,
    },
}

impl View for Change {
    type V = ChangeV;

    open spec fn view(&self) -> ChangeV {
        match self {
            Change::Equal { old_index, new, new_index, len } => ChangeV::Equal {
                old_index: *old_index as int,
                new: views(new@),
                new_index: *new_index as int,
                len: *len as int,
            },
            Change::Delete { old, old_index, len } => ChangeV::Delete {
                old: views(old@),
                old_index: *old_index as int,
                len: *len as int,
            },
            Change::Insert { old_index, new, new_index, new_len } => ChangeV::Insert {
                old_index: *old_index as int,
                new: views(new@),
                new_index: *new_index as int,
                new_len: *new_len as int,
            },
            Change::Replace { old, old_index, old_len, new, new_index, new_len } => ChangeV::Replace {
                old: views(old@),
                old_index: *old_index as int,
                old_len: *old_len as int,
                new: views(new@),
                new_index: *new_index as int,
                new_len: *new_len as int,
            },
        }
    }
}

/// The views of a sequence of changes.
pub open spec fn changes_v(cs: Seq<Change>) -> Seq<ChangeV> {
    cs.map_values(|c: Change| c@)
}

/// The change list walks both sequences in lockstep: starting at cursors
/// `(i, j)`, each element begins exactly at the current cursor of each side
/// it references and advances that cursor by its length, and the cursors end
/// exactly at `(n_old, n_new)`. This is the coverage invariant: projected
/// onto either sequence, the referenced ranges partition it in order with no
/// gap and no overlap.
pub open spec fn covers_from(cs: Seq<ChangeV>, i: int, j: int, n_old: int, n_new: int) -> bool
    decreases cs.len(),
{
    if cs.len() == 0 {
        i == n_old && j == n_new
    } else {
        let rest = cs.drop_first();
        match cs[0] {
            ChangeV::Equal { old_index, new, new_index, len } => old_index == i && new_index == j
                && 0 <= len && covers_from(rest, i + len, j + len, n_old, n_new),
            ChangeV::Delete { old, old_index, len } => old_index == i && 0 <= len && covers_from(
                rest,
                i + len,
                j,
                n_old,
                n_new,
            ),
            ChangeV::Insert { old_index, new, new_index, new_len } => old_index == i && new_index
                == j && 0 <= new_len && covers_from(rest, i, j + new_len, n_old, n_new),
            ChangeV::Replace { old, old_index, old_len, new, new_index, new_len } => old_index == i
                && new_index == j && 0 <= old_len && 0 <= new_len && covers_from(
                rest,
                i + old_len,
                j + new_len,
                n_old,
                n_new,
            ),
        }
    }
}

/// Coverage of whole sequences, from the start.
pub open spec fn covers(cs: Seq<ChangeV>, n_old: int, n_new: int) -> bool {
    covers_from(cs, 0, 0, n_old, n_new)
}

/// One change's content fields hold exactly the original contents of the
/// ranges its indices describe; an `Equal` moreover really marks a matching
/// run of `old` and `new`.
pub open spec fn content_ok_one(c: ChangeV, o: Seq<Seq<char>>, n: Seq<Seq<char>>) -> bool {
    match c {
        ChangeV::Equal { old_index, new, new_index, len } => new == n.subrange(
            new_index,
            new_index + len,
        ) && o.subrange(old_index, old_index + len) == n.subrange(new_index, new_index + len),
        ChangeV::Delete { old, old_index, len } => old == o.subrange(old_index, old_index + len),
        ChangeV::Insert { old_index, new, new_index, new_len } => new == n.subrange(
            new_index,
            new_index + new_len,
        ),
        ChangeV::Replace { old, old_index, old_len, new, new_index, new_len } => old == o.subrange(
            old_index,
            old_index + old_len,
        ) && new == n.subrange(new_index, new_index + new_len),
    }
}

/// Every change in the list has faithful content fields.
pub open spec fn contents_ok(cs: Seq<ChangeV>, o: Seq<Seq<char>>, n: Seq<Seq<char>>) -> bool
    decreases cs.len(),
{
    if cs.len() == 0 {
        true
    } else {
        content_ok_one(cs[0], o, n) && contents_ok(cs.drop_first(), o, n)
    }
}

/// Replaying the change list in order: keep an `Equal`'s content, drop a
/// `Delete`, splice in an `Insert`'s or a `Replace`'s new content.
pub open spec fn reconstruct(cs: Seq<ChangeV>) -> Seq<Seq<char>>
    decreases cs.len(),
{
    if cs.len() == 0 {
        Seq::<Seq<char>>::empty()
    } else {
        (match cs[0] {
            ChangeV::Equal { new, .. } => new,
            ChangeV::Delete { .. } => Seq::<Seq<char>>::empty(),
            ChangeV::Insert { new, .. } => new,
            ChangeV::Replace { new, .. } => new,
        }) + reconstruct(cs.drop_first())
    }
}

/// The reconstruction law: a change list that covers `o` and `n` from
/// cursors `(i, j)` with faithful contents replays to exactly the uncovered
/// remainder of `n`. With `i == j == 0` this says the list rebuilds `n`.
pub proof fn lemma_reconstruct(
    cs: Seq<ChangeV>,
    o: Seq<Seq<char>>,
    n: Seq<Seq<char>>,
    i: int,
    j: int,
)
    requires
        0 <= i,
        0 <= j,
        covers_from(cs, i, j, o.len() as int, n.len() as int),
        contents_ok(cs, o, n),
    ensures
        j <= n.len(),
        reconstruct(cs) == n.subrange(j, n.len() as int),
    decreases cs.len(),
{
    if cs.len() == 0 {
        assert(reconstruct(cs) =~= n.subrange(j, n.len() as int));
    } else {
        let rest = cs.drop_first();
        match cs[0] {
            ChangeV::Equal { old_index, new, new_index, len } => {
                lemma_reconstruct(rest, o, n, i + len, j + len);
                assert(n.subrange(j, j + len) + n.subrange(j + len, n.len() as int) =~= n.subrange(
                    j,
                    n.len() as int,
                ));
            },
            ChangeV::Delete { old, old_index, len } => {
                lemma_reconstruct(rest, o, n, i + len, j);
                assert(reconstruct(cs) =~= reconstruct(rest));
            },
            ChangeV::Insert { old_index, new, new_index, new_len } => {
                lemma_reconstruct(rest, o, n, i, j + new_len);
                assert(n.subrange(j, j + new_len) + n.subrange(j + new_len, n.len() as int)
                    =~= n.subrange(j, n.len() as int));
            },
            ChangeV::Replace { old, old_index, old_len, new, new_index, new_len } => {
                lemma_reconstruct(rest, o, n, i + old_len, j + new_len);
                assert(n.subrange(j, j + new_len) + n.subrange(j + new_len, n.len() as int)
                    =~= n.subrange(j, n.len() as int));
            },
        }
    }
}

} // verus!
