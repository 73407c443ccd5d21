//! The diff engine adapter: hands the two identity windows to the external
//! minimum-edit-distance algorithm and records the callback stream it emits,
//! as plain operation values that the change builder then checks and
//! resolves. This is the only place the library calls outside code.
use vstd::prelude::*;
use crate::interner::as_ints;

verus! {

/// One primitive operation reported by the sequence-diff engine. Indices
/// are relative to the two windows the engine was invoked on; `new` on a
/// `Delete` is the new-side cursor at which the deletion happens.
#[derive(Clone, Copy, Debug, PartialEq, Eq)]
pub enum EngineOp {
    Equal { old: usize, new: usize, len: usize },
    Delete { old: usize, len: usize, new: usize },
    Insert { old: usize, new: usize, new_len: usize },
    Replace { old: usize, old_len: usize, new: usize, new_len: usize },
}

/// The operation stream that the engine reports for two identity windows.
/// The engine is a pure algorithm over the two sequences, so its stream is a
/// function of them alone; nothing more is assumed of it here — the change
/// builder checks every use of the stream.
pub uninterp spec fn myers_ops(old: Seq<int>, new: Seq<int>) -> Seq<EngineOp>;

/// Collects the engine's callbacks in order. The callbacks never fail, so
/// the engine always runs to completion.
struct OpRecorder {
    ops: Vec<EngineOp>,
}

impl diffs::Diff for OpRecorder {
    type Error = ();

    fn equal(&mut self, old: usize, new: usize, len: usize) -> Result<(), ()> {
        self.ops.push(EngineOp::Equal { old, new, len });
        Ok(())
    }

    fn delete(&mut self, old: usize, len: usize, new: usize) -> Result<(), ()> {
        self.ops.push(EngineOp::Delete { old, len, new });
        Ok(())
    }

    fn insert(&mut self, old: usize, new: usize, new_len: usize) -> Result<(), ()> {
        self.ops.push(EngineOp::Insert { old, new, new_len });
        Ok(())
    }

    fn replace(&mut self, old: usize, old_len: usize, new: usize, new_len: usize) -> Result<
        (),
        (),
    > {
        self.ops.push(EngineOp::Replace { old, old_len, new, new_len });
        Ok(())
    }
}

/// Relies on `diffs::myers::diff` run through the `diffs::Replace`
/// combiner: the engine reports equal, delete and insert callbacks in
/// order with advancing cursors, and the combiner merges adjacent runs
/// (checking that they are contiguous, which the engine's in-order
/// emission provides) and turns a deletion-insertion pair into one
/// replacement. The algorithm reads nothing but the two slices, so the
/// recorded stream is the function of them named `myers_ops`; nothing
/// else is assumed of it — every operation is checked before use. The
/// length bound keeps the engine's internal index arithmetic in range: it
/// adds the two lengths and works with a ring buffer of twice the shorter
/// length, cast to signed indices.
#[verifier::external_body]
pub(crate) fn run_myers(old_ids: &Vec<usize>, new_ids: &Vec<usize>) -> (r: Vec<EngineOp>)
    requires
        old_ids@.len() + new_ids@.len() <= usize::MAX / 4,
    ensures
        r@ == myers_ops(as_ints(old_ids@), as_ints(new_ids@)),
{
    let mut d = diffs::Replace::new(OpRecorder { ops: Vec::new() });
    let _ = diffs::myers::diff(&mut d, old_ids, 0, old_ids.len(), new_ids, 0, new_ids.len());
    d.into_inner().ops
}

} // verus!
