//! The public entry points: diff two sequences of segments, or two texts by
//! their lines. The result of a successful diff is pinned down completely
//! as a function of the inputs, so two runs over the same inputs agree; and
//! it always covers both inputs exactly, carries faithful contents, and
//! replays to the new input.
use vstd::prelude::*;
use crate::builder::engine_ok;
use crate::builder::op_old_len;
use crate::builder::ops_changes;
use crate::builder::ops_wf;
use crate::builder::spec_build;
use crate::builder::spec_ops;
use crate::builder::window_fits;
use crate::change::Change;
use crate::change::ChangeV;
use crate::change::DiffError;
use crate::change::changes_v;
use crate::change::contents_ok;
use crate::change::covers;
use crate::change::reconstruct;
use crate::engine::EngineOp;
use crate::engine::myers_ops;
use crate::interner::ids_after;
use crate::interner::lemma_intern_ids;
use crate::interner::lemma_reintern_same_ids;
use crate::interner::table_after;
use crate::interner::views;
use crate::lines::spec_lines;
use crate::lines::split_lines;
use crate::trim::Hashed;
use crate::trim::hash_changed;
use crate::trim::hash_changed_post;
use crate::trim::lemma_common_prefix_char;
use crate::trim::spec_trim;

verus! {

/// The identities the old sequence interns to, in a fresh table.
pub open spec fn diff_old_ids(o: Seq<Seq<char>>) -> Seq<int> {
    ids_after(Seq::<Seq<char>>::empty(), o)
}

/// The identities the new sequence interns to, after the old one.
pub open spec fn diff_new_ids(o: Seq<Seq<char>>, n: Seq<Seq<char>>) -> Seq<int> {
    ids_after(table_after(Seq::<Seq<char>>::empty(), o), n)
}

/// The trimming decision for the two sequences.
pub open spec fn diff_trim(o: Seq<Seq<char>>, n: Seq<Seq<char>>) -> (int, int) {
    spec_trim(diff_old_ids(o), diff_new_ids(o, n))
}

/// The old-side middle window.
pub open spec fn diff_old_window(o: Seq<Seq<char>>, n: Seq<Seq<char>>) -> Seq<int> {
    diff_old_ids(o).subrange(diff_trim(o, n).0, diff_old_ids(o).len() - diff_trim(o, n).1)
}

/// The new-side middle window.
pub open spec fn diff_new_window(o: Seq<Seq<char>>, n: Seq<Seq<char>>) -> Seq<int> {
    diff_new_ids(o, n).subrange(diff_trim(o, n).0, diff_new_ids(o, n).len() - diff_trim(o, n).1)
}

/// The operation stream for the two sequences' middle window.
pub open spec fn diff_ops(o: Seq<Seq<char>>, n: Seq<Seq<char>>) -> Seq<EngineOp> {
    let wo = diff_old_window(o, n);
    let wn = diff_new_window(o, n);
    if wo.len() == 0 && wn.len() == 0 {
        Seq::<EngineOp>::empty()
    } else if wo.len() == 0 {
        seq![EngineOp::Insert { old: 0, new: 0, new_len: wn.len() as usize }]
    } else if wn.len() == 0 {
        seq![EngineOp::Delete { old: 0, len: wo.len() as usize, new: 0 }]
    } else {
        myers_ops(wo, wn)
    }
}

/// When the diff of the two sequences succeeds: the windows fit the engine
/// and the operation stream walks them contiguously from start to end.
pub open spec fn diff_engine_ok(o: Seq<Seq<char>>, n: Seq<Seq<char>>) -> bool {
    let wo = diff_old_window(o, n);
    let wn = diff_new_window(o, n);
    &&& (wo.len() == 0 || wn.len() == 0 || wo.len() + wn.len() <= usize::MAX / 4)
    &&& ops_wf(diff_ops(o, n), 0, 0, wo, wn)
}

/// The change list of a successful diff of the two sequences.
pub open spec fn spec_diff(o: Seq<Seq<char>>, n: Seq<Seq<char>>) -> Seq<ChangeV> {
    let p = diff_trim(o, n).0;
    let s = diff_trim(o, n).1;
    (if p > 0 {
        seq![ChangeV::Equal { old_index: 0, new: n.subrange(0, p), new_index: 0, len: p }]
    } else {
        Seq::<ChangeV>::empty()
    }) + ops_changes(diff_ops(o, n), p, o, n) + (if s > 0 {
        seq![
            ChangeV::Equal {
                old_index: o.len() - s,
                new: n.subrange(n.len() - s, n.len() as int),
                new_index: n.len() - s,
                len: s,
            },
        ]
    } else {
        Seq::<ChangeV>::empty()
    })
}

/// A `Hashed` that satisfies `hash_changed`'s contract realizes exactly the
/// sequence-level spec values above.
pub proof fn lemma_hashed_matches(o: Seq<Seq<char>>, n: Seq<Seq<char>>, h: Hashed)
    requires
        hash_changed_post(o, n, h),
    ensures
        h.old_window() == diff_old_window(o, n),
        h.new_window() == diff_new_window(o, n),
        spec_ops(h) == diff_ops(o, n),
        engine_ok(h) == diff_engine_ok(o, n),
        spec_build(h) == spec_diff(o, n),
{
    assert(h.old_window() == diff_old_window(o, n));
    assert(h.new_window() == diff_new_window(o, n));
    assert(spec_ops(h) == diff_ops(o, n));
    assert(window_fits(h) == (diff_old_window(o, n).len() == 0 || diff_new_window(o, n).len() == 0
        || diff_old_window(o, n).len() + diff_new_window(o, n).len() <= usize::MAX / 4));
    assert(engine_ok(h) == diff_engine_ok(o, n));
    assert(spec_build(h) == spec_diff(o, n));
}

/// Diffs two sequences of segments. `Err` exactly when the engine's
/// operation stream is unusable (`diff_engine_ok` fails); a successful
/// result is the function `spec_diff` of the two inputs, covers both of
/// them exactly, carries their original contents, and replays to the new
/// one.
pub fn diff_segments(old: &Vec<String>, new: &Vec<String>) -> (r: Result<Vec<Change>, DiffError>)
    ensures
        (r is Err) == !diff_engine_ok(views(old@), views(new@)),
        r matches Ok(cs) ==> changes_v(cs@) == spec_diff(views(old@), views(new@)),
        r matches Ok(cs) ==> covers(changes_v(cs@), old@.len() as int, new@.len() as int),
        r matches Ok(cs) ==> contents_ok(changes_v(cs@), views(old@), views(new@)),
        r matches Ok(cs) ==> reconstruct(changes_v(cs@)) == views(new@),
{
    let ghost o = views(old@);
    let ghost n = views(new@);
    match hash_changed(old, new) {
        None => {
            let empty_changes: Vec<Change> = Vec::new();
            proof {
                assert(o.len() == 0 && n.len() == 0);
                assert(diff_old_ids(o) =~= Seq::<int>::empty());
                assert(diff_new_ids(o, n) =~= Seq::<int>::empty());
                assert(diff_trim(o, n).0 == 0 && diff_trim(o, n).1 == 0);
                assert(diff_old_window(o, n) =~= Seq::<int>::empty());
                assert(diff_new_window(o, n) =~= Seq::<int>::empty());
                assert(diff_ops(o, n) =~= Seq::<EngineOp>::empty());
                assert(ops_wf(diff_ops(o, n), 0, 0, diff_old_window(o, n), diff_new_window(o, n)));
                assert(spec_diff(o, n) =~= Seq::<ChangeV>::empty());
                assert(changes_v(empty_changes@) =~= Seq::<ChangeV>::empty());
                assert(reconstruct(changes_v(empty_changes@)) =~= n);
            }
            Ok(empty_changes)
        },
        Some(h) => {
            proof {
                lemma_hashed_matches(o, n, h);
                assert(h.old_ids().len() == old@.len());
                assert(h.new_ids().len() == new@.len());
            }
            h.myers_diff_vec()
        },
    }
}

/// Diffs two texts line by line.
pub fn diff_lines(old: &str, new: &str) -> (r: Result<Vec<Change>, DiffError>)
    ensures
        (r is Err) == !diff_engine_ok(spec_lines(old@), spec_lines(new@)),
        r matches Ok(cs) ==> changes_v(cs@) == spec_diff(spec_lines(old@), spec_lines(new@)),
        r matches Ok(cs) ==> covers(
            changes_v(cs@),
            spec_lines(old@).len() as int,
            spec_lines(new@).len() as int,
        ),
        r matches Ok(cs) ==> contents_ok(changes_v(cs@), spec_lines(old@), spec_lines(new@)),
        r matches Ok(cs) ==> reconstruct(changes_v(cs@)) == spec_lines(new@),
{
    let old_lines = split_lines(old);
    let new_lines = split_lines(new);
    diff_segments(&old_lines, &new_lines)
}

/// Determinism: a successful diff is the function `spec_diff` of its
/// inputs, so two runs over the same inputs yield the same change list.
pub proof fn lemma_diff_deterministic(
    o: Seq<Seq<char>>,
    n: Seq<Seq<char>>,
    r1: Seq<ChangeV>,
    r2: Seq<ChangeV>,
)
    requires
        r1 == spec_diff(o, n),
        r2 == spec_diff(o, n),
    ensures
        r1 == r2,
{
}

/// Identity: diffing a sequence against itself succeeds and yields exactly
/// one `Equal` covering all of it — the empty list for the empty sequence.
pub proof fn lemma_diff_identity(o: Seq<Seq<char>>)
    ensures
        diff_engine_ok(o, o),
        o.len() == 0 ==> spec_diff(o, o) == Seq::<ChangeV>::empty(),
        o.len() > 0 ==> spec_diff(o, o) == seq![
            ChangeV::Equal { old_index: 0, new: o, new_index: 0, len: o.len() as int },
        ],
{
    let e = Seq::<Seq<char>>::empty();
    lemma_reintern_same_ids(o);
    lemma_intern_ids(e, o);
    let a = diff_old_ids(o);
    let b = diff_new_ids(o, o);
    assert(b == a);
    assert(a.len() == o.len());
    lemma_common_prefix_char(a, a, a.len() as int);
    assert(diff_trim(o, o).0 == o.len() && diff_trim(o, o).1 == 0);
    assert(diff_old_window(o, o) =~= Seq::<int>::empty());
    assert(diff_new_window(o, o) =~= Seq::<int>::empty());
    assert(diff_ops(o, o) =~= Seq::<EngineOp>::empty());
    assert(ops_wf(diff_ops(o, o), 0, 0, diff_old_window(o, o), diff_new_window(o, o)));
    let mid = ops_changes(diff_ops(o, o), diff_trim(o, o).0, o, o);
    assert(mid =~= Seq::<ChangeV>::empty());
    if o.len() == 0 {
        assert(spec_diff(o, o) =~= Seq::<ChangeV>::empty());
    } else {
        assert(o.subrange(0, o.len() as int) =~= o);
        assert(spec_diff(o, o) =~= seq![
            ChangeV::Equal { old_index: 0, new: o, new_index: 0, len: o.len() as int },
        ]);
    }
}

/// Pure insertion: diffing the empty sequence against a non-empty one
/// succeeds and yields exactly one `Insert` carrying all of it.
pub proof fn lemma_diff_pure_insertion(n: Seq<Seq<char>>)
    requires
        0 < n.len() <= usize::MAX,
    ensures
        diff_engine_ok(Seq::<Seq<char>>::empty(), n),
        spec_diff(Seq::<Seq<char>>::empty(), n) == seq![
            ChangeV::Insert { old_index: 0, new: n, new_index: 0, new_len: n.len() as int },
        ],
{
    let o = Seq::<Seq<char>>::empty();
    let e = Seq::<Seq<char>>::empty();
    assert(table_after(e, o) == e);
    lemma_intern_ids(e, n);
    let a = diff_old_ids(o);
    let b = diff_new_ids(o, n);
    assert(a =~= Seq::<int>::empty());
    assert(b.len() == n.len());
    assert(diff_trim(o, n).0 == 0 && diff_trim(o, n).1 == 0);
    assert(diff_old_window(o, n) =~= Seq::<int>::empty());
    assert(diff_new_window(o, n) =~= b);
    let op = EngineOp::Insert { old: 0, new: 0, new_len: n.len() as usize };
    assert(diff_ops(o, n) == seq![op]);
    assert(ops_wf(diff_ops(o, n), 0, 0, diff_old_window(o, n), diff_new_window(o, n))) by {
        assert(seq![op].drop_first() =~= Seq::<EngineOp>::empty());
        assert(seq![op][0] == op);
        assert(op_old_len(op) == 0);
        assert(ops_wf(
            seq![op].drop_first(),
            0,
            n.len() as int,
            diff_old_window(o, n),
            diff_new_window(o, n),
        ));
    }
    let c = ChangeV::Insert { old_index: 0, new: n, new_index: 0, new_len: n.len() as int };
    assert(ops_changes(diff_ops(o, n), 0, o, n) =~= seq![c]) by {
        assert(seq![op].drop_first() =~= Seq::<EngineOp>::empty());
        assert(ops_changes(seq![op].drop_first(), 0, o, n) =~= Seq::<ChangeV>::empty());
        assert(n.subrange(0, n.len() as int) =~= n);
    }
    assert(spec_diff(o, n) =~= seq![c]);
}

/// Pure deletion: diffing a non-empty sequence against the empty one
/// succeeds and yields exactly one `Delete` carrying all of it.
pub proof fn lemma_diff_pure_deletion(o: Seq<Seq<char>>)
    requires
        0 < o.len() <= usize::MAX,
    ensures
        diff_engine_ok(o, Seq::<Seq<char>>::empty()),
        spec_diff(o, Seq::<Seq<char>>::empty()) == seq![
            ChangeV::Delete { old: o, old_index: 0, len: o.len() as int },
        ],
{
    let n = Seq::<Seq<char>>::empty();
    let e = Seq::<Seq<char>>::empty();
    lemma_intern_ids(e, o);
    let a = diff_old_ids(o);
    let b = diff_new_ids(o, n);
    assert(b =~= Seq::<int>::empty());
    assert(a.len() == o.len());
    assert(diff_trim(o, n).0 == 0 && diff_trim(o, n).1 == 0);
    assert(diff_old_window(o, n) =~= a);
    assert(diff_new_window(o, n) =~= Seq::<int>::empty());
    let op = EngineOp::Delete { old: 0, len: o.len() as usize, new: 0 };
    assert(diff_ops(o, n) == seq![op]);
    assert(ops_wf(diff_ops(o, n), 0, 0, diff_old_window(o, n), diff_new_window(o, n))) by {
        assert(seq![op].drop_first() =~= Seq::<EngineOp>::empty());
        assert(seq![op][0] == op);
        assert(ops_wf(
            seq![op].drop_first(),
            o.len() as int,
            0,
            diff_old_window(o, n),
            diff_new_window(o, n),
        ));
    }
    let c = ChangeV::Delete { old: o, old_index: 0, len: o.len() as int };
    assert(ops_changes(diff_ops(o, n), 0, o, n) =~= seq![c]) by {
        assert(seq![op].drop_first() =~= Seq::<EngineOp>::empty());
        assert(ops_changes(seq![op].drop_first(), 0, o, n) =~= Seq::<ChangeV>::empty());
        assert(o.subrange(0, o.len() as int) =~= o);
    }
    assert(spec_diff(o, n) =~= seq![c]);
}

} // verus!
