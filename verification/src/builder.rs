//! The change builder: receives the engine's primitive operations, checks
//! that they walk the two windows contiguously from start to end, recovers
//! original content through the interner's reverse lookup, adds the trimmed
//! prefix length back onto every window-relative index, and assembles the
//! final ordered change list framed by the trimmed-away common prefix and
//! suffix.
use vstd::prelude::*;
use crate::change::Change;
use crate::change::ChangeV;
use crate::change::DiffError;
use crate::change::changes_v;
use crate::change::content_ok_one;
use crate::change::contents_ok;
use crate::change::covers;
use crate::change::covers_from;
use crate::change::lemma_reconstruct;
use crate::change::reconstruct;
use crate::engine::EngineOp;
use crate::engine::myers_ops;
use crate::engine::run_myers;
use crate::interner::as_ints;
use crate::trim::Hashed;

verus! {

/// How far an operation advances the old-side cursor.
pub open spec fn op_old_len(op: EngineOp) -> int {
    match op {
        EngineOp::Equal { len, .. } => len as int,
        EngineOp::Delete { len, .. } => len as int,
        EngineOp::Insert { .. } => 0,
        EngineOp::Replace { old_len, .. } => old_len as int,
    }
}

/// How far an operation advances the new-side cursor.
pub open spec fn op_new_len(op: EngineOp) -> int {
    match op {
        EngineOp::Equal { len, .. } => len as int,
        EngineOp::Delete { .. } => 0,
        EngineOp::Insert { new_len, .. } => new_len as int,
        EngineOp::Replace { new_len, .. } => new_len as int,
    }
}

/// One operation is acceptable at window cursors `(i, j)`: it starts exactly
/// there, has positive length, stays within the windows, and an `Equal`
/// really marks an identity-equal run.
pub open spec fn op_ok(op: EngineOp, i: int, j: int, wo: Seq<int>, wn: Seq<int>) -> bool {
    match op {
        EngineOp::Equal { old, new, len } => old as int == i && new as int == j && len >= 1 && i
            + len <= wo.len() && j + len <= wn.len() && wo.subrange(i, i + len) == wn.subrange(
            j,
            j + len,
        ),
        EngineOp::Delete { old, len, new } => old as int == i && new as int == j && len >= 1 && i
            + len <= wo.len(),
        EngineOp::Insert { old, new, new_len } => old as int == i && new as int == j && new_len
            >= 1 && j + new_len <= wn.len(),
        EngineOp::Replace { old, old_len, new, new_len } => old as int == i && new as int == j
            && old_len >= 1 && new_len >= 1 && i + old_len <= wo.len() && j + new_len <= wn.len(),
    }
}

/// A well-formed operation stream walks both windows contiguously from the
/// cursors `(i, j)` to their ends.
pub open spec fn ops_wf(ops: Seq<EngineOp>, i: int, j: int, wo: Seq<int>, wn: Seq<int>) -> bool
    decreases ops.len(),
{
    if ops.len() == 0 {
        i == wo.len() && j == wn.len()
    } else {
        op_ok(ops[0], i, j, wo, wn) && ops_wf(
            ops.drop_first(),
            i + op_old_len(ops[0]),
            j + op_new_len(ops[0]),
            wo,
            wn,
        )
    }
}

/// The change that one operation becomes: the trimmed prefix length `p` is
/// added back onto its window-relative indices, and its content is the
/// affected range of the original contents.
pub open spec fn change_of_op(op: EngineOp, p: int, o: Seq<Seq<char>>, n: Seq<Seq<char>>) -> ChangeV {
    match op {
        EngineOp::Equal { old, new, len } => ChangeV::Equal {
            old_index: p + old,
            new: n.subrange(p + new, p + new + len),
            new_index: p + new,
            len: len as int,
        },
        EngineOp::Delete { old, len, new } => ChangeV::Delete {
            old: o.subrange(p + old, p + old + len),
            old_index: p + old,
            len: len as int,
        },
        EngineOp::Insert { old, new, new_len } => ChangeV::Insert {
            old_index: p + old,
            new: n.subrange(p + new, p + new + new_len),
            new_index: p + new,
            new_len: new_len as int,
        },
        EngineOp::Replace { old, old_len, new, new_len } => ChangeV::Replace {
            old: o.subrange(p + old, p + old + old_len),
            old_index: p + old,
            old_len: old_len as int,
            new: n.subrange(p + new, p + new + new_len),
            new_index: p + new,
            new_len: new_len as int,
        },
    }
}

/// The changes that a whole operation stream becomes, in order.
pub open spec fn ops_changes(
    ops: Seq<EngineOp>,
    p: int,
    o: Seq<Seq<char>>,
    n: Seq<Seq<char>>,
) -> Seq<ChangeV>
    decreases ops.len(),
{
    if ops.len() == 0 {
        Seq::<ChangeV>::empty()
    } else {
        seq![change_of_op(ops[0], p, o, n)] + ops_changes(ops.drop_first(), p, o, n)
    }
}

/// The `Equal` change standing for the trimmed-away common prefix, if any.
pub open spec fn prefix_changes(h: Hashed) -> Seq<ChangeV> {
    if h.trimmed_prefix > 0 {
        seq![
            ChangeV::Equal {
                old_index: 0,
                new: h.new_model().subrange(0, h.trimmed_prefix as int),
                new_index: 0,
                len: h.trimmed_prefix as int,
            },
        ]
    } else {
        Seq::<ChangeV>::empty()
    }
}

/// The `Equal` change standing for the trimmed-away common suffix, if any.
pub open spec fn suffix_changes(h: Hashed) -> Seq<ChangeV> {
    if h.trimmed_suffix > 0 {
        seq![
            ChangeV::Equal {
                old_index: h.old_ids().len() - h.trimmed_suffix,
                new: h.new_model().subrange(
                    h.new_ids().len() - h.trimmed_suffix,
                    h.new_ids().len() as int,
                ),
                new_index: h.new_ids().len() - h.trimmed_suffix,
                len: h.trimmed_suffix as int,
            },
        ]
    } else {
        Seq::<ChangeV>::empty()
    }
}

/// The operation stream the middle window gives rise to. An empty window on
/// either side is terminal — the remainder of the other side is one pure
/// insertion or deletion, and the engine is not consulted at all; only a
/// window with segments on both sides is handed to the engine.
pub open spec fn spec_ops(h: Hashed) -> Seq<EngineOp> {
    let wo = h.old_window();
    let wn = h.new_window();
    if wo.len() == 0 && wn.len() == 0 {
        Seq::<EngineOp>::empty()
    } else if wo.len() == 0 {
        seq![EngineOp::Insert { old: 0, new: 0, new_len: wn.len() as usize }]
    } else if wn.len() == 0 {
        seq![EngineOp::Delete { old: 0, len: wo.len() as usize, new: 0 }]
    } else {
        myers_ops(wo, wn)
    }
}

/// The engine adds the two window lengths and casts derived sizes to
/// signed indices, so their sum must stay well within `usize` when the
/// engine runs at all.
pub open spec fn window_fits(h: Hashed) -> bool {
    h.old_window().len() == 0 || h.new_window().len() == 0 || h.old_window().len()
        + h.new_window().len() <= usize::MAX / 4
}

/// The diff succeeds exactly when the windows fit the engine and the
/// operation stream walks both windows contiguously from start to end.
pub open spec fn engine_ok(h: Hashed) -> bool {
    window_fits(h) && ops_wf(spec_ops(h), 0, 0, h.old_window(), h.new_window())
}

/// The complete change list of a successful diff: the trimmed prefix as one
/// `Equal`, the middle window's changes, and the trimmed suffix as one
/// `Equal`.
pub open spec fn spec_build(h: Hashed) -> Seq<ChangeV> {
    prefix_changes(h) + ops_changes(
        spec_ops(h),
        h.trimmed_prefix as int,
        h.old_model(),
        h.new_model(),
    ) + suffix_changes(h)
}

/// Coverage composes over concatenation of change lists.
pub proof fn lemma_covers_append(
    cs1: Seq<ChangeV>,
    cs2: Seq<ChangeV>,
    i: int,
    j: int,
    mi: int,
    mj: int,
    ei: int,
    ej: int,
)
    requires
        covers_from(cs1, i, j, mi, mj),
        covers_from(cs2, mi, mj, ei, ej),
    ensures
        covers_from(cs1 + cs2, i, j, ei, ej),
    decreases cs1.len(),
{
    if cs1.len() == 0 {
        assert(cs1 + cs2 =~= cs2);
    } else {
        assert((cs1 + cs2)[0] == cs1[0]);
        assert((cs1 + cs2).drop_first() =~= cs1.drop_first() + cs2);
        match cs1[0] {
            ChangeV::Equal { old_index, new, new_index, len } => {
                lemma_covers_append(cs1.drop_first(), cs2, i + len, j + len, mi, mj, ei, ej);
            },
            ChangeV::Delete { old, old_index, len } => {
                lemma_covers_append(cs1.drop_first(), cs2, i + len, j, mi, mj, ei, ej);
            },
            ChangeV::Insert { old_index, new, new_index, new_len } => {
                lemma_covers_append(cs1.drop_first(), cs2, i, j + new_len, mi, mj, ei, ej);
            },
            ChangeV::Replace { old, old_index, old_len, new, new_index, new_len } => {
                lemma_covers_append(
                    cs1.drop_first(),
                    cs2,
                    i + old_len,
                    j + new_len,
                    mi,
                    mj,
                    ei,
                    ej,
                );
            },
        }
    }
}

/// Content faithfulness composes over concatenation of change lists.
pub proof fn lemma_contents_append(
    cs1: Seq<ChangeV>,
    cs2: Seq<ChangeV>,
    o: Seq<Seq<char>>,
    n: Seq<Seq<char>>,
)
    requires
        contents_ok(cs1, o, n),
        contents_ok(cs2, o, n),
    ensures
        contents_ok(cs1 + cs2, o, n),
    decreases cs1.len(),
{
    if cs1.len() == 0 {
        assert(cs1 + cs2 =~= cs2);
    } else {
        assert((cs1 + cs2)[0] == cs1[0]);
        assert((cs1 + cs2).drop_first() =~= cs1.drop_first() + cs2);
        lemma_contents_append(cs1.drop_first(), cs2, o, n);
    }
}

/// An identity-equal run of the two windows is a content-equal run of the
/// two original sequences, shifted by the trimmed prefix length.
pub proof fn lemma_window_equal_contents(h: Hashed, i: int, j: int, len: int)
    requires
        h.wf(),
        0 <= i,
        0 <= j,
        0 <= len,
        i + len <= h.old_window().len(),
        j + len <= h.new_window().len(),
        h.old_window().subrange(i, i + len) == h.new_window().subrange(j, j + len),
    ensures
        h.old_model().subrange(h.trimmed_prefix + i, h.trimmed_prefix + i + len)
            == h.new_model().subrange(h.trimmed_prefix + j, h.trimmed_prefix + j + len),
{
    let p = h.trimmed_prefix as int;
    let o = h.old_model();
    let n = h.new_model();
    let so = o.subrange(p + i, p + i + len);
    let sn = n.subrange(p + j, p + j + len);
    assert(so =~= sn) by {
        assert forall|k: int| 0 <= k < len implies so[k] == sn[k] by {
            assert(h.old_window().subrange(i, i + len)[k] == h.old_window()[i + k]);
            assert(h.new_window().subrange(j, j + len)[k] == h.new_window()[j + k]);
            assert(h.old_window()[i + k] == h.old_ids()[p + i + k]);
            assert(h.new_window()[j + k] == h.new_ids()[p + j + k]);
            assert(so[k] == o[p + i + k]);
            assert(sn[k] == n[p + j + k]);
            assert(o[p + i + k] == h.index_map@[h.old_ids()[p + i + k]]);
            assert(n[p + j + k] == h.index_map@[h.new_ids()[p + j + k]]);
        }
    }
}

/// The trimmed prefix is a content-equal run of the two original sequences.
pub proof fn lemma_prefix_contents(h: Hashed)
    requires
        h.wf(),
    ensures
        h.old_model().subrange(0, h.trimmed_prefix as int) == h.new_model().subrange(
            0,
            h.trimmed_prefix as int,
        ),
{
    let p = h.trimmed_prefix as int;
    let o = h.old_model();
    let n = h.new_model();
    let so = o.subrange(0, p);
    let sn = n.subrange(0, p);
    assert(so =~= sn) by {
        assert forall|k: int| 0 <= k < p implies so[k] == sn[k] by {
            assert(h.old_ids().subrange(0, p)[k] == h.old_ids()[k]);
            assert(h.new_ids().subrange(0, p)[k] == h.new_ids()[k]);
            assert(o[k] == h.index_map@[h.old_ids()[k]]);
            assert(n[k] == h.index_map@[h.new_ids()[k]]);
        }
    }
}

/// The trimmed suffix is a content-equal run of the two original sequences.
pub proof fn lemma_suffix_contents(h: Hashed)
    requires
        h.wf(),
    ensures
        h.old_model().subrange(
            h.old_ids().len() - h.trimmed_suffix,
            h.old_ids().len() as int,
        ) == h.new_model().subrange(
            h.new_ids().len() - h.trimmed_suffix,
            h.new_ids().len() as int,
        ),
{
    let s = h.trimmed_suffix as int;
    let nn = h.old_ids().len() as int;
    let mm = h.new_ids().len() as int;
    let o = h.old_model();
    let n = h.new_model();
    let so = o.subrange(nn - s, nn);
    let sn = n.subrange(mm - s, mm);
    assert(so =~= sn) by {
        assert forall|k: int| 0 <= k < s implies so[k] == sn[k] by {
            assert(h.old_ids().subrange(nn - s, nn)[k] == h.old_ids()[nn - s + k]);
            assert(h.new_ids().subrange(mm - s, mm)[k] == h.new_ids()[mm - s + k]);
            assert(o[nn - s + k] == h.index_map@[h.old_ids()[nn - s + k]]);
            assert(n[mm - s + k] == h.index_map@[h.new_ids()[mm - s + k]]);
        }
    }
}

/// An acceptable operation becomes a change with faithful content fields.
pub proof fn lemma_op_change_content(h: Hashed, op: EngineOp, i: int, j: int)
    requires
        h.wf(),
        0 <= i,
        0 <= j,
        op_ok(op, i, j, h.old_window(), h.new_window()),
    ensures
        content_ok_one(
            change_of_op(op, h.trimmed_prefix as int, h.old_model(), h.new_model()),
            h.old_model(),
            h.new_model(),
        ),
{
    match op {
        EngineOp::Equal { old, new, len } => {
            lemma_window_equal_contents(h, i, j, len as int);
        },
        EngineOp::Delete { .. } => {},
        EngineOp::Insert { .. } => {},
        EngineOp::Replace { .. } => {},
    }
}

/// A well-formed operation stream becomes a change list that covers both
/// windows (shifted by the trimmed prefix) with faithful contents.
pub proof fn lemma_ops_changes_good(ops: Seq<EngineOp>, h: Hashed, i: int, j: int)
    requires
        h.wf(),
        0 <= i,
        0 <= j,
        ops_wf(ops, i, j, h.old_window(), h.new_window()),
    ensures
        covers_from(
            ops_changes(ops, h.trimmed_prefix as int, h.old_model(), h.new_model()),
            h.trimmed_prefix + i,
            h.trimmed_prefix + j,
            h.trimmed_prefix + h.old_window().len(),
            h.trimmed_prefix + h.new_window().len(),
        ),
        contents_ok(
            ops_changes(ops, h.trimmed_prefix as int, h.old_model(), h.new_model()),
            h.old_model(),
            h.new_model(),
        ),
    decreases ops.len(),
{
    let p = h.trimmed_prefix as int;
    let o = h.old_model();
    let n = h.new_model();
    if ops.len() == 0 {
    } else {
        let op = ops[0];
        lemma_op_change_content(h, op, i, j);
        lemma_ops_changes_good(ops.drop_first(), h, i + op_old_len(op), j + op_new_len(op));
        let cs = ops_changes(ops, p, o, n);
        let rest = ops_changes(ops.drop_first(), p, o, n);
        assert(cs[0] == change_of_op(op, p, o, n));
        assert(cs.drop_first() =~= rest);
    }
}

/// The complete change list of a successful diff covers both original
/// sequences, has faithful contents, and replays to the new sequence.
pub proof fn lemma_spec_build_good(h: Hashed)
    requires
        h.wf(),
        ops_wf(spec_ops(h), 0, 0, h.old_window(), h.new_window()),
    ensures
        covers(spec_build(h), h.old_ids().len() as int, h.new_ids().len() as int),
        contents_ok(spec_build(h), h.old_model(), h.new_model()),
        reconstruct(spec_build(h)) == h.new_model(),
{
    let p = h.trimmed_prefix as int;
    let s = h.trimmed_suffix as int;
    let nn = h.old_ids().len() as int;
    let mm = h.new_ids().len() as int;
    let o = h.old_model();
    let n = h.new_model();
    let mid = ops_changes(spec_ops(h), p, o, n);

    lemma_ops_changes_good(spec_ops(h), h, 0, 0);
    assert(h.old_window().len() == nn - p - s);
    assert(h.new_window().len() == mm - p - s);

    // coverage of the prefix part
    assert(covers_from(prefix_changes(h), 0, 0, p, p)) by {
        if h.trimmed_prefix > 0 {
            let pc = prefix_changes(h);
            assert(pc[0] == (ChangeV::Equal {
                old_index: 0,
                new: n.subrange(0, p),
                new_index: 0,
                len: p,
            }));
            assert(pc.drop_first() =~= Seq::<ChangeV>::empty());
            assert(covers_from(pc.drop_first(), p, p, p, p));
        }
    }
    // coverage of the suffix part
    assert(covers_from(suffix_changes(h), nn - s, mm - s, nn, mm)) by {
        if h.trimmed_suffix > 0 {
            let sc = suffix_changes(h);
            assert(sc[0] == (ChangeV::Equal {
                old_index: nn - s,
                new: n.subrange(mm - s, mm),
                new_index: mm - s,
                len: s,
            }));
            assert(sc.drop_first() =~= Seq::<ChangeV>::empty());
            assert(covers_from(sc.drop_first(), nn, mm, nn, mm));
        }
    }
    lemma_covers_append(mid, suffix_changes(h), p, p, nn - s, mm - s, nn, mm);
    lemma_covers_append(prefix_changes(h), mid + suffix_changes(h), 0, 0, p, p, nn, mm);
    assert(prefix_changes(h) + (mid + suffix_changes(h)) =~= spec_build(h));

    // contents of the prefix and suffix parts
    lemma_prefix_contents(h);
    lemma_suffix_contents(h);
    assert(contents_ok(prefix_changes(h), o, n)) by {
        if h.trimmed_prefix > 0 {
            let pc = prefix_changes(h);
            assert(pc[0] == (ChangeV::Equal {
                old_index: 0,
                new: n.subrange(0, p),
                new_index: 0,
                len: p,
            }));
            assert(n.subrange(0, p) =~= n.subrange(0, 0 + p));
            assert(o.subrange(0, p) =~= o.subrange(0, 0 + p));
            assert(content_ok_one(pc[0], o, n));
            assert(pc.drop_first() =~= Seq::<ChangeV>::empty());
            assert(contents_ok(pc.drop_first(), o, n));
        }
    }
    assert(contents_ok(suffix_changes(h), o, n)) by {
        if h.trimmed_suffix > 0 {
            let sc = suffix_changes(h);
            assert(sc[0] == (ChangeV::Equal {
                old_index: nn - s,
                new: n.subrange(mm - s, mm),
                new_index: mm - s,
                len: s,
            }));
            assert(n.subrange(mm - s, mm) =~= n.subrange(mm - s, mm - s + s));
            assert(o.subrange(nn - s, nn) =~= o.subrange(nn - s, nn - s + s));
            assert(content_ok_one(sc[0], o, n));
            assert(sc.drop_first() =~= Seq::<ChangeV>::empty());
            assert(contents_ok(sc.drop_first(), o, n));
        }
    }
    lemma_contents_append(mid, suffix_changes(h), o, n);
    lemma_contents_append(prefix_changes(h), mid + suffix_changes(h), o, n);

    // reconstruction follows from coverage and contents
    lemma_reconstruct(spec_build(h), o, n, 0, 0);
    assert(n.subrange(0, n.len() as int) =~= n);
}

/// A copy of `v[from..to]`.
fn sub_ids(v: &Vec<usize>, from: usize, to: usize) -> (r: Vec<usize>)
    requires
        from <= to,
        to <= v@.len(),
    ensures
        r@ == v@.subrange(from as int, to as int),
{
    let mut r: Vec<usize> = Vec::new();
    let mut k: usize = from;
    while k < to
        invariant
            from <= k <= to <= v@.len(),
            r@ == v@.subrange(from as int, k as int),
        decreases to - k,
    {
        r.push(v[k]);
        proof {
            assert(r@ =~= v@.subrange(from as int, k + 1));
        }
        k = k + 1;
    }
    proof {
        assert(r@ =~= v@.subrange(from as int, to as int));
    }
    r
}

/// Assembles the final change list: receives the engine's operations one at
/// a time, refuses any operation that does not continue exactly at the
/// current window cursors, and appends the corresponding `Change` with its
/// original content recovered through the interner and the trimmed prefix
/// length added back onto its indices.
pub struct ChangesBuilder {
    pub hashed: Hashed,
    pub diff: Vec<Change>,
    pub cursor_old: usize,
    pub cursor_new: usize,
}

impl ChangesBuilder {
    /// The trimmed prefix length, the offset added back to every index.
    pub open spec fn p_len(self) -> int {
        self.hashed.trimmed_prefix as int
    }

    pub open spec fn wo(self) -> Seq<int> {
        self.hashed.old_window()
    }

    pub open spec fn wn(self) -> Seq<int> {
        self.hashed.new_window()
    }

    pub open spec fn inv(self) -> bool {
        &&& self.hashed.wf()
        &&& self.cursor_old <= self.wo().len()
        &&& self.cursor_new <= self.wn().len()
    }

    /// Starts a change list with the trimmed common prefix as one `Equal`.
    pub fn new(hashed: Hashed) -> (r: ChangesBuilder)
        requires
            hashed.wf(),
        ensures
            r.inv(),
            r.hashed == hashed,
            r.cursor_old == 0,
            r.cursor_new == 0,
            changes_v(r.diff@) == prefix_changes(hashed),
    {
        let p: usize = hashed.trimmed_prefix;
        let mut diff: Vec<Change> = Vec::new();
        if p > 0 {
            proof {
                crate::trim::lemma_ids_in_range(hashed);
            }
            let content = hashed.index_map.contents(&hashed.changed_new, 0, p);
            let c = Change::Equal { old_index: 0, new: content, new_index: 0, len: p };
            proof {
                assert(crate::interner::views(content@) =~= hashed.new_model().subrange(
                    0,
                    p as int,
                )) by {
                    assert forall|x: int|
                        0 <= x < p implies crate::interner::views(content@)[x]
                        == hashed.new_model().subrange(0, p as int)[x] by {
                        assert(content@[x]@ == hashed.index_map@[hashed.changed_new@[0 + x] as int]);
                        assert(hashed.new_model()[x] == hashed.index_map@[hashed.new_ids()[x]]);
                        assert(hashed.new_ids()[x] == hashed.changed_new@[x] as int);
                    }
                }
                assert(c@ == prefix_changes(hashed)[0]);
            }
            diff.push(c);
            proof {
                assert(changes_v(diff@) =~= prefix_changes(hashed));
            }
        } else {
            proof {
                assert(changes_v(diff@) =~= prefix_changes(hashed));
            }
        }
        ChangesBuilder { hashed, diff, cursor_old: 0, cursor_new: 0 }
    }

    /// A run of `len` window elements equal on both sides, starting at the
    /// current cursors. Refused (with no state change) unless it continues
    /// exactly at the cursors, stays within the windows, and the two runs
    /// really carry equal identities.
    pub fn equal(&mut self, old_index: usize, new_index: usize, len: usize) -> (r: Result<
        (),
        DiffError,
    >)
        requires
            old(self).inv(),
        ensures
            final(self).inv(),
            final(self).hashed == old(self).hashed,
            (r is Ok) == op_ok(
                EngineOp::Equal { old: old_index, new: new_index, len: len },
                old(self).cursor_old as int,
                old(self).cursor_new as int,
                old(self).wo(),
                old(self).wn(),
            ),
            r is Ok ==> final(self).cursor_old as int == old(self).cursor_old + len
                && final(self).cursor_new as int == old(self).cursor_new + len && changes_v(
                final(self).diff@,
            ) == changes_v(old(self).diff@).push(
                change_of_op(
                    EngineOp::Equal { old: old_index, new: new_index, len: len },
                    old(self).p_len(),
                    old(self).hashed.old_model(),
                    old(self).hashed.new_model(),
                ),
            ),
            r is Err ==> *final(self) == *old(self),
    {
        let i: usize = self.cursor_old;
        let j: usize = self.cursor_new;
        let p: usize = self.hashed.trimmed_prefix;
        let s: usize = self.hashed.trimmed_suffix;
        let nn: usize = self.hashed.changed_old.len();
        let mm: usize = self.hashed.changed_new.len();
        let wo_len: usize = nn - p - s;
        let wn_len: usize = mm - p - s;
        proof {
            assert(self.wo().len() == wo_len);
            assert(self.wn().len() == wn_len);
        }
        if old_index != i || new_index != j || len == 0 || len > wo_len - i || len > wn_len - j {
            return Err(DiffError);
        }
        let ghost wo = self.wo();
        let ghost wn = self.wn();
        let mut k: usize = 0;
        while k < len
            invariant
                self == old(self),
                self.inv(),
                wo == self.wo(),
                wn == self.wn(),
                i == self.cursor_old,
                j == self.cursor_new,
                p == self.hashed.trimmed_prefix,
                s == self.hashed.trimmed_suffix,
                nn == self.hashed.changed_old@.len(),
                mm == self.hashed.changed_new@.len(),
                k <= len,
                i + len <= wo.len(),
                j + len <= wn.len(),
                wo.len() == nn - p - s,
                wn.len() == mm - p - s,
                wo.subrange(i as int, i + k) == wn.subrange(j as int, j + k),
            decreases len - k,
        {
            proof {
                assert(wo[i + k] == self.hashed.old_ids()[p + i + k]);
                assert(wn[j + k] == self.hashed.new_ids()[p + j + k]);
                assert(self.hashed.old_ids()[p + i + k] == self.hashed.changed_old@[p + i
                    + k] as int);
                assert(self.hashed.new_ids()[p + j + k] == self.hashed.changed_new@[p + j
                    + k] as int);
            }
            if self.hashed.changed_old[p + i + k] != self.hashed.changed_new[p + j + k] {
                proof {
                    if wo.subrange(i as int, i + len) == wn.subrange(j as int, j + len) {
                        assert(wo.subrange(i as int, i + len)[k as int] == wn.subrange(
                            j as int,
                            j + len,
                        )[k as int]);
                        assert(wo[i + k] == wn[j + k]);
                    }
                }
                return Err(DiffError);
            }
            proof {
                let sa = wo.subrange(i as int, i + k + 1);
                let sb = wn.subrange(j as int, j + k + 1);
                assert(sa =~= sb) by {
                    assert forall|t: int| 0 <= t < k + 1 implies sa[t] == sb[t] by {
                        if t < k {
                            assert(wo.subrange(i as int, i + k)[t] == wn.subrange(
                                j as int,
                                j + k,
                            )[t]);
                        } else {
                            assert(sa[t] == wo[i + k]);
                            assert(sb[t] == wn[j + k]);
                        }
                    }
                }
            }
            k = k + 1;
        }
        proof {
            crate::trim::lemma_ids_in_range(self.hashed);
        }
        let content = self.hashed.index_map.contents(&self.hashed.changed_new, p + j, p + j + len);
        let ghost pre = *self;
        let c = Change::Equal { old_index: p + i, new: content, new_index: p + j, len: len };
        proof {
            assert(crate::interner::views(content@) =~= pre.hashed.new_model().subrange(
                p + j,
                p + j + len,
            )) by {
                assert forall|x: int|
                    0 <= x < len implies crate::interner::views(content@)[x]
                    == pre.hashed.new_model().subrange(p + j, p + j + len)[x] by {
                    assert(content@[x]@ == pre.hashed.index_map@[pre.hashed.changed_new@[p + j
                        + x] as int]);
                    assert(pre.hashed.new_model()[p + j + x] == pre.hashed.index_map@[
                        pre.hashed.new_ids()[p + j + x]]);
                    assert(pre.hashed.new_ids()[p + j + x] == pre.hashed.changed_new@[p + j
                        + x] as int);
                }
            }
            assert(c@ == change_of_op(
                EngineOp::Equal { old: old_index, new: new_index, len: len },
                pre.p_len(),
                pre.hashed.old_model(),
                pre.hashed.new_model(),
            ));
        }
        self.diff.push(c);
        self.cursor_old = i + len;
        self.cursor_new = j + len;
        proof {
            assert(changes_v(self.diff@) =~= changes_v(pre.diff@).push(c@));
        }
        Ok(())
    }

    /// A run of `len` window elements present only on the old side, at the
    /// current cursors. Refused (with no state change) unless it continues
    /// exactly at the cursors and stays within the old window.
    pub fn delete(&mut self, old_index: usize, len: usize, new_index: usize) -> (r: Result<
        (),
        DiffError,
    >)
        requires
            old(self).inv(),
        ensures
            final(self).inv(),
            final(self).hashed == old(self).hashed,
            (r is Ok) == op_ok(
                EngineOp::Delete { old: old_index, len: len, new: new_index },
                old(self).cursor_old as int,
                old(self).cursor_new as int,
                old(self).wo(),
                old(self).wn(),
            ),
            r is Ok ==> final(self).cursor_old as int == old(self).cursor_old + len
                && final(self).cursor_new == old(self).cursor_new && changes_v(final(self).diff@)
                == changes_v(old(self).diff@).push(
                change_of_op(
                    EngineOp::Delete { old: old_index, len: len, new: new_index },
                    old(self).p_len(),
                    old(self).hashed.old_model(),
                    old(self).hashed.new_model(),
                ),
            ),
            r is Err ==> *final(self) == *old(self),
    {
        let i: usize = self.cursor_old;
        let j: usize = self.cursor_new;
        let p: usize = self.hashed.trimmed_prefix;
        let s: usize = self.hashed.trimmed_suffix;
        let nn: usize = self.hashed.changed_old.len();
        let wo_len: usize = nn - p - s;
        proof {
            assert(self.wo().len() == wo_len);
        }
        if old_index != i || new_index != j || len == 0 || len > wo_len - i {
            return Err(DiffError);
        }
        proof {
            crate::trim::lemma_ids_in_range(self.hashed);
        }
        let content = self.hashed.index_map.contents(&self.hashed.changed_old, p + i, p + i + len);
        let ghost pre = *self;
        let c = Change::Delete { old: content, old_index: p + i, len: len };
        proof {
            assert(crate::interner::views(content@) =~= pre.hashed.old_model().subrange(
                p + i,
                p + i + len,
            )) by {
                assert forall|x: int|
                    0 <= x < len implies crate::interner::views(content@)[x]
                    == pre.hashed.old_model().subrange(p + i, p + i + len)[x] by {
                    assert(content@[x]@ == pre.hashed.index_map@[pre.hashed.changed_old@[p + i
                        + x] as int]);
                    assert(pre.hashed.old_model()[p + i + x] == pre.hashed.index_map@[
                        pre.hashed.old_ids()[p + i + x]]);
                    assert(pre.hashed.old_ids()[p + i + x] == pre.hashed.changed_old@[p + i
                        + x] as int);
                }
            }
            assert(c@ == change_of_op(
                EngineOp::Delete { old: old_index, len: len, new: new_index },
                pre.p_len(),
                pre.hashed.old_model(),
                pre.hashed.new_model(),
            ));
        }
        self.diff.push(c);
        self.cursor_old = i + len;
        proof {
            assert(changes_v(self.diff@) =~= changes_v(pre.diff@).push(c@));
        }
        Ok(())
    }

    /// A run of `new_len` window elements present only on the new side,
    /// inserted at the current cursors. Refused (with no state change)
    /// unless it continues exactly at the cursors and stays within the new
    /// window.
    pub fn insert(&mut self, old_index: usize, new_index: usize, new_len: usize) -> (r: Result<
        (),
        DiffError,
    >)
        requires
            old(self).inv(),
        ensures
            final(self).inv(),
            final(self).hashed == old(self).hashed,
            (r is Ok) == op_ok(
                EngineOp::Insert { old: old_index, new: new_index, new_len: new_len },
                old(self).cursor_old as int,
                old(self).cursor_new as int,
                old(self).wo(),
                old(self).wn(),
            ),
            r is Ok ==> final(self).cursor_old == old(self).cursor_old
                && final(self).cursor_new as int == old(self).cursor_new + new_len && changes_v(
                final(self).diff@,
            ) == changes_v(old(self).diff@).push(
                change_of_op(
                    EngineOp::Insert { old: old_index, new: new_index, new_len: new_len },
                    old(self).p_len(),
                    old(self).hashed.old_model(),
                    old(self).hashed.new_model(),
                ),
            ),
            r is Err ==> *final(self) == *old(self),
    {
        let i: usize = self.cursor_old;
        let j: usize = self.cursor_new;
        let p: usize = self.hashed.trimmed_prefix;
        let s: usize = self.hashed.trimmed_suffix;
        let nn: usize = self.hashed.changed_old.len();
        let mm: usize = self.hashed.changed_new.len();
        let wo_len: usize = nn - p - s;
        let wn_len: usize = mm - p - s;
        proof {
            assert(self.wo().len() == wo_len);
            assert(self.wn().len() == wn_len);
        }
        if old_index != i || new_index != j || new_len == 0 || new_len > wn_len - j {
            return Err(DiffError);
        }
        proof {
            crate::trim::lemma_ids_in_range(self.hashed);
        }
        let content = self.hashed.index_map.contents(
            &self.hashed.changed_new,
            p + j,
            p + j + new_len,
        );
        let ghost pre = *self;
        let c = Change::Insert { old_index: p + i, new: content, new_index: p + j, new_len: new_len };
        proof {
            assert(crate::interner::views(content@) =~= pre.hashed.new_model().subrange(
                p + j,
                p + j + new_len,
            )) by {
                assert forall|x: int|
                    0 <= x < new_len implies crate::interner::views(content@)[x]
                    == pre.hashed.new_model().subrange(p + j, p + j + new_len)[x] by {
                    assert(content@[x]@ == pre.hashed.index_map@[pre.hashed.changed_new@[p + j
                        + x] as int]);
                    assert(pre.hashed.new_model()[p + j + x] == pre.hashed.index_map@[
                        pre.hashed.new_ids()[p + j + x]]);
                    assert(pre.hashed.new_ids()[p + j + x] == pre.hashed.changed_new@[p + j
                        + x] as int);
                }
            }
            assert(c@ == change_of_op(
                EngineOp::Insert { old: old_index, new: new_index, new_len: new_len },
                pre.p_len(),
                pre.hashed.old_model(),
                pre.hashed.new_model(),
            ));
        }
        self.diff.push(c);
        self.cursor_new = j + new_len;
        proof {
            assert(changes_v(self.diff@) =~= changes_v(pre.diff@).push(c@));
        }
        Ok(())
    }

    /// An old-side run replaced by a new-side run, both starting at the
    /// current cursors. Refused (with no state change) unless both runs
    /// continue exactly at the cursors and stay within their windows.
    pub fn replace(
        &mut self,
        old_index: usize,
        old_len: usize,
        new_index: usize,
        new_len: usize,
    ) -> (r: Result<(), DiffError>)
        requires
            old(self).inv(),
        ensures
            final(self).inv(),
            final(self).hashed == old(self).hashed,
            (r is Ok) == op_ok(
                EngineOp::Replace {
                    old: old_index,
                    old_len: old_len,
                    new: new_index,
                    new_len: new_len,
                },
                old(self).cursor_old as int,
                old(self).cursor_new as int,
                old(self).wo(),
                old(self).wn(),
            ),
            r is Ok ==> final(self).cursor_old as int == old(self).cursor_old + old_len
                && final(self).cursor_new as int == old(self).cursor_new + new_len && changes_v(
                final(self).diff@,
            ) == changes_v(old(self).diff@).push(
                change_of_op(
                    EngineOp::Replace {
                        old: old_index,
                        old_len: old_len,
                        new: new_index,
                        new_len: new_len,
                    },
                    old(self).p_len(),
                    old(self).hashed.old_model(),
                    old(self).hashed.new_model(),
                ),
            ),
            r is Err ==> *final(self) == *old(self),
    {
        let i: usize = self.cursor_old;
        let j: usize = self.cursor_new;
        let p: usize = self.hashed.trimmed_prefix;
        let s: usize = self.hashed.trimmed_suffix;
        let nn: usize = self.hashed.changed_old.len();
        let mm: usize = self.hashed.changed_new.len();
        let wo_len: usize = nn - p - s;
        let wn_len: usize = mm - p - s;
        proof {
            assert(self.wo().len() == wo_len);
            assert(self.wn().len() == wn_len);
        }
        if old_index != i || new_index != j || old_len == 0 || new_len == 0 || old_len > wo_len - i
            || new_len > wn_len - j {
            return Err(DiffError);
        }
        proof {
            crate::trim::lemma_ids_in_range(self.hashed);
        }
        let old_content = self.hashed.index_map.contents(
            &self.hashed.changed_old,
            p + i,
            p + i + old_len,
        );
        let new_content = self.hashed.index_map.contents(
            &self.hashed.changed_new,
            p + j,
            p + j + new_len,
        );
        let ghost pre = *self;
        let c = Change::Replace {
            old: old_content,
            old_index: p + i,
            old_len: old_len,
            new: new_content,
            new_index: p + j,
            new_len: new_len,
        };
        proof {
            assert(crate::interner::views(old_content@) =~= pre.hashed.old_model().subrange(
                p + i,
                p + i + old_len,
            )) by {
                assert forall|x: int|
                    0 <= x < old_len implies crate::interner::views(old_content@)[x]
                    == pre.hashed.old_model().subrange(p + i, p + i + old_len)[x] by {
                    assert(old_content@[x]@ == pre.hashed.index_map@[pre.hashed.changed_old@[p + i
                        + x] as int]);
                    assert(pre.hashed.old_model()[p + i + x] == pre.hashed.index_map@[
                        pre.hashed.old_ids()[p + i + x]]);
                    assert(pre.hashed.old_ids()[p + i + x] == pre.hashed.changed_old@[p + i
                        + x] as int);
                }
            }
            assert(crate::interner::views(new_content@) =~= pre.hashed.new_model().subrange(
                p + j,
                p + j + new_len,
            )) by {
                assert forall|x: int|
                    0 <= x < new_len implies crate::interner::views(new_content@)[x]
                    == pre.hashed.new_model().subrange(p + j, p + j + new_len)[x] by {
                    assert(new_content@[x]@ == pre.hashed.index_map@[pre.hashed.changed_new@[p + j
                        + x] as int]);
                    assert(pre.hashed.new_model()[p + j + x] == pre.hashed.index_map@[
                        pre.hashed.new_ids()[p + j + x]]);
                    assert(pre.hashed.new_ids()[p + j + x] == pre.hashed.changed_new@[p + j
                        + x] as int);
                }
            }
            assert(c@ == change_of_op(
                EngineOp::Replace {
                    old: old_index,
                    old_len: old_len,
                    new: new_index,
                    new_len: new_len,
                },
                pre.p_len(),
                pre.hashed.old_model(),
                pre.hashed.new_model(),
            ));
        }
        self.diff.push(c);
        self.cursor_old = i + old_len;
        self.cursor_new = j + new_len;
        proof {
            assert(changes_v(self.diff@) =~= changes_v(pre.diff@).push(c@));
        }
        Ok(())
    }

    /// Closes the list: refused unless both windows were walked to their
    /// ends; appends the trimmed common suffix as one `Equal` and hands the
    /// finished change list out.
    pub fn finish(self) -> (r: Result<Vec<Change>, DiffError>)
        requires
            self.inv(),
        ensures
            (r is Ok) == (self.cursor_old as int == self.wo().len() && self.cursor_new as int
                == self.wn().len()),
            r matches Ok(cs) ==> changes_v(cs@) == changes_v(self.diff@) + suffix_changes(
                self.hashed,
            ),
    {
        let ghost g = self;
        let s: usize = self.hashed.trimmed_suffix;
        let p: usize = self.hashed.trimmed_prefix;
        let nn: usize = self.hashed.changed_old.len();
        let mm: usize = self.hashed.changed_new.len();
        let wo_len: usize = nn - p - s;
        let wn_len: usize = mm - p - s;
        proof {
            assert(g.wo().len() == wo_len);
            assert(g.wn().len() == wn_len);
        }
        if self.cursor_old != wo_len || self.cursor_new != wn_len {
            return Err(DiffError);
        }
        let ChangesBuilder { hashed, mut diff, cursor_old: _, cursor_new: _ } = self;
        if s > 0 {
            proof {
                crate::trim::lemma_ids_in_range(hashed);
            }
            let content = hashed.index_map.contents(&hashed.changed_new, mm - s, mm);
            let c = Change::Equal {
                old_index: nn - s,
                new: content,
                new_index: mm - s,
                len: s,
            };
            proof {
                assert(crate::interner::views(content@) =~= hashed.new_model().subrange(
                    mm - s,
                    mm as int,
                )) by {
                    assert forall|x: int|
                        0 <= x < s implies crate::interner::views(content@)[x]
                        == hashed.new_model().subrange(mm - s, mm as int)[x] by {
                        assert(content@[x]@ == hashed.index_map@[hashed.changed_new@[mm - s
                            + x] as int]);
                        assert(hashed.new_model()[mm - s + x] == hashed.index_map@[
                            hashed.new_ids()[mm - s + x]]);
                        assert(hashed.new_ids()[mm - s + x] == hashed.changed_new@[mm - s
                            + x] as int);
                    }
                }
                assert(c@ == suffix_changes(g.hashed)[0]);
            }
            diff.push(c);
            proof {
                assert(changes_v(diff@) =~= changes_v(g.diff@) + suffix_changes(g.hashed));
            }
        } else {
            proof {
                assert(changes_v(diff@) =~= changes_v(g.diff@) + suffix_changes(g.hashed));
            }
        }
        Ok(diff)
    }
}

impl Hashed {
    /// Diffs the middle window and assembles the whole change list. An
    /// empty window on either side is terminal — its single insertion or
    /// deletion is produced directly; only a window with segments on both
    /// sides is handed to the engine. Every operation the engine reports is
    /// checked before it is used; an inconsistent stream yields an error
    /// and no partial change list.
    pub fn myers_diff_vec(self) -> (r: Result<Vec<Change>, DiffError>)
        requires
            self.wf(),
        ensures
            (r is Err) == !engine_ok(self),
            r matches Ok(cs) ==> changes_v(cs@) == spec_build(self),
            r matches Ok(cs) ==> covers(
                changes_v(cs@),
                self.old_ids().len() as int,
                self.new_ids().len() as int,
            ),
            r matches Ok(cs) ==> contents_ok(changes_v(cs@), self.old_model(), self.new_model()),
            r matches Ok(cs) ==> reconstruct(changes_v(cs@)) == self.new_model(),
    {
        let ghost h0 = self;
        let p: usize = self.trimmed_prefix;
        let s: usize = self.trimmed_suffix;
        let nn: usize = self.changed_old.len();
        let mm: usize = self.changed_new.len();
        let wo_len: usize = nn - p - s;
        let wn_len: usize = mm - p - s;
        let ghost wo = self.old_window();
        let ghost wn = self.new_window();
        proof {
            assert(wo.len() == wo_len);
            assert(wn.len() == wn_len);
        }
        let ops: Vec<EngineOp>;
        if wo_len == 0 && wn_len == 0 {
            ops = Vec::new();
            proof {
                assert(ops@ =~= spec_ops(h0));
            }
        } else if wo_len == 0 {
            let mut v: Vec<EngineOp> = Vec::new();
            v.push(EngineOp::Insert { old: 0, new: 0, new_len: wn_len });
            ops = v;
            proof {
                assert(ops@ =~= spec_ops(h0));
            }
        } else if wn_len == 0 {
            let mut v: Vec<EngineOp> = Vec::new();
            v.push(EngineOp::Delete { old: 0, len: wo_len, new: 0 });
            ops = v;
            proof {
                assert(ops@ =~= spec_ops(h0));
            }
        } else {
            if wn_len > usize::MAX / 4 || wo_len > usize::MAX / 4 - wn_len {
                proof {
                    assert(!window_fits(h0));
                }
                return Err(DiffError);
            }
            let wov = sub_ids(&self.changed_old, p, nn - s);
            let wnv = sub_ids(&self.changed_new, p, mm - s);
            proof {
                assert(as_ints(wov@) =~= wo);
                assert(as_ints(wnv@) =~= wn);
            }
            ops = run_myers(&wov, &wnv);
            proof {
                assert(ops@ == spec_ops(h0));
            }
        }
        proof {
            assert(window_fits(h0));
        }
        let ghost full_ops = ops@;
        let ghost p0 = h0.trimmed_prefix as int;
        let ghost o0 = h0.old_model();
        let ghost n0 = h0.new_model();
        let mut cb = ChangesBuilder::new(self);
        proof {
            assert(full_ops.skip(0) =~= full_ops);
            assert(changes_v(cb.diff@) + ops_changes(full_ops.skip(0), p0, o0, n0)
                =~= prefix_changes(h0) + ops_changes(full_ops, p0, o0, n0));
        }
        let len_ops: usize = ops.len();
        let mut k: usize = 0;
        while k < len_ops
            invariant
                cb.inv(),
                cb.hashed == h0,
                h0 == self,
                h0.wf(),
                len_ops == ops@.len(),
                k <= len_ops,
                full_ops == ops@,
                full_ops == spec_ops(h0),
                window_fits(h0),
                wo == h0.old_window(),
                wn == h0.new_window(),
                p0 == h0.trimmed_prefix as int,
                o0 == h0.old_model(),
                n0 == h0.new_model(),
                ops_wf(full_ops, 0, 0, wo, wn) == ops_wf(
                    full_ops.skip(k as int),
                    cb.cursor_old as int,
                    cb.cursor_new as int,
                    wo,
                    wn,
                ),
                changes_v(cb.diff@) + ops_changes(full_ops.skip(k as int), p0, o0, n0)
                    == prefix_changes(h0) + ops_changes(full_ops, p0, o0, n0),
            decreases len_ops - k,
        {
            let ghost old_i = cb.cursor_old as int;
            let ghost old_j = cb.cursor_new as int;
            let ghost old_diff = cb.diff@;
            let op = ops[k];
            proof {
                assert(full_ops.skip(k as int)[0] == op);
            }
            let res: Result<(), DiffError> = match op {
                EngineOp::Equal { old, new, len } => cb.equal(old, new, len),
                EngineOp::Delete { old, len, new } => cb.delete(old, len, new),
                EngineOp::Insert { old, new, new_len } => cb.insert(old, new, new_len),
                EngineOp::Replace { old, old_len, new, new_len } => cb.replace(
                    old,
                    old_len,
                    new,
                    new_len,
                ),
            };
            if res.is_err() {
                proof {
                    assert(!op_ok(op, old_i, old_j, wo, wn));
                    assert(!ops_wf(full_ops.skip(k as int), old_i, old_j, wo, wn));
                }
                return Err(DiffError);
            }
            proof {
                assert(op_ok(op, old_i, old_j, wo, wn));
                assert(cb.cursor_old as int == old_i + op_old_len(op));
                assert(cb.cursor_new as int == old_j + op_new_len(op));
                assert(full_ops.skip(k as int).drop_first() =~= full_ops.skip(k as int + 1));
                assert(ops_wf(full_ops.skip(k as int), old_i, old_j, wo, wn) == ops_wf(
                    full_ops.skip(k as int + 1),
                    cb.cursor_old as int,
                    cb.cursor_new as int,
                    wo,
                    wn,
                ));
                let c = change_of_op(op, p0, o0, n0);
                assert(changes_v(cb.diff@) == changes_v(old_diff).push(c));
                assert(ops_changes(full_ops.skip(k as int), p0, o0, n0) == seq![c] + ops_changes(
                    full_ops.skip(k as int + 1),
                    p0,
                    o0,
                    n0,
                ));
                assert(changes_v(cb.diff@) + ops_changes(full_ops.skip(k as int + 1), p0, o0, n0)
                    =~= changes_v(old_diff) + ops_changes(full_ops.skip(k as int), p0, o0, n0));
            }
            k = k + 1;
        }
        proof {
            assert(full_ops.skip(len_ops as int) =~= Seq::<EngineOp>::empty());
            assert(ops_changes(full_ops.skip(len_ops as int), p0, o0, n0)
                =~= Seq::<ChangeV>::empty());
            assert(changes_v(cb.diff@) =~= changes_v(cb.diff@) + Seq::<ChangeV>::empty());
        }
        let ghost final_diff = cb.diff@;
        let r = cb.finish();
        match r {
            Ok(cs) => {
                proof {
                    assert(ops_wf(full_ops, 0, 0, wo, wn));
                    assert(changes_v(final_diff) == prefix_changes(h0) + ops_changes(
                        full_ops,
                        p0,
                        o0,
                        n0,
                    ));
                    assert(changes_v(cs@) =~= spec_build(h0));
                    lemma_spec_build_good(h0);
                }
                Ok(cs)
            },
            Err(e) => {
                proof {
                    assert(!ops_wf(full_ops, 0, 0, wo, wn));
                }
                Err(e)
            },
        }
    }
}

} // verus!
