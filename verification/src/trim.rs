//! The affix trimmer: finds the maximal common prefix and suffix of the two
//! interned identity arrays, decides whether those two matched regions
//! overlap, and fixes the middle window that still has to be diffed. All
//! comparisons here are integer identity comparisons; content equality was
//! already folded into identity equality by the interning layer.
use vstd::prelude::*;
use crate::interner::Interner;
use crate::interner::as_ints;
use crate::interner::ids_after;
use crate::interner::lemma_intern_ids;
use crate::interner::lemma_table_after_grows;
use crate::interner::table_after;
use crate::interner::views;

verus! {

pub open spec fn min2(a: int, b: int) -> int {
    if a <= b {
        a
    } else {
        b
    }
}

/// Length of the longest common prefix of `a` and `b`.
pub open spec fn common_prefix_len(a: Seq<int>, b: Seq<int>) -> int
    decreases a.len(),
{
    if a.len() == 0 || b.len() == 0 || a[0] != b[0] {
        0
    } else {
        1 + common_prefix_len(a.drop_first(), b.drop_first())
    }
}

/// Length of the longest common suffix of `a` and `b`.
pub open spec fn common_suffix_len(a: Seq<int>, b: Seq<int>) -> int
    decreases a.len(),
{
    if a.len() == 0 || b.len() == 0 || a.last() != b.last() {
        0
    } else {
        1 + common_suffix_len(a.drop_last(), b.drop_last())
    }
}

pub proof fn lemma_common_prefix(a: Seq<int>, b: Seq<int>)
    ensures
        0 <= common_prefix_len(a, b) <= min2(a.len() as int, b.len() as int),
        forall|k: int| 0 <= k < common_prefix_len(a, b) ==> a[k] == b[k],
        common_prefix_len(a, b) < min2(a.len() as int, b.len() as int) ==> a[common_prefix_len(
            a,
            b,
        )] != b[common_prefix_len(a, b)],
    decreases a.len(),
{
    if a.len() == 0 || b.len() == 0 || a[0] != b[0] {
    } else {
        lemma_common_prefix(a.drop_first(), b.drop_first());
        let p = common_prefix_len(a, b);
        assert(forall|k: int|
            1 <= k < p ==> a[k] == a.drop_first()[k - 1] && b[k] == b.drop_first()[k - 1]);
    }
}

/// The longest common prefix is the unique cut that matches up to it and
/// mismatches (or runs out) at it.
pub proof fn lemma_common_prefix_char(a: Seq<int>, b: Seq<int>, p: int)
    requires
        0 <= p <= min2(a.len() as int, b.len() as int),
        forall|k: int| 0 <= k < p ==> a[k] == b[k],
        p == min2(a.len() as int, b.len() as int) || a[p] != b[p],
    ensures
        common_prefix_len(a, b) == p,
    decreases a.len(),
{
    if p == 0 {
        if min2(a.len() as int, b.len() as int) == 0 {
        } else {
            assert(a[0] != b[0]);
        }
    } else {
        assert(a[0] == b[0]);
        assert(forall|k: int|
            0 <= k < p - 1 ==> a.drop_first()[k] == a[k + 1] && b.drop_first()[k] == b[k + 1]);
        lemma_common_prefix_char(a.drop_first(), b.drop_first(), p - 1);
    }
}

pub proof fn lemma_common_suffix(a: Seq<int>, b: Seq<int>)
    ensures
        0 <= common_suffix_len(a, b) <= min2(a.len() as int, b.len() as int),
        a.subrange(a.len() - common_suffix_len(a, b), a.len() as int) == b.subrange(
            b.len() - common_suffix_len(a, b),
            b.len() as int,
        ),
        common_suffix_len(a, b) < min2(a.len() as int, b.len() as int) ==> a[a.len() - 1
            - common_suffix_len(a, b)] != b[b.len() - 1 - common_suffix_len(a, b)],
    decreases a.len(),
{
    let s = common_suffix_len(a, b);
    if a.len() == 0 || b.len() == 0 || a.last() != b.last() {
        assert(a.subrange(a.len() - 0, a.len() as int) =~= b.subrange(
            b.len() - 0,
            b.len() as int,
        ));
    } else {
        let a1 = a.drop_last();
        let b1 = b.drop_last();
        lemma_common_suffix(a1, b1);
        let s1 = common_suffix_len(a1, b1);
        let sa = a.subrange(a.len() - s, a.len() as int);
        let sb = b.subrange(b.len() - s, b.len() as int);
        assert(sa =~= sb) by {
            assert forall|k: int| 0 <= k < s implies sa[k] == sb[k] by {
                if k < s - 1 {
                    assert(a1.subrange(a1.len() - s1, a1.len() as int)[k] == b1.subrange(
                        b1.len() - s1,
                        b1.len() as int,
                    )[k]);
                } else {
                    assert(sa[k] == a.last());
                    assert(sb[k] == b.last());
                }
            }
        }
        if s < min2(a.len() as int, b.len() as int) {
            assert(a[a.len() - 1 - s] == a1[a1.len() - 1 - s1]);
            assert(b[b.len() - 1 - s] == b1[b1.len() - 1 - s1]);
        }
    }
}

/// The longest common suffix is the unique cut that matches back to it and
/// mismatches (or runs out) before it.
pub proof fn lemma_common_suffix_char(a: Seq<int>, b: Seq<int>, s: int)
    requires
        0 <= s <= min2(a.len() as int, b.len() as int),
        a.subrange(a.len() - s, a.len() as int) == b.subrange(b.len() - s, b.len() as int),
        s == min2(a.len() as int, b.len() as int) || a[a.len() - 1 - s] != b[b.len() - 1 - s],
    ensures
        common_suffix_len(a, b) == s,
    decreases a.len(),
{
    if s == 0 {
        if min2(a.len() as int, b.len() as int) == 0 {
        } else {
            assert(a[a.len() - 1] != b[b.len() - 1]);
        }
    } else {
        let sa = a.subrange(a.len() - s, a.len() as int);
        let sb = b.subrange(b.len() - s, b.len() as int);
        assert(a.last() == b.last()) by {
            assert(sa[s - 1] == a[a.len() - s + (s - 1)]);
            assert(sb[s - 1] == b[b.len() - s + (s - 1)]);
        }
        let a1 = a.drop_last();
        let b1 = b.drop_last();
        let sa1 = a1.subrange(a1.len() - (s - 1), a1.len() as int);
        let sb1 = b1.subrange(b1.len() - (s - 1), b1.len() as int);
        assert(sa1 =~= sb1) by {
            assert forall|k: int| 0 <= k < s - 1 implies sa1[k] == sb1[k] by {
                assert(sa1[k] == a1[a1.len() - (s - 1) + k]);
                assert(a1[a1.len() - (s - 1) + k] == a[a.len() - s + k]);
                assert(sa[k] == a[a.len() - s + k]);
                assert(sb1[k] == b1[b1.len() - (s - 1) + k]);
                assert(b1[b1.len() - (s - 1) + k] == b[b.len() - s + k]);
                assert(sb[k] == b[b.len() - s + k]);
                assert(sa[k] == sb[k]);
            }
        }
        if s < min2(a.len() as int, b.len() as int) {
            assert(a1[a1.len() - 1 - (s - 1)] == a[a.len() - 1 - s]);
            assert(b1[b1.len() - 1 - (s - 1)] == b[b.len() - 1 - s]);
        }
        lemma_common_suffix_char(a1, b1, s - 1);
    }
}

/// The trimming decision: how many leading (`.0`) and trailing (`.1`)
/// elements are set aside as proven common before diffing the middle window.
///
/// With maximal common prefix `cp` and suffix `cs`:
/// - one side exhausted by the prefix: everything else is a pure insertion
///   or deletion, so the whole prefix is trimmed and there is no suffix trim;
/// - otherwise, one side exhausted by the suffix: symmetrically, the whole
///   suffix is trimmed;
/// - otherwise, if the forward mismatch position reaches or passes the
///   backward mismatch position on either side, the two matched regions
///   overlap and trimming would double-count: nothing is trimmed and the
///   full sequences form the window;
/// - otherwise both trims are safe and maximal.
pub open spec fn spec_trim(a: Seq<int>, b: Seq<int>) -> (int, int) {
    let nn = a.len() as int;
    let mm = b.len() as int;
    let cp = common_prefix_len(a, b);
    let cs = common_suffix_len(a, b);
    if cp == nn || cp == mm {
        (cp, 0)
    } else if cs == nn || cs == mm {
        (0, cs)
    } else if cp + cs >= min2(nn, mm) - 1 {
        (0, 0)
    } else {
        (cp, cs)
    }
}

/// The trimming decision is always safe: the two trims never overlap, and
/// both trimmed regions are element-wise common.
pub proof fn lemma_spec_trim(a: Seq<int>, b: Seq<int>)
    ensures
        0 <= spec_trim(a, b).0,
        0 <= spec_trim(a, b).1,
        spec_trim(a, b).0 + spec_trim(a, b).1 <= min2(a.len() as int, b.len() as int),
        a.subrange(0, spec_trim(a, b).0) == b.subrange(0, spec_trim(a, b).0),
        a.subrange(a.len() - spec_trim(a, b).1, a.len() as int) == b.subrange(
            b.len() - spec_trim(a, b).1,
            b.len() as int,
        ),
{
    lemma_common_prefix(a, b);
    lemma_common_suffix(a, b);
    let p = spec_trim(a, b).0;
    let s = spec_trim(a, b).1;
    assert(a.subrange(0, p) =~= b.subrange(0, p));
    if s == 0 {
        assert(a.subrange(a.len() - 0, a.len() as int) =~= b.subrange(
            b.len() - 0,
            b.len() as int,
        ));
    }
}

/// The interning and trimming result for one diff invocation: the interner,
/// the full identity arrays of both sequences, and the trimming decision.
/// The middle window of each side is the identity array with the trimmed
/// prefix and suffix removed. Its `myers_diff_vec` method, in the builder
/// module, diffs the windows and assembles the final change list.
pub struct Hashed {
    pub index_map: Interner,
    pub changed_old: Vec<usize>,
    pub changed_new: Vec<usize>,
    pub trimmed_prefix: usize,
    pub trimmed_suffix: usize,
}

impl Hashed {
    pub open spec fn old_ids(self) -> Seq<int> {
        as_ints(self.changed_old@)
    }

    pub open spec fn new_ids(self) -> Seq<int> {
        as_ints(self.changed_new@)
    }

    /// The old sequence's contents, recovered through the interner.
    pub open spec fn old_model(self) -> Seq<Seq<char>> {
        self.old_ids().map_values(|id: int| self.index_map@[id])
    }

    /// The new sequence's contents, recovered through the interner.
    pub open spec fn new_model(self) -> Seq<Seq<char>> {
        self.new_ids().map_values(|id: int| self.index_map@[id])
    }

    pub open spec fn old_window(self) -> Seq<int> {
        self.old_ids().subrange(
            self.trimmed_prefix as int,
            self.old_ids().len() - self.trimmed_suffix,
        )
    }

    pub open spec fn new_window(self) -> Seq<int> {
        self.new_ids().subrange(
            self.trimmed_prefix as int,
            self.new_ids().len() - self.trimmed_suffix,
        )
    }

    /// Well-formedness: identities index the table, the table is free of
    /// duplicates, and the trimmed prefix and suffix are in-range and
    /// identity-wise common to both sequences.
    pub open spec fn wf(self) -> bool {
        &&& self.index_map.wf()
        &&& forall|k: int|
            0 <= k < self.old_ids().len() ==> 0 <= #[trigger] self.old_ids()[k]
                < self.index_map@.len()
        &&& forall|k: int|
            0 <= k < self.new_ids().len() ==> 0 <= #[trigger] self.new_ids()[k]
                < self.index_map@.len()
        &&& self.trimmed_prefix + self.trimmed_suffix <= min2(
            self.old_ids().len() as int,
            self.new_ids().len() as int,
        )
        &&& self.old_ids().subrange(0, self.trimmed_prefix as int) == self.new_ids().subrange(
            0,
            self.trimmed_prefix as int,
        )
        &&& self.old_ids().subrange(
            self.old_ids().len() - self.trimmed_suffix,
            self.old_ids().len() as int,
        ) == self.new_ids().subrange(
            self.new_ids().len() - self.trimmed_suffix,
            self.new_ids().len() as int,
        )
    }
}

/// In a well-formed `Hashed`, every stored identity indexes the table.
pub proof fn lemma_ids_in_range(h: Hashed)
    requires
        h.wf(),
    ensures
        forall|t: int|
            0 <= t < h.changed_old@.len() ==> #[trigger] h.changed_old@[t] < h.index_map@.len(),
        forall|t: int|
            0 <= t < h.changed_new@.len() ==> #[trigger] h.changed_new@[t] < h.index_map@.len(),
{
    assert forall|t: int|
        0 <= t < h.changed_old@.len() implies #[trigger] h.changed_old@[t]
        < h.index_map@.len() by {
        assert(h.old_ids()[t] == h.changed_old@[t] as int);
    }
    assert forall|t: int|
        0 <= t < h.changed_new@.len() implies #[trigger] h.changed_new@[t]
        < h.index_map@.len() by {
        assert(h.new_ids()[t] == h.changed_new@[t] as int);
    }
}

/// What `hash_changed` promises of its result: the table and the identity
/// arrays are exactly those of interning old then new into a fresh table,
/// the trimming decision is exactly `spec_trim` of the identity arrays, and
/// the contents recovered through the interner are the inputs themselves.
pub open spec fn hash_changed_post(o: Seq<Seq<char>>, n: Seq<Seq<char>>, h: Hashed) -> bool {
    &&& h.wf()
    &&& h.index_map@ == table_after(table_after(Seq::<Seq<char>>::empty(), o), n)
    &&& h.old_ids() == ids_after(Seq::<Seq<char>>::empty(), o)
    &&& h.new_ids() == ids_after(table_after(Seq::<Seq<char>>::empty(), o), n)
    &&& h.old_ids().len() == o.len()
    &&& h.new_ids().len() == n.len()
    &&& h.old_model() == o
    &&& h.new_model() == n
    &&& h.trimmed_prefix as int == spec_trim(h.old_ids(), h.new_ids()).0
    &&& h.trimmed_suffix as int == spec_trim(h.old_ids(), h.new_ids()).1
}

/// Interns both sequences into one fresh table and fixes the trimming
/// decision. `None` exactly when both sequences are empty (the diff is then
/// the empty change list and nothing needs to be prepared).
pub fn hash_changed(old: &Vec<String>, new: &Vec<String>) -> (r: Option<Hashed>)
    ensures
        (r is None) == (old@.len() == 0 && new@.len() == 0),
        r matches Some(h) ==> hash_changed_post(views(old@), views(new@), h),
{
    if old.len() == 0 && new.len() == 0 {
        return None;
    }
    let ghost o = views(old@);
    let ghost n = views(new@);
    let mut index_map = Interner::new();
    let changed_old = index_map.intern_all(old);
    let ghost t1 = index_map@;
    let changed_new = index_map.intern_all(new);
    proof {
        lemma_intern_ids(Seq::<Seq<char>>::empty(), o);
        lemma_table_after_grows(t1, n);
        lemma_intern_ids(t1, n);
    }
    let ghost a = as_ints(changed_old@);
    let ghost b = as_ints(changed_new@);
    let nn: usize = changed_old.len();
    let mm: usize = changed_new.len();
    let minlen: usize = if nn <= mm {
        nn
    } else {
        mm
    };

    // forward scan: maximal common prefix of the identity arrays
    let mut cp: usize = 0;
    while cp < minlen && changed_old[cp] == changed_new[cp]
        invariant
            minlen == min2(nn as int, mm as int),
            nn == changed_old@.len(),
            mm == changed_new@.len(),
            a == as_ints(changed_old@),
            b == as_ints(changed_new@),
            cp <= minlen,
            forall|k: int| 0 <= k < cp ==> a[k] == b[k],
        decreases minlen - cp,
    {
        cp = cp + 1;
    }
    proof {
        lemma_common_prefix_char(a, b, cp as int);
    }

    // backward scan: maximal common suffix of the identity arrays
    proof {
        assert(a.subrange(nn as int, nn as int) =~= b.subrange(mm as int, mm as int));
    }
    let mut cs: usize = 0;
    while cs < minlen && changed_old[nn - 1 - cs] == changed_new[mm - 1 - cs]
        invariant
            minlen == min2(nn as int, mm as int),
            nn == changed_old@.len(),
            mm == changed_new@.len(),
            a == as_ints(changed_old@),
            b == as_ints(changed_new@),
            cs <= minlen,
            a.subrange(nn - cs, nn as int) == b.subrange(mm - cs, mm as int),
        decreases minlen - cs,
    {
        proof {
            let sa = a.subrange(nn - (cs + 1), nn as int);
            let sb = b.subrange(mm - (cs + 1), mm as int);
            assert(sa =~= sb) by {
                assert forall|k: int| 0 <= k < cs + 1 implies sa[k] == sb[k] by {
                    if k == 0 {
                        assert(a[nn - 1 - cs] == b[mm - 1 - cs]);
                    } else {
                        assert(a.subrange(nn - cs, nn as int)[k - 1] == b.subrange(
                            mm - cs,
                            mm as int,
                        )[k - 1]);
                    }
                }
            }
        }
        cs = cs + 1;
    }
    proof {
        lemma_common_suffix_char(a, b, cs as int);
    }

    // overlap resolution and early-exit classification, as one decision
    let (trimmed_prefix, trimmed_suffix): (usize, usize) = if cp == nn || cp == mm {
        (cp, 0)
    } else if cs == nn || cs == mm {
        (0, cs)
    } else if cs >= minlen - 1 - cp {
        (0, 0)
    } else {
        (cp, cs)
    };

    let h = Hashed { index_map, changed_old, changed_new, trimmed_prefix, trimmed_suffix };
    proof {
        lemma_spec_trim(a, b);
        let p = spec_trim(a, b).0;
        let s = spec_trim(a, b).1;
        assert(a.subrange(0, p) =~= b.subrange(0, p));
        assert(a.subrange(a.len() - s, a.len() as int) =~= b.subrange(
            b.len() - s,
            b.len() as int,
        ));
        assert(h.old_model() =~= o);
        assert(h.new_model() =~= n);
    }
    Some(h)
}

} // verus!
