//! The interning layer: assigns a dense integer identity to each distinct
//! line content on first sight, and recovers original content from a run of
//! identities. The table owns its contents; everything else works with plain
//! indices into it.
use vstd::prelude::*;

verus! {

/// One interning step: a content already in the table leaves it unchanged,
/// a fresh content is appended at the end.
pub open spec fn intern_table_step(t: Seq<Seq<char>>, c: Seq<char>) -> Seq<Seq<char>> {
    if t.contains(c) {
        t
    } else {
        t.push(c)
    }
}

/// Index of the first entry of `t` equal to `c`, or `t.len()` if `c` is absent.
pub open spec fn table_index_of(t: Seq<Seq<char>>, c: Seq<char>) -> int
    decreases t.len(),
{
    if t.len() == 0 {
        0
    } else if t[0] == c {
        0
    } else {
        1 + table_index_of(t.drop_first(), c)
    }
}

pub proof fn lemma_table_index_of(t: Seq<Seq<char>>, c: Seq<char>)
    ensures
        0 <= table_index_of(t, c) <= t.len(),
        t.contains(c) <==> table_index_of(t, c) < t.len(),
        table_index_of(t, c) < t.len() ==> t[table_index_of(t, c)] == c,
        forall|k: int| 0 <= k < table_index_of(t, c) ==> t[k] != c,
    decreases t.len(),
{
    if t.len() == 0 {
    } else if t[0] == c {
    } else {
        lemma_table_index_of(t.drop_first(), c);
        assert(t.contains(c) <==> t.drop_first().contains(c)) by {
            if t.contains(c) {
                let i = choose|i: int| 0 <= i < t.len() && t[i] == c;
                assert(t.drop_first()[i - 1] == c);
            }
            if t.drop_first().contains(c) {
                let i = choose|i: int| 0 <= i < t.drop_first().len() && t.drop_first()[i] == c;
                assert(t[i + 1] == c);
            }
        }
        assert(forall|k: int| 0 <= k < table_index_of(t, c) ==> t[k] != c) by {
            assert(forall|k: int|
                1 <= k < table_index_of(t, c) ==> t[k] == t.drop_first()[k - 1]);
        }
    }
}

/// The views of a sequence of owned strings.
pub open spec fn views(ss: Seq<String>) -> Seq<Seq<char>> {
    ss.map_values(|s: String| s@)
}

/// The identities of a sequence of usize identities, as mathematical integers.
pub open spec fn as_ints(s: Seq<usize>) -> Seq<int> {
    s.map_values(|u: usize| u as int)
}

/// No content appears twice in the table.
pub open spec fn distinct_table(t: Seq<Seq<char>>) -> bool {
    forall|i: int, j: int| 0 <= i < j < t.len() ==> t[i] != t[j]
}

/// The table after interning every element of `xs`, in order, into `t0`.
pub open spec fn table_after(t0: Seq<Seq<char>>, xs: Seq<Seq<char>>) -> Seq<Seq<char>>
    decreases xs.len(),
{
    if xs.len() == 0 {
        t0
    } else {
        intern_table_step(table_after(t0, xs.drop_last()), xs.last())
    }
}

/// The identities assigned to the elements of `xs` when interning them, in
/// order, into `t0`.
pub open spec fn ids_after(t0: Seq<Seq<char>>, xs: Seq<Seq<char>>) -> Seq<int>
    decreases xs.len(),
{
    if xs.len() == 0 {
        Seq::<int>::empty()
    } else {
        ids_after(t0, xs.drop_last()).push(
            table_index_of(table_after(t0, xs.drop_last()), xs.last()),
        )
    }
}

/// Interning only appends: the earlier table is a prefix of the later one.
pub proof fn lemma_table_after_grows(t0: Seq<Seq<char>>, xs: Seq<Seq<char>>)
    ensures
        t0.len() <= table_after(t0, xs).len(),
        forall|k: int| 0 <= k < t0.len() ==> table_after(t0, xs)[k] == t0[k],
    decreases xs.len(),
{
    if xs.len() > 0 {
        lemma_table_after_grows(t0, xs.drop_last());
    }
}

/// Identities assigned by interning are in-range indices of the resulting
/// table, they look the content back up exactly, and the table stays free of
/// duplicates.
pub proof fn lemma_intern_ids(t0: Seq<Seq<char>>, xs: Seq<Seq<char>>)
    requires
        distinct_table(t0),
    ensures
        distinct_table(table_after(t0, xs)),
        ids_after(t0, xs).len() == xs.len(),
        forall|k: int|
            0 <= k < xs.len() ==> 0 <= #[trigger] ids_after(t0, xs)[k] < table_after(
                t0,
                xs,
            ).len(),
        forall|k: int|
            0 <= k < xs.len() ==> table_after(t0, xs)[#[trigger] ids_after(t0, xs)[k]] == xs[k],
    decreases xs.len(),
{
    if xs.len() > 0 {
        let prev = xs.drop_last();
        let t1 = table_after(t0, prev);
        let t2 = table_after(t0, xs);
        lemma_intern_ids(t0, prev);
        lemma_table_index_of(t1, xs.last());
        assert(distinct_table(t2)) by {
            if !t1.contains(xs.last()) {
                assert(forall|i: int, j: int|
                    0 <= i < j < t1.len() ==> t2[i] == t1[i] && t2[j] == t1[j]);
                assert(forall|i: int| 0 <= i < t1.len() ==> t2[i] == t1[i]);
                assert(forall|i: int| 0 <= i < t1.len() ==> t2[i] != xs.last());
            }
        }
        assert(forall|k: int|
            0 <= k < prev.len() ==> #[trigger] ids_after(t0, xs)[k] == ids_after(t0, prev)[k]);
        assert(forall|k: int| 0 <= k < t1.len() ==> t2[k] == t1[k]);
    }
}

/// Pushing a new entry does not move the first occurrence of a content
/// already present.
pub proof fn lemma_index_of_push_present(t: Seq<Seq<char>>, c: Seq<char>, d: Seq<char>)
    requires
        t.contains(d),
    ensures
        table_index_of(t.push(c), d) == table_index_of(t, d),
    decreases t.len(),
{
    if t.len() == 0 {
        let i = choose|i: int| 0 <= i < t.len() && t[i] == d;
        assert(false);
    } else if t[0] == d {
        assert(t.push(c)[0] == d);
    } else {
        assert(t.push(c)[0] == t[0]);
        assert(t.push(c).drop_first() =~= t.drop_first().push(c));
        assert(t.drop_first().contains(d)) by {
            let i = choose|i: int| 0 <= i < t.len() && t[i] == d;
            assert(i != 0);
            assert(t.drop_first()[i - 1] == d);
        }
        lemma_index_of_push_present(t.drop_first(), c, d);
    }
}

/// A content absent from the table, pushed at its end, gets the old length
/// as its first-occurrence index.
pub proof fn lemma_index_of_push_absent(t: Seq<Seq<char>>, c: Seq<char>)
    requires
        !t.contains(c),
    ensures
        table_index_of(t.push(c), c) == t.len(),
    decreases t.len(),
{
    if t.len() == 0 {
        assert(t.push(c)[0] == c);
    } else {
        assert(t[0] != c) by {
            if t[0] == c {
                assert(t.contains(c));
            }
        }
        assert(t.push(c)[0] == t[0]);
        assert(!t.drop_first().contains(c)) by {
            if t.drop_first().contains(c) {
                let i = choose|i: int| 0 <= i < t.drop_first().len() && t.drop_first()[i] == c;
                assert(t[i + 1] == c);
                assert(t.contains(c));
            }
        }
        assert(t.push(c).drop_first() =~= t.drop_first().push(c));
        lemma_index_of_push_absent(t.drop_first(), c);
    }
}

/// Every identity assigned during interning is the index of its content's
/// first occurrence in the final table.
pub proof fn lemma_ids_are_final_indices(t0: Seq<Seq<char>>, xs: Seq<Seq<char>>)
    requires
        distinct_table(t0),
    ensures
        forall|k: int|
            0 <= k < xs.len() ==> #[trigger] ids_after(t0, xs)[k] == table_index_of(
                table_after(t0, xs),
                xs[k],
            ),
    decreases xs.len(),
{
    if xs.len() > 0 {
        let prev = xs.drop_last();
        let t1 = table_after(t0, prev);
        let t2 = table_after(t0, xs);
        lemma_ids_are_final_indices(t0, prev);
        lemma_intern_ids(t0, prev);
        lemma_table_index_of(t1, xs.last());
        if t1.contains(xs.last()) {
            assert(t2 == t1);
        } else {
            lemma_index_of_push_absent(t1, xs.last());
        }
        assert forall|k: int|
            0 <= k < prev.len() implies #[trigger] ids_after(t0, xs)[k] == table_index_of(
            t2,
            xs[k],
        ) by {
            assert(ids_after(t0, xs)[k] == ids_after(t0, prev)[k]);
            assert(xs[k] == prev[k]);
            let id = ids_after(t0, prev)[k];
            assert(0 <= id < t1.len() && t1[id] == prev[k]);
            assert(t1.contains(prev[k]));
            if !t1.contains(xs.last()) {
                lemma_index_of_push_present(t1, xs.last(), prev[k]);
            }
        }
        assert(ids_after(t0, xs)[xs.len() - 1] == table_index_of(t2, xs.last()));
    }
}

/// Interning contents that are all in the table already changes nothing.
pub proof fn lemma_table_absorb(t: Seq<Seq<char>>, xs: Seq<Seq<char>>)
    requires
        forall|k: int| 0 <= k < xs.len() ==> t.contains(#[trigger] xs[k]),
    ensures
        table_after(t, xs) == t,
    decreases xs.len(),
{
    if xs.len() > 0 {
        lemma_table_absorb(t, xs.drop_last());
        assert(t.contains(xs[xs.len() - 1]));
        assert(t.contains(xs.last()));
    }
}

/// Interning the same contents again, into the table they built, assigns
/// the same identities and leaves the table as it is.
pub proof fn lemma_reintern_same_ids(xs: Seq<Seq<char>>)
    ensures
        table_after(table_after(Seq::<Seq<char>>::empty(), xs), xs) == table_after(
            Seq::<Seq<char>>::empty(),
            xs,
        ),
        ids_after(table_after(Seq::<Seq<char>>::empty(), xs), xs) == ids_after(
            Seq::<Seq<char>>::empty(),
            xs,
        ),
{
    let e = Seq::<Seq<char>>::empty();
    let t1 = table_after(e, xs);
    assert(distinct_table(e));
    lemma_intern_ids(e, xs);
    assert forall|k: int| 0 <= k < xs.len() implies t1.contains(#[trigger] xs[k]) by {
        let id = ids_after(e, xs)[k];
        assert(0 <= id < t1.len() && t1[id] == xs[k]);
    }
    lemma_table_absorb(t1, xs);
    lemma_ids_are_final_indices(e, xs);
    lemma_ids_are_final_indices(t1, xs);
    lemma_intern_ids(t1, xs);
    assert(ids_after(t1, xs) =~= ids_after(e, xs)) by {
        assert forall|k: int|
            0 <= k < xs.len() implies ids_after(t1, xs)[k] == ids_after(e, xs)[k] by {
            assert(ids_after(t1, xs)[k] == table_index_of(table_after(t1, xs), xs[k]));
            assert(ids_after(e, xs)[k] == table_index_of(t1, xs[k]));
        }
    }
}

/// The interner: a growable table of distinct line contents. The identity of
/// a content is its index in this table; identities are handed out densely in
/// first-occurrence order and have no meaning beyond uniqueness.
pub struct Interner {
    pub table: Vec<String>,
}

impl View for Interner {
    type V = Seq<Seq<char>>;

    open spec fn view(&self) -> Seq<Seq<char>> {
        self.table@.map_values(|s: String| s@)
    }
}

impl Interner {
    /// The table never holds the same content twice, so identity equality
    /// coincides with content equality.
    pub open spec fn wf(self) -> bool {
        distinct_table(self@)
    }

    pub fn new() -> (r: Interner)
        ensures
            r.wf(),
            r@ == Seq::<Seq<char>>::empty(),
    {
        let r = Interner { table: Vec::new() };
        proof {
            assert(r@ =~= Seq::<Seq<char>>::empty());
        }
        r
    }

    /// Returns the identity of `c`: the index of its first occurrence if it
    /// was seen before, otherwise the index of a fresh entry appended for it.
    pub fn unique_id(&mut self, c: &String) -> (id: usize)
        requires
            old(self).wf(),
        ensures
            final(self).wf(),
            final(self)@ == intern_table_step(old(self)@, c@),
            id as int == table_index_of(old(self)@, c@),
            id < final(self)@.len(),
            final(self)@[id as int] == c@,
            old(self)@.len() <= final(self)@.len(),
            forall|k: int| 0 <= k < old(self)@.len() ==> final(self)@[k] == old(self)@[k],
    {
        proof {
            lemma_table_index_of(self@, c@);
        }
        let len: usize = self.table.len();
        let mut j: usize = 0;
        while j < len
            invariant
                len == self.table@.len(),
                j <= len,
                forall|k: int| 0 <= k < j ==> self@[k] != c@,
                old(self) == self,
                self.wf(),
            decreases len - j,
        {
            if self.table[j] == *c {
                assert(self@[j as int] == c@);
                assert(self@.contains(c@));
                assert(j as int == table_index_of(self@, c@)) by {
                    lemma_table_index_of(self@, c@);
                    let w = table_index_of(self@, c@);
                    if w < j {
                        assert(self@[w] != c@);
                    }
                }
                proof {
                    assert(intern_table_step(old(self)@, c@) == self@);
                }
                return j;
            }
            j = j + 1;
        }
        assert(!self@.contains(c@)) by {
            if self@.contains(c@) {
                let i = choose|i: int| 0 <= i < self@.len() && self@[i] == c@;
                assert(self@[i] != c@);
            }
        }
        let ghost t0 = self@;
        self.table.push(c.clone());
        proof {
            assert(self@ =~= t0.push(c@));
            assert(self.wf()) by {
                assert(forall|i: int, j2: int|
                    0 <= i < j2 < t0.len() ==> self@[i] == t0[i] && self@[j2] == t0[j2]);
            }
        }
        len
    }

    /// Interns every element of `xs` in order and returns their identities.
    pub fn intern_all(&mut self, xs: &Vec<String>) -> (ids: Vec<usize>)
        requires
            old(self).wf(),
        ensures
            final(self).wf(),
            final(self)@ == table_after(old(self)@, views(xs@)),
            as_ints(ids@) == ids_after(old(self)@, views(xs@)),
            ids@.len() == xs@.len(),
    {
        let ghost t0 = self@;
        let ghost vxs = views(xs@);
        let mut ids: Vec<usize> = Vec::new();
        let mut i: usize = 0;
        while i < xs.len()
            invariant
                i <= xs@.len(),
                vxs == views(xs@),
                vxs.len() == xs@.len(),
                self.wf(),
                self@ == table_after(t0, vxs.take(i as int)),
                as_ints(ids@) == ids_after(t0, vxs.take(i as int)),
                ids@.len() == i,
            decreases xs@.len() - i,
        {
            let ghost pre = vxs.take(i as int);
            let id: usize = self.unique_id(&xs[i]);
            ids.push(id);
            proof {
                let cur = vxs.take(i + 1);
                assert(cur.drop_last() =~= pre);
                assert(cur.last() == vxs[i as int]);
                assert(self@ == table_after(t0, cur));
                assert(as_ints(ids@) =~= ids_after(t0, cur));
            }
            i = i + 1;
        }
        proof {
            assert(vxs.take(vxs.len() as int) =~= vxs);
        }
        ids
    }

    /// Reverse lookup: the original contents for the identities
    /// `ids[from..to]`, one content per identity, in order.
    pub fn contents(&self, ids: &Vec<usize>, from: usize, to: usize) -> (r: Vec<String>)
        requires
            from <= to <= ids@.len(),
            forall|k: int| from <= k < to ==> ids@[k] < self@.len(),
        ensures
            r@.len() == to - from,
            forall|x: int| 0 <= x < to - from ==> r@[x] == self.table@[ids@[from + x] as int],
            forall|x: int| 0 <= x < to - from ==> (#[trigger] r@[x])@ == self@[ids@[from + x] as int],
    {
        let mut r: Vec<String> = Vec::new();
        let mut k: usize = from;
        while k < to
            invariant
                from <= k <= to <= ids@.len(),
                forall|x: int| from <= x < to ==> ids@[x] < self@.len(),
                r@.len() == k - from,
                forall|x: int| 0 <= x < k - from ==> r@[x] == self.table@[ids@[from + x] as int],
            decreases to - k,
        {
            r.push(self.table[ids[k]].clone());
            k = k + 1;
        }
        r
    }
}

} // verus!
