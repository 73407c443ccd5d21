//! The segment source for plain text: splits a string into its lines, each
//! line a segment whose position is its line counter. Lines end at a
//! newline; a carriage return immediately before the newline is removed
//! with it; the final line needs no terminator, and a terminator at the
//! very end opens no further line.
use vstd::prelude::*;
use vstd::string::StrSliceExecFns;
use crate::interner::views;

verus! {

/// Index of the first newline in `s`, or `s.len()` if there is none.
pub open spec fn line_break(s: Seq<char>) -> int
    decreases s.len(),
{
    if s.len() == 0 {
        0
    } else if s[0] == '\n' {
        0
    } else {
        1 + line_break(s.drop_first())
    }
}

pub proof fn lemma_line_break(s: Seq<char>)
    ensures
        0 <= line_break(s) <= s.len(),
        line_break(s) < s.len() ==> s[line_break(s)] == '\n',
        forall|k: int| 0 <= k < line_break(s) ==> s[k] != '\n',
    decreases s.len(),
{
    if s.len() == 0 {
    } else if s[0] == '\n' {
    } else {
        lemma_line_break(s.drop_first());
        let b = line_break(s);
        assert(forall|k: int| 1 <= k < b ==> s[k] == s.drop_first()[k - 1]);
        if b < s.len() {
            assert(s[b] == s.drop_first()[b - 1]);
        }
    }
}

/// The first newline is the unique cut with no newline before it and a
/// newline (or the end) at it.
pub proof fn lemma_line_break_char(s: Seq<char>, b: int)
    requires
        0 <= b <= s.len(),
        forall|k: int| 0 <= k < b ==> s[k] != '\n',
        b == s.len() || s[b] == '\n',
    ensures
        line_break(s) == b,
    decreases s.len(),
{
    if b == 0 {
        if s.len() > 0 && s[0] != '\n' {
            assert(s[b] == '\n');
        }
    } else {
        assert(s[0] != '\n');
        assert(forall|k: int| 0 <= k < b - 1 ==> s.drop_first()[k] == s[k + 1]);
        if b < s.len() {
            assert(s.drop_first()[b - 1] == s[b]);
        }
        lemma_line_break_char(s.drop_first(), b - 1);
    }
}

#[via_fn]
proof fn spec_lines_decreases(s: Seq<char>) {
    lemma_line_break(s);
}

/// The lines of a character sequence.
pub open spec fn spec_lines(s: Seq<char>) -> Seq<Seq<char>>
    decreases s.len(),
    via spec_lines_decreases
{
    if s.len() == 0 {
        Seq::<Seq<char>>::empty()
    } else {
        let b = line_break(s);
        if b == s.len() {
            seq![s]
        } else {
            let content = if b > 0 && s[b - 1] == '\r' {
                s.subrange(0, b - 1)
            } else {
                s.subrange(0, b)
            };
            seq![content] + spec_lines(s.subrange(b + 1, s.len() as int))
        }
    }
}

/// Splits text into its lines.
pub fn split_lines(text: &str) -> (r: Vec<String>)
    ensures
        views(r@) == spec_lines(text@),
{
    let n: usize = text.unicode_len();
    let mut out: Vec<String> = Vec::new();
    let mut start: usize = 0;
    proof {
        assert(text@.subrange(0, n as int) =~= text@);
        assert(views(out@) + spec_lines(text@) =~= spec_lines(text@));
    }
    while start < n
        invariant
            start <= n,
            n == text@.len(),
            spec_lines(text@) == views(out@) + spec_lines(text@.subrange(start as int, n as int)),
        decreases n - start,
    {
        let ghost rest = text@.subrange(start as int, n as int);
        let mut j: usize = start;
        while j < n && text.get_char(j) != '\n'
            invariant
                start <= j <= n,
                n == text@.len(),
                forall|k: int| start <= k < j ==> text@[k] != '\n',
            decreases n - j,
        {
            j = j + 1;
        }
        proof {
            assert(forall|k: int| 0 <= k < j - start ==> rest[k] == text@[start + k]);
            if j < n {
                assert(rest[j - start] == text@[j as int]);
            }
            lemma_line_break_char(rest, j - start);
        }
        if j >= n {
            // final line, no terminator
            let line = text.substring_char(start, n).to_owned();
            out.push(line);
            proof {
                assert(line@ == rest);
                assert(spec_lines(rest) == seq![rest]);
                assert(views(out@) =~= views(out@.drop_last()) + seq![rest]);
                assert(text@.subrange(n as int, n as int) =~= Seq::<char>::empty());
                assert(spec_lines(text@.subrange(n as int, n as int))
                    =~= Seq::<Seq<char>>::empty());
                assert(views(out@.drop_last()) + (seq![rest] + Seq::<Seq<char>>::empty())
                    =~= views(out@) + Seq::<Seq<char>>::empty());
                assert(views(out@) + spec_lines(text@.subrange(n as int, n as int))
                    =~= spec_lines(text@));
            }
            start = n;
        } else {
            // terminator at j; a '\r' straight before it goes with it
            let end: usize = if j > start && text.get_char(j - 1) == '\r' {
                j - 1
            } else {
                j
            };
            let line = text.substring_char(start, end).to_owned();
            out.push(line);
            let ghost b = (j - start) as int;
            proof {
                let content = if b > 0 && rest[b - 1] == '\r' {
                    rest.subrange(0, b - 1)
                } else {
                    rest.subrange(0, b)
                };
                if b > 0 {
                    assert(rest[b - 1] == text@[start + (b - 1)]);
                    assert(rest[b - 1] == text@[j - 1]);
                }
                assert(line@ =~= content) by {
                    assert(line@ == text@.subrange(start as int, end as int));
                    assert(forall|k: int|
                        0 <= k < end - start ==> text@.subrange(start as int, end as int)[k]
                            == text@[start + k]);
                    assert(forall|k: int| 0 <= k < end - start ==> rest[k] == text@[start + k]);
                }
                assert(spec_lines(rest) == seq![content] + spec_lines(
                    rest.subrange(b + 1, rest.len() as int),
                ));
                assert(rest.subrange(b + 1, rest.len() as int) =~= text@.subrange(
                    j + 1,
                    n as int,
                ));
                assert(views(out@) =~= views(out@.drop_last()) + seq![content]);
                assert(views(out@.drop_last()) + (seq![content] + spec_lines(
                    text@.subrange(j + 1, n as int),
                )) =~= views(out@) + spec_lines(text@.subrange(j + 1, n as int)));
                assert(views(out@) + spec_lines(text@.subrange(j + 1, n as int)) =~= spec_lines(
                    text@,
                ));
            }
            start = j + 1;
        }
    }
    proof {
        assert(text@.subrange(n as int, n as int) =~= Seq::<char>::empty());
        assert(spec_lines(text@.subrange(n as int, n as int)) =~= Seq::<Seq<char>>::empty());
        assert(views(out@) + Seq::<Seq<char>>::empty() =~= views(out@));
    }
    out
}

/// One comparable unit of a sequence being diffed: its content and its
/// position, an explicit counter assigned at segmentation time, unique per
/// physical occurrence and used only to tell equal-content segments apart.
pub struct Segment {
    pub index: usize,
    pub seg: String,
}

/// The lines of `text` as segments, each carrying its position counter.
pub fn segments(text: &str) -> (r: Vec<Segment>)
    ensures
        r@.len() == spec_lines(text@).len(),
        forall|k: int|
            0 <= k < r@.len() ==> (#[trigger] r@[k]).index == k && r@[k].seg@ == spec_lines(
                text@,
            )[k],
{
    let lines = split_lines(text);
    let mut r: Vec<Segment> = Vec::new();
    let mut i: usize = 0;
    while i < lines.len()
        invariant
            i <= lines@.len(),
            views(lines@) == spec_lines(text@),
            views(lines@).len() == lines@.len(),
            r@.len() == i,
            forall|k: int|
                0 <= k < i ==> (#[trigger] r@[k]).index == k && r@[k].seg@ == spec_lines(text@)[k],
        decreases lines@.len() - i,
    {
        r.push(Segment { index: i, seg: lines[i].clone() });
        proof {
            assert(views(lines@)[i as int] == lines@[i as int]@);
        }
        i = i + 1;
    }
    r
}

} // verus!
