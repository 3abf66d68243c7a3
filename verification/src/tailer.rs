//! The bookkeeping of a tailer that follows a growing file: where to read from
//! next, which of the bytes read form complete lines, and how far to advance.

use vstd::prelude::*;
use crate::text::{copy_range, views};
use crate::lines::{line_len, drop_last_if, complete_lines, consumed_len, lemma_line_len, lemma_line_len_append};

verus! {

/// The complete lines of a chunk of bytes, each without its `\n` and without
/// one `\r` before it, and how many bytes of the chunk they take.
pub struct CompleteLines {
    pub lines: Vec<Vec<u8>>,
    pub consumed: usize,
}

/// Position of the first `\n` at or after `i` in `s` (or `s.len()`).
fn line_end_bytes(s: &[u8], i: usize) -> (j: usize)
    requires
        i <= s@.len(),
    ensures
        i <= j <= s@.len(),
        j - i == line_len(s@.skip(i as int), 10u8),
{
    let mut j: usize = i;
    while j < s.len() && s[j] != 10u8
        invariant
            i <= j <= s@.len(),
            line_len(s@.skip(i as int), 10u8) == (j - i) + line_len(s@.skip(j as int), 10u8),
        decreases s@.len() - j,
    {
        assert(s@.skip(j as int).drop_first() =~= s@.skip(j + 1));
        j = j + 1;
    }
    j
}

/// Splits off the complete lines of `data`, as `BufRead::read_line` reads them
/// until it meets a line that is not finished yet.
pub fn split_complete_lines(data: &[u8]) -> (r: CompleteLines)
    ensures
        views(r.lines@) == complete_lines(data@, 10u8, 13u8),
        r.consumed == consumed_len(data@, 10u8),
{
    let mut out: Vec<Vec<u8>> = Vec::new();
    let mut i: usize = 0;
    assert(data@.skip(0) =~= data@);
    loop
        invariant
            i <= data@.len(),
            complete_lines(data@, 10u8, 13u8) == views(out@) + complete_lines(data@.skip(i as int), 10u8, 13u8),
            consumed_len(data@, 10u8) == i + consumed_len(data@.skip(i as int), 10u8),
        decreases data@.len() - i,
    {
        let ghost t = data@.skip(i as int);
        let ghost prev = views(out@);
        let j = line_end_bytes(data, i);
        if j == data.len() {
            assert(views(out@) + Seq::<Seq<u8>>::empty() =~= views(out@));
            return CompleteLines { lines: out, consumed: i };
        }
        let mut line = copy_range(data, i, j);
        assert(t.take(j - i) =~= line@);
        assert(t.skip(j - i + 1) =~= data@.skip(j + 1));
        if line.len() > 0 && line[line.len() - 1] == 13u8 {
            line.pop();
        }
        let ghost l = line@;
        out.push(line);
        assert(views(out@) =~= prev.push(l));
        i = j + 1;
    }
}

/// How far into the followed file the complete lines have been handed out.
pub struct TailCursor {
    pos: u64,
}

impl TailCursor {
    /// The byte offset up to which lines have been handed out.
    pub closed spec fn position(&self) -> u64 {
        self.pos
    }

    /// A cursor that starts at byte offset `pos` (the end of the file when tailing starts).
    pub fn at(pos: u64) -> (c: TailCursor)
        ensures
            c.position() == pos,
    {
        TailCursor { pos }
    }

    /// The byte offset up to which lines have been handed out.
    pub fn offset(&self) -> (p: u64)
        ensures
            p == self.position(),
    {
        self.pos
    }

    /// Decides, from the file's current length, where the next read starts:
    /// a file shorter than the cursor was truncated or rotated, so reading
    /// starts over at 0; a file of the cursor's length has nothing new.
    pub fn start_read(&mut self, current_len: u64) -> (start: Option<u64>)
        ensures
            current_len < old(self).position() ==> start == Some(0u64) && final(self).position() == 0,
            current_len == old(self).position() ==> start is None && final(self).position()
                == old(self).position(),
            current_len > old(self).position() ==> start == Some(old(self).position())
                && final(self).position() == old(self).position(),
    {
        if current_len < self.pos {
            self.pos = 0;
            Some(0)
        } else if current_len == self.pos {
            None
        } else {
            Some(self.pos)
        }
    }

    /// Takes the complete lines of `chunk`, the bytes read from the cursor's
    /// position on, and moves the cursor past them; an unfinished last line
    /// stays for the next read.
    pub fn take_lines(&mut self, chunk: &[u8]) -> (lines: Vec<Vec<u8>>)
        requires
            old(self).position() + chunk@.len() <= u64::MAX,
        ensures
            views(lines@) == complete_lines(chunk@, 10u8, 13u8),
            final(self).position() == old(self).position() + consumed_len(chunk@, 10u8),
    {
        let r = split_complete_lines(chunk);
        proof {
            lemma_consumed(chunk@, 10u8);
        }
        self.pos = self.pos + r.consumed as u64;
        r.lines
    }
}

/// What the complete lines take is a prefix of `s` that ends with `nl`,
/// and what is left after it holds no `nl`.
pub proof fn lemma_consumed<T>(s: Seq<T>, nl: T)
    ensures
        consumed_len(s, nl) <= s.len(),
        consumed_len(s, nl) > 0 ==> s[consumed_len(s, nl) - 1] == nl,
        forall|j: int| consumed_len(s, nl) <= j < s.len() ==> s[j] != nl,
    decreases s.len(),
{
    lemma_line_len(s, nl);
    let k = line_len(s, nl);
    if k < s.len() {
        let rest = s.skip(k + 1 as int);
        lemma_consumed(rest, nl);
        let c = consumed_len(rest, nl);
        if c > 0 {
            assert(s[k + 1 + c - 1] == rest[c - 1]);
        }
        assert forall|j: int| consumed_len(s, nl) <= j < s.len() implies s[j] != nl by {
            assert(s[j] == rest[j - k - 1]);
        }
    }
}

/// No complete line holds `nl`.
pub proof fn lemma_complete_lines_have_no_newline<T>(s: Seq<T>, nl: T, cr: T)
    ensures
        forall|i: int, j: int|
            0 <= i < complete_lines(s, nl, cr).len() && 0 <= j < complete_lines(s, nl, cr)[i].len()
                ==> complete_lines(s, nl, cr)[i][j] != nl,
    decreases s.len(),
{
    lemma_line_len(s, nl);
    let k = line_len(s, nl);
    if k < s.len() {
        let rest = s.skip(k + 1 as int);
        lemma_complete_lines_have_no_newline(rest, nl, cr);
        let ls = complete_lines(s, nl, cr);
        assert forall|i: int, j: int| 0 <= i < ls.len() && 0 <= j < ls[i].len() implies ls[i][j] != nl by {
            if i > 0 {
                assert(ls[i] == complete_lines(rest, nl, cr)[i - 1]);
            } else {
                assert(ls[0][j] == s[j]);
            }
        }
    }
}

/// Reading a growing file in two steps hands out the same lines, and advances
/// as far, as reading it in one step: the lines of `a`, followed by the lines
/// of what was left of `a` together with `b`, are the lines of `a + b`.
pub proof fn lemma_resume<T>(a: Seq<T>, b: Seq<T>, nl: T, cr: T)
    ensures
        complete_lines(a, nl, cr) + complete_lines(a.skip(consumed_len(a, nl) as int) + b, nl, cr)
            == complete_lines(a + b, nl, cr),
        consumed_len(a, nl) + consumed_len(a.skip(consumed_len(a, nl) as int) + b, nl)
            == consumed_len(a + b, nl),
    decreases a.len(),
{
    lemma_line_len(a, nl);
    lemma_line_len_append(a, b, nl);
    let k = line_len(a, nl);
    if k >= a.len() {
        assert(a.skip(0) =~= a);
        assert(Seq::<Seq<T>>::empty() + complete_lines(a + b, nl, cr) =~= complete_lines(a + b, nl, cr));
    } else {
        let rest = a.skip(k + 1 as int);
        lemma_resume(rest, b, nl, cr);
        lemma_consumed(rest, nl);
        assert((a + b).skip(k + 1 as int) =~= rest + b);
        assert((a + b).take(k as int) =~= a.take(k as int));
        assert(a.skip(consumed_len(a, nl) as int) =~= rest.skip(consumed_len(rest, nl) as int));
        let first = seq![drop_last_if(a.take(k as int), cr)];
        assert(first + complete_lines(rest, nl, cr) + complete_lines(
            rest.skip(consumed_len(rest, nl) as int) + b,
            nl,
            cr,
        ) =~= first + (complete_lines(rest, nl, cr) + complete_lines(
            rest.skip(consumed_len(rest, nl) as int) + b,
            nl,
            cr,
        )));
    }
}


/// The first handed-out line of `s` is exactly the elements before its first
/// `nl` (at `k`), less one `cr` just before that `nl`; the lines after it are
/// those of what follows the `nl`, and the `nl` counts as taken.
pub proof fn lemma_first_complete_line<T>(s: Seq<T>, nl: T, cr: T, k: int)
    requires
        0 <= k < s.len(),
        s[k] == nl,
        forall|j: int| 0 <= j < k ==> s[j] != nl,
    ensures
        complete_lines(s, nl, cr).len() >= 1,
        complete_lines(s, nl, cr)[0] == (if k > 0 && s[k - 1] == cr {
            s.subrange(0, k - 1)
        } else {
            s.subrange(0, k)
        }),
        complete_lines(s, nl, cr).drop_first() == complete_lines(s.skip(k + 1), nl, cr),
        consumed_len(s, nl) == k + 1 + consumed_len(s.skip(k + 1), nl),
{
    lemma_line_len(s, nl);
    let n = line_len(s, nl);
    if n < k {
        assert(s[n as int] == nl);
    }
    if n > k {
        assert(s[k] != nl);
    }
    assert(n == k);
    let t = s.take(k);
    if k > 0 && s[k - 1] == cr {
        assert(t.drop_last() =~= s.subrange(0, k - 1));
    } else {
        assert(t =~= s.subrange(0, k));
    }
    let ls = complete_lines(s, nl, cr);
    assert(ls.drop_first() =~= complete_lines(s.skip(k + 1), nl, cr));
}

/// A chunk without `nl` hands out no line and takes nothing.
pub proof fn lemma_no_complete_line<T>(s: Seq<T>, nl: T, cr: T)
    requires
        forall|j: int| 0 <= j < s.len() ==> s[j] != nl,
    ensures
        complete_lines(s, nl, cr).len() == 0,
        consumed_len(s, nl) == 0,
{
    lemma_line_len(s, nl);
    if line_len(s, nl) < s.len() {
        assert(s[line_len(s, nl) as int] == nl);
    }
}

/// The lines `ls`, each followed by `nl`, one after another.
pub open spec fn join_terminated<T>(ls: Seq<Seq<T>>, nl: T) -> Seq<T>
    decreases ls.len(),
{
    if ls.len() == 0 {
        seq![]
    } else {
        ls[0] + seq![nl] + join_terminated(ls.drop_first(), nl)
    }
}

/// Nothing of a line is lost: where the chunk holds no `cr`, the handed-out
/// lines, each followed by `nl`, give back exactly the bytes that were taken.
pub proof fn lemma_lines_rebuild_taken<T>(s: Seq<T>, nl: T, cr: T)
    requires
        forall|j: int| 0 <= j < s.len() ==> s[j] != cr,
    ensures
        join_terminated(complete_lines(s, nl, cr), nl) == s.take(consumed_len(s, nl) as int),
    decreases s.len(),
{
    lemma_line_len(s, nl);
    let k = line_len(s, nl) as int;
    if k >= s.len() {
        lemma_no_complete_line(s, nl, cr);
        assert(s.take(0) =~= Seq::<T>::empty());
    } else {
        lemma_first_complete_line(s, nl, cr, k);
        let rest = s.skip(k + 1);
        assert forall|j: int| 0 <= j < rest.len() implies rest[j] != cr by {
            assert(rest[j] == s[k + 1 + j]);
        }
        lemma_lines_rebuild_taken(rest, nl, cr);
        lemma_consumed(rest, nl);
        let ls = complete_lines(s, nl, cr);
        assert(ls[0] == s.subrange(0, k));
        let c = consumed_len(rest, nl) as int;
        assert(s.take(k + 1 + c) =~= s.subrange(0, k) + seq![nl] + rest.take(c));
        assert(ls.drop_first() == complete_lines(rest, nl, cr));
    }
}

} // verus!
