//! Splitting text into lines, as `BufRead::lines` and `BufRead::read_line` do it.

use vstd::prelude::*;
use crate::text::{copy_range, views, opt_view, trim, chars_of, string_of, trim_chars, is_white_space, lemma_trim_empty};

verus! {

/// Number of elements of `s` before its first `nl` (all of `s` when there is none).
pub open spec fn line_len<T>(s: Seq<T>, nl: T) -> nat
    decreases s.len(),
{
    if s.len() == 0 || s[0] == nl {
        0
    } else {
        1 + line_len(s.drop_first(), nl)
    }
}

/// `s` without its last element when that element is `x`.
pub open spec fn drop_last_if<T>(s: Seq<T>, x: T) -> Seq<T> {
    if s.len() > 0 && s.last() == x {
        s.drop_last()
    } else {
        s
    }
}

/// The lines of `s` as `BufRead::lines` hands them out: split after each `nl`,
/// a line ended by `nl` loses one `cr` before it, and a last line without `nl`
/// is kept as it is when it is not empty.
pub open spec fn text_lines<T>(s: Seq<T>, nl: T, cr: T) -> Seq<Seq<T>>
    decreases s.len(),
{
    if s.len() == 0 {
        seq![]
    } else {
        let k = line_len(s, nl);
        if k >= s.len() {
            seq![s]
        } else {
            seq![drop_last_if(s.take(k as int), cr)] + text_lines(s.skip(k + 1 as int), nl, cr)
        }
    }
}

/// The lines of `s` that are ended by `nl`, each without `nl` and without one `cr`
/// before it; what follows the last `nl` is not a line yet.
pub open spec fn complete_lines<T>(s: Seq<T>, nl: T, cr: T) -> Seq<Seq<T>>
    decreases s.len(),
{
    let k = line_len(s, nl);
    if k >= s.len() {
        seq![]
    } else {
        seq![drop_last_if(s.take(k as int), cr)] + complete_lines(s.skip(k + 1 as int), nl, cr)
    }
}

/// How many elements of `s` the complete lines take, their `nl` included.
pub open spec fn consumed_len<T>(s: Seq<T>, nl: T) -> nat
    decreases s.len(),
{
    let k = line_len(s, nl);
    if k >= s.len() {
        0
    } else {
        k + 1 + consumed_len(s.skip(k + 1 as int), nl)
    }
}

/// `line_len` counts the elements before the first `nl`.
pub proof fn lemma_line_len<T>(s: Seq<T>, nl: T)
    ensures
        line_len(s, nl) <= s.len(),
        forall|j: int| 0 <= j < line_len(s, nl) ==> s[j] != nl,
        line_len(s, nl) < s.len() ==> s[line_len(s, nl) as int] == nl,
    decreases s.len(),
{
    if s.len() > 0 && s[0] != nl {
        lemma_line_len(s.drop_first(), nl);
        assert forall|j: int| 0 <= j < line_len(s, nl) implies s[j] != nl by {
            if j > 0 {
                assert(s[j] == s.drop_first()[j - 1]);
            }
        }
    }
}

/// Position of the first `c` at or after `i` in `s` (or `s.len()`).
pub fn next_index_of(s: &[char], i: usize, c: char) -> (j: usize)
    requires
        i <= s@.len(),
    ensures
        i <= j <= s@.len(),
        j - i == line_len(s@.skip(i as int), c),
{
    let mut j: usize = i;
    while j < s.len() && s[j] != c
        invariant
            i <= j <= s@.len(),
            line_len(s@.skip(i as int), c) == (j - i) + line_len(s@.skip(j as int), c),
        decreases s@.len() - j,
    {
        assert(s@.skip(j as int).drop_first() =~= s@.skip(j + 1));
        j = j + 1;
    }
    j
}

/// The lines of `s`, split as `BufRead::lines` splits them.
pub fn text_lines_chars(s: &[char]) -> (r: Vec<Vec<char>>)
    ensures
        views(r@) == text_lines(s@, '\n', '\r'),
{
    let mut out: Vec<Vec<char>> = Vec::new();
    let mut i: usize = 0;
    assert(s@.skip(0) =~= s@);
    while i < s.len()
        invariant
            i <= s@.len(),
            text_lines(s@, '\n', '\r') == views(out@) + text_lines(s@.skip(i as int), '\n', '\r'),
        decreases s@.len() - i,
    {
        let ghost t = s@.skip(i as int);
        let ghost prev = views(out@);
        let j = next_index_of(s, i, '\n');
        let mut line = copy_range(s, i, j);
        if j == s.len() {
            assert(line@ =~= t);
            out.push(line);
            assert(views(out@) =~= prev.push(t));
            assert(s@.skip(j as int) =~= Seq::<char>::empty());
            i = j;
        } else {
            assert(t.take(j - i) =~= line@);
            assert(t.skip(j - i + 1) =~= s@.skip(j + 1));
            if line.len() > 0 && line[line.len() - 1] == '\r' {
                line.pop();
            }
            let ghost l = line@;
            out.push(line);
            assert(views(out@) =~= prev.push(l));
            i = j + 1;
        }
    }
    assert(s@.skip(i as int) =~= Seq::<char>::empty());
    assert(views(out@) + Seq::<Seq<char>>::empty() =~= views(out@));
    out
}


/// The last of the lines `ls` that is not blank (holds more than whitespace).
pub open spec fn last_nonblank(ls: Seq<Seq<char>>) -> Option<Seq<char>>
    decreases ls.len(),
{
    if ls.len() == 0 {
        None
    } else if trim(ls.last()).len() > 0 {
        Some(ls.last())
    } else {
        last_nonblank(ls.drop_last())
    }
}

/// The last line of `text` that is not blank, as `BufRead::lines` hands it out.
pub fn last_nonblank_line(text: &str) -> (r: Option<String>)
    ensures
        opt_view(r) == last_nonblank(text_lines(text@, '\n', '\r')),
{
    let chars = chars_of(text);
    let lines = text_lines_chars(chars.as_slice());
    let ghost ls = text_lines(text@, '\n', '\r');
    let mut i: usize = lines.len();
    assert(ls.take(ls.len() as int) =~= ls);
    while i > 0
        invariant
            views(lines@) == ls,
            ls == text_lines(text@, '\n', '\r'),
            i <= ls.len(),
            last_nonblank(ls) == last_nonblank(ls.take(i as int)),
        decreases i,
    {
        let ghost pre = ls.take(i as int);
        assert(pre.last() == lines@[i - 1]@);
        if trim_chars(lines[i - 1].as_slice()).len() > 0 {
            return Some(string_of(lines[i - 1].as_slice()));
        }
        assert(pre.drop_last() =~= ls.take(i - 1));
        i = i - 1;
    }
    None
}

/// Appending after an `nl` does not move the first `nl`; appending to a
/// sequence without `nl` extends its first line.
pub proof fn lemma_line_len_append<T>(a: Seq<T>, b: Seq<T>, nl: T)
    ensures
        line_len(a, nl) < a.len() ==> line_len(a + b, nl) == line_len(a, nl),
        line_len(a, nl) >= a.len() ==> line_len(a + b, nl) == a.len() + line_len(b, nl),
    decreases a.len(),
{
    lemma_line_len(a, nl);
    if a.len() == 0 {
        assert(a + b =~= b);
    } else if a[0] == nl {
    } else {
        lemma_line_len_append(a.drop_first(), b, nl);
        assert((a + b).drop_first() =~= a.drop_first() + b);
    }
}

/// The lines of a text made of two parts, the first empty or ending with
/// `nl`, are the lines of the first part followed by those of the second.
pub proof fn lemma_text_lines_append<T>(a: Seq<T>, b: Seq<T>, nl: T, cr: T)
    requires
        a.len() == 0 || a.last() == nl,
    ensures
        text_lines(a + b, nl, cr) == text_lines(a, nl, cr) + text_lines(b, nl, cr),
    decreases a.len(),
{
    if a.len() == 0 {
        assert(a + b =~= b);
        assert(Seq::<Seq<T>>::empty() + text_lines(b, nl, cr) =~= text_lines(b, nl, cr));
    } else {
        lemma_line_len(a, nl);
        lemma_line_len_append(a, b, nl);
        let k = line_len(a, nl);
        assert(k < a.len()) by {
            if k >= a.len() {
                assert(a[a.len() - 1] != nl);
            }
        }
        let rest = a.skip(k + 1 as int);
        assert(rest.len() == 0 || rest.last() == nl) by {
            if rest.len() > 0 {
                assert(rest.last() == a.last());
            }
        }
        lemma_text_lines_append(rest, b, nl, cr);
        assert((a + b).skip(k + 1 as int) =~= rest + b);
        assert((a + b).take(k as int) =~= a.take(k as int));
        let first = seq![drop_last_if(a.take(k as int), cr)];
        assert(first + (text_lines(rest, nl, cr) + text_lines(b, nl, cr)) =~= first + text_lines(
            rest,
            nl,
            cr,
        ) + text_lines(b, nl, cr));
    }
}


/// The line holds a character that is not whitespace.
pub open spec fn has_visible(l: Seq<char>) -> bool {
    exists|j: int| 0 <= j < l.len() && !is_white_space(#[trigger] l[j])
}

/// The line picked is the last one with a visible character: it is one of
/// the lines, it has a visible character, and every line after it is blank;
/// no line is picked only when every line is blank.
pub proof fn lemma_last_nonblank(ls: Seq<Seq<char>>)
    ensures
        last_nonblank(ls) matches Some(l) ==> exists|k: int|
            0 <= k < ls.len() && ls[k] == l && has_visible(l) && forall|j: int|
                k < j < ls.len() ==> !has_visible(#[trigger] ls[j]),
        last_nonblank(ls) is None ==> forall|j: int| 0 <= j < ls.len() ==> !has_visible(#[trigger] ls[j]),
    decreases ls.len(),
{
    if ls.len() > 0 {
        let l = ls.last();
        lemma_trim_empty(l);
        if trim(l).len() > 0 {
            assert(ls[ls.len() - 1] == l);
        } else {
            let p = ls.drop_last();
            lemma_last_nonblank(p);
            match last_nonblank(p) {
                Some(m) => {
                    let k = choose|k: int|
                        0 <= k < p.len() && p[k] == m && has_visible(m) && forall|j: int|
                            k < j < p.len() ==> !has_visible(#[trigger] p[j]);
                    assert(ls[k] == m);
                    assert forall|j: int| k < j < ls.len() implies !has_visible(#[trigger] ls[j]) by {
                        if j < ls.len() - 1 {
                            assert(ls[j] == p[j]);
                        }
                    }
                },
                None => {
                    assert forall|j: int| 0 <= j < ls.len() implies !has_visible(#[trigger] ls[j]) by {
                        if j < ls.len() - 1 {
                            assert(ls[j] == p[j]);
                        }
                    }
                },
            }
        }
    }
}


/// The first line of `s`, when `s` has an `nl` (the first at `k`): the
/// elements before it, less one `cr` just before it; the other lines are
/// those of what follows the `nl`.
pub proof fn lemma_first_text_line<T>(s: Seq<T>, nl: T, cr: T, k: int)
    requires
        0 <= k < s.len(),
        s[k] == nl,
        forall|j: int| 0 <= j < k ==> s[j] != nl,
    ensures
        text_lines(s, nl, cr).len() >= 1,
        text_lines(s, nl, cr)[0] == (if k > 0 && s[k - 1] == cr {
            s.subrange(0, k - 1)
        } else {
            s.subrange(0, k)
        }),
        text_lines(s, nl, cr).drop_first() == text_lines(s.skip(k + 1), nl, cr),
{
    lemma_line_len(s, nl);
    let n = line_len(s, nl);
    if n < k {
        assert(s[n as int] == nl);
    }
    if n > k {
        assert(s[k] != nl);
    }
    assert(n == k);
    let t = s.take(k);
    if k > 0 && s[k - 1] == cr {
        assert(t.drop_last() =~= s.subrange(0, k - 1));
    } else {
        assert(t =~= s.subrange(0, k));
    }
    assert(text_lines(s, nl, cr).drop_first() =~= text_lines(s.skip(k + 1), nl, cr));
}

/// A text without `nl` is one line as it stands, or no line when it is empty.
pub proof fn lemma_text_without_newline<T>(s: Seq<T>, nl: T, cr: T)
    requires
        forall|j: int| 0 <= j < s.len() ==> s[j] != nl,
    ensures
        s.len() == 0 ==> text_lines(s, nl, cr).len() == 0,
        s.len() > 0 ==> text_lines(s, nl, cr) == seq![s],
{
    lemma_line_len(s, nl);
    if line_len(s, nl) < s.len() {
        assert(s[line_len(s, nl) as int] == nl);
    }
}

} // verus!
