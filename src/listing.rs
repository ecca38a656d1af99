use vstd::prelude::*;

use crate::date::{DASH, SPACE, ZERO};
use crate::journal::{COLON, DONE, STAR};
use crate::lines::{
    concat_lines, lemma_concat_lines_of, lines_of, push_all, split_lines, view_lines,
};

verus! {

/// `l` starts with the marker `m`.
pub open spec fn has_marker(l: Seq<u8>, m: u8) -> bool {
    l.len() > 0 && l[0] == m
}

/// The lines of `ls` that start with `m`, in order.
pub open spec fn marked_lines(ls: Seq<Seq<u8>>, m: u8) -> Seq<Seq<u8>>
    decreases ls.len(),
{
    if ls.len() == 0 {
        seq![]
    } else {
        let r = marked_lines(ls.drop_last(), m);
        if has_marker(ls.last(), m) {
            r.push(ls.last())
        } else {
            r
        }
    }
}

/// How many open tasks `ls` holds.
pub open spec fn task_count(ls: Seq<Seq<u8>>) -> nat {
    marked_lines(ls, DASH).len()
}

/// The decimal digits of `n`.
pub open spec fn decimal(n: nat) -> Seq<u8>
    decreases n,
{
    if n < 10 {
        seq![(ZERO + n) as u8]
    } else {
        decimal(n / 10).push((ZERO + n % 10) as u8)
    }
}

/// The text of an entry line: what follows its marker and one space.
pub open spec fn entry_text(l: Seq<u8>) -> Seq<u8> {
    if l.len() >= 2 && l[1] == SPACE {
        l.skip(2)
    } else {
        l.skip(1)
    }
}

/// `<index>: <text>` for a task line.
pub open spec fn task_row(index: nat, l: Seq<u8>) -> Seq<u8> {
    decimal(index) + seq![COLON, SPACE] + entry_text(l)
}

/// The open tasks of `ls`, each numbered by how many open tasks come before
/// it.
pub open spec fn task_rows(ls: Seq<Seq<u8>>) -> Seq<Seq<u8>>
    decreases ls.len(),
{
    if ls.len() == 0 {
        seq![]
    } else {
        let r = task_rows(ls.drop_last());
        if has_marker(ls.last(), DASH) {
            r.push(task_row(task_count(ls.drop_last()), ls.last()))
        } else {
            r
        }
    }
}

/// A task line marked done: its marker becomes `x`.
pub open spec fn mark_done(l: Seq<u8>) -> Seq<u8> {
    seq![DONE] + l.skip(1)
}

/// The lines `ls` with the open task numbered `n` marked done; the others
/// are kept as they are.
pub open spec fn complete_lines(ls: Seq<Seq<u8>>, n: nat) -> Seq<Seq<u8>>
    decreases ls.len(),
{
    if ls.len() == 0 {
        seq![]
    } else {
        let dl = ls.drop_last();
        let l = ls.last();
        complete_lines(dl, n).push(
            if has_marker(l, DASH) && task_count(dl) == n {
                mark_done(l)
            } else {
                l
            },
        )
    }
}

/// A copy of `s` from the byte `from` on.
fn copy_bytes(s: &[u8], from: usize) -> (r: Vec<u8>)
    requires
        from <= s@.len(),
    ensures
        r@ == s@.skip(from as int),
{
    let mut out: Vec<u8> = Vec::new();
    let mut i: usize = from;
    while i < s.len()
        invariant
            from <= i <= s@.len(),
            out@ == s@.subrange(from as int, i as int),
        decreases s@.len() - i,
    {
        out.push(s[i]);
        i = i + 1;
        assert(out@ =~= s@.subrange(from as int, i as int));
    }
    assert(s@.subrange(from as int, i as int) =~= s@.skip(from as int));
    out
}

/// Appends the decimal digits of `n` to `out`.
fn push_decimal(out: &mut Vec<u8>, n: u64)
    ensures
        final(out)@ == old(out)@ + decimal(n as nat),
    decreases n,
{
    if n >= 10 {
        push_decimal(out, n / 10);
    }
    out.push(ZERO + (n % 10) as u8);
    assert(final(out)@ =~= old(out)@ + decimal(n as nat));
}

/// The notes of the log `content`: every line that starts with `*`, as it
/// stands, terminator included.
pub fn list_notes(content: &[u8]) -> (r: Vec<Vec<u8>>)
    ensures
        view_lines(r@) == marked_lines(lines_of(content@), STAR),
{
    let lines = split_lines(content);
    let ghost ls = view_lines(lines@);
    let mut out: Vec<Vec<u8>> = Vec::new();
    let mut i: usize = 0;
    assert(ls.take(0) =~= seq![]);
    assert(view_lines(out@) =~= seq![]);
    while i < lines.len()
        invariant
            i <= lines@.len(),
            ls == view_lines(lines@),
            view_lines(out@) == marked_lines(ls.take(i as int), STAR),
        decreases lines@.len() - i,
    {
        let l = lines[i].as_slice();
        assert(ls.take(i + 1).drop_last() =~= ls.take(i as int));
        assert(ls.take(i + 1).last() == l@);
        if l.len() > 0 && l[0] == STAR {
            let ghost before = view_lines(out@);
            out.push(copy_bytes(l, 0));
            assert(l@.skip(0) =~= l@);
            assert(view_lines(out@) =~= before.push(l@));
        }
        i = i + 1;
    }
    assert(ls.take(i as int) =~= ls);
    out
}

/// The open tasks of the log `content`: for every line that starts with `-`,
/// `<index>: <text>`, where the index counts the open tasks above it.
pub fn list_tasks(content: &[u8]) -> (r: Vec<Vec<u8>>)
    ensures
        view_lines(r@) == task_rows(lines_of(content@)),
{
    let lines = split_lines(content);
    let ghost ls = view_lines(lines@);
    let mut out: Vec<Vec<u8>> = Vec::new();
    let mut i: usize = 0;
    assert(ls.take(0) =~= seq![]);
    assert(view_lines(out@) =~= seq![]);
    while i < lines.len()
        invariant
            i <= lines@.len(),
            ls == view_lines(lines@),
            view_lines(out@) == task_rows(ls.take(i as int)),
            out@.len() == task_count(ls.take(i as int)),
            out@.len() <= i,
        decreases lines@.len() - i,
    {
        let l = lines[i].as_slice();
        assert(ls.take(i + 1).drop_last() =~= ls.take(i as int));
        assert(ls.take(i + 1).last() == l@);
        if l.len() > 0 && l[0] == DASH {
            let ghost before = view_lines(out@);
            let mut row: Vec<u8> = Vec::new();
            push_decimal(&mut row, out.len() as u64);
            row.push(COLON);
            row.push(SPACE);
            let from: usize = if l.len() >= 2 && l[1] == SPACE {
                2
            } else {
                1
            };
            let text = copy_bytes(l, from);
            push_all(&mut row, text.as_slice());
            assert(row@ =~= task_row(before.len() as nat, l@));
            out.push(row);
            assert(view_lines(out@) =~= before.push(task_row(before.len() as nat, l@)));
        }
        i = i + 1;
    }
    assert(ls.take(i as int) =~= ls);
    out
}

/// The log `content` with the open task numbered `task_number` marked done.
/// Every other line is kept as it is; where there is no such task, nothing
/// changes.
pub fn complete_task(content: &[u8], task_number: u64) -> (r: Vec<u8>)
    ensures
        r@ == concat_lines(complete_lines(lines_of(content@), task_number as nat)),
        task_number >= task_count(lines_of(content@)) ==> r@ == content@,
{
    let lines = split_lines(content);
    let ghost ls = view_lines(lines@);
    let mut out: Vec<u8> = Vec::new();
    let mut seen: usize = 0;
    let mut i: usize = 0;
    assert(ls.take(0) =~= seq![]);
    assert(out@ =~= seq![]);
    while i < lines.len()
        invariant
            i <= lines@.len(),
            ls == view_lines(lines@),
            out@ == concat_lines(complete_lines(ls.take(i as int), task_number as nat)),
            seen == task_count(ls.take(i as int)),
            seen <= i,
        decreases lines@.len() - i,
    {
        let l = lines[i].as_slice();
        assert(ls.take(i + 1).drop_last() =~= ls.take(i as int));
        assert(ls.take(i + 1).last() == l@);
        let ghost before = out@;
        if l.len() > 0 && l[0] == DASH {
            if seen as u64 == task_number {
                out.push(DONE);
                let rest = copy_bytes(l, 1);
                push_all(&mut out, rest.as_slice());
                assert(out@ =~= before + mark_done(l@));
            } else {
                push_all(&mut out, l);
            }
            seen = seen + 1;
        } else {
            push_all(&mut out, l);
        }
        i = i + 1;
        assert(complete_lines(ls.take(i as int), task_number as nat).drop_last() == complete_lines(
            ls.take(i - 1),
            task_number as nat,
        ));
    }
    assert(ls.take(i as int) =~= ls);
    proof {
        if task_number >= task_count(ls) {
            lemma_complete_missing(ls, task_number as nat);
            lemma_concat_lines_of(content@);
        }
    }
    out
}

/// Completing a task number that no open task has changes no line.
pub proof fn lemma_complete_missing(ls: Seq<Seq<u8>>, n: nat)
    requires
        n >= task_count(ls),
    ensures
        complete_lines(ls, n) == ls,
    decreases ls.len(),
{
    if ls.len() > 0 {
        let dl = ls.drop_last();
        lemma_complete_missing(dl, n);
        assert(ls =~= dl.push(ls.last()));
    } else {
        assert(complete_lines(ls, n) =~= ls);
    }
}

} // verus!
