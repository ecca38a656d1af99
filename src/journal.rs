use vstd::prelude::*;

use crate::date::{Date, DASH, SPACE};
use crate::error::{LogError, UnsupportedError};
use crate::header::{header_block, header_date, header_of_line, line_body, push_header_block};
use crate::lines::{concat_lines, lines_of, push_all, split_lines, view_lines, CR, NL};
use vstd::string::StringSliceAdditionalSpecFns;

verus! {

/// The marker of a note.
pub const STAR: u8 = 42;

/// The marker of a completed task.
pub const DONE: u8 = 120;

/// The byte `:`.
pub const COLON: u8 = 58;

/// The markers that a new entry can carry: a note or an open task.
pub open spec fn is_entry_marker(m: u8) -> bool {
    m == STAR || m == DASH
}

/// The line `<marker> <text>` of a new entry.
pub open spec fn entry_line(m: u8, t: Seq<u8>) -> Seq<u8> {
    seq![m, SPACE] + t + seq![NL]
}

/// `l` holds nothing but its terminator.
pub open spec fn is_blank(l: Seq<u8>) -> bool {
    line_body(l).len() == 0
}

/// How many lines the header block of a section spans: the header line, and
/// the blank line right after it where there is one.
pub open spec fn header_block_len(ls: Seq<Seq<u8>>) -> int {
    if ls.len() > 1 && is_blank(ls[1]) {
        2
    } else {
        1
    }
}

/// `t`, with a line feed added where it does not end with one.
pub open spec fn terminate(t: Seq<u8>) -> Seq<u8> {
    if t.len() > 0 && t.last() == NL {
        t
    } else {
        t.push(NL)
    }
}

/// The lines `ls` of a section with the entry line `e` put at its top, right
/// after the header block; every other line is kept as it was.
pub open spec fn insert_after_header(ls: Seq<Seq<u8>>, e: Seq<u8>) -> Seq<u8> {
    let k = header_block_len(ls);
    terminate(concat_lines(ls.take(k))) + e + concat_lines(ls.skip(k))
}

/// The log `c` after an entry with marker `m` and text `t` is added under
/// the date `d`:
/// an empty log gets a section for `d`; a log whose newest section is older
/// gets a new section for `d` on top; a log whose newest section is `d` gets
/// the entry at the top of that section; a log with a newer section, or
/// whose first line is no header, is refused.
pub open spec fn add_result(c: Seq<u8>, m: u8, t: Seq<u8>, d: Date) -> Result<Seq<u8>, LogError> {
    let ls = lines_of(c);
    let e = entry_line(m, t);
    if ls.len() == 0 {
        Ok(header_block(d) + e + seq![NL])
    } else {
        match header_date(ls[0]) {
            None => Err(LogError::MalformedHeader),
            Some(latest) => if latest.spec_before(d) {
                Ok(header_block(d) + e + seq![NL] + c)
            } else if latest == d {
                Ok(insert_after_header(ls, e))
            } else {
                Err(LogError::OutOfOrderDate(UnsupportedError))
            },
        }
    }
}

/// `r` is what `add_result` gives.
pub open spec fn is_add_result(
    r: Result<Vec<u8>, LogError>,
    c: Seq<u8>,
    m: u8,
    t: Seq<u8>,
    d: Date,
) -> bool {
    match r {
        Ok(v) => add_result(c, m, t, d) == Ok::<Seq<u8>, LogError>(v@),
        Err(e) => add_result(c, m, t, d) == Err::<Seq<u8>, LogError>(e),
    }
}

/// Appends the lines `lines[from..to]` to `out`.
fn push_lines(out: &mut Vec<u8>, lines: &Vec<Vec<u8>>, from: usize, to: usize)
    requires
        from <= to <= lines@.len(),
    ensures
        final(out)@ == old(out)@ + concat_lines(view_lines(lines@).subrange(from as int, to as int)),
{
    let ghost ls = view_lines(lines@);
    let mut j: usize = from;
    assert(ls.subrange(from as int, from as int) =~= seq![]);
    assert(old(out)@ =~= old(out)@ + seq![]);
    while j < to
        invariant
            from <= j <= to <= lines@.len(),
            ls == view_lines(lines@),
            out@ == old(out)@ + concat_lines(ls.subrange(from as int, j as int)),
        decreases to - j,
    {
        push_all(out, lines[j].as_slice());
        assert(ls.subrange(from as int, j + 1).drop_last() =~= ls.subrange(from as int, j as int));
        assert(ls[j as int] == lines@[j as int]@);
        j = j + 1;
        assert(out@ =~= old(out)@ + concat_lines(ls.subrange(from as int, j as int)));
    }
}

/// Appends the entry line `<m> <t>` to `out`.
fn push_entry(out: &mut Vec<u8>, m: u8, t: &[u8])
    ensures
        final(out)@ == old(out)@ + entry_line(m, t@),
{
    out.push(m);
    out.push(SPACE);
    push_all(out, t);
    out.push(NL);
    assert(final(out)@ =~= old(out)@ + entry_line(m, t@));
}

/// `l` holds nothing but its terminator.
fn is_blank_line(l: &[u8]) -> (r: bool)
    ensures
        r == is_blank(l@),
{
    let n = l.len();
    n == 0 || (n == 1 && l[0] == NL) || (n == 2 && l[0] == CR && l[1] == NL)
}

/// The log `content` with the entry `<marker> <text>` added under `date`.
pub fn add_entry(content: &[u8], marker: u8, text: &[u8], date: Date) -> (r: Result<
    Vec<u8>,
    LogError,
>)
    requires
        date.wf(),
        is_entry_marker(marker),
    ensures
        is_add_result(r, content@, marker, text@, date),
{
    let lines = split_lines(content);
    let ghost ls = view_lines(lines@);
    if lines.len() == 0 {
        let mut out: Vec<u8> = Vec::new();
        push_header_block(&mut out, date);
        push_entry(&mut out, marker, text);
        out.push(NL);
        assert(out@ =~= header_block(date) + entry_line(marker, text@) + seq![NL]);
        return Ok(out);
    }
    assert(ls[0] == lines@[0]@);
    let latest = match header_of_line(lines[0].as_slice()) {
        Some(d) => d,
        None => return Err(LogError::MalformedHeader),
    };
    if latest.before(&date) {
        let mut out: Vec<u8> = Vec::new();
        push_header_block(&mut out, date);
        push_entry(&mut out, marker, text);
        out.push(NL);
        push_all(&mut out, content);
        assert(out@ =~= header_block(date) + entry_line(marker, text@) + seq![NL] + content@);
        Ok(out)
    } else if latest == date {
        let n = lines.len();
        let k: usize = if n > 1 && is_blank_line(lines[1].as_slice()) {
            2
        } else {
            1
        };
        proof {
            if n > 1 {
                assert(ls[1] == lines@[1]@);
            }
        }
        assert(k == header_block_len(ls));
        let mut out: Vec<u8> = Vec::new();
        push_lines(&mut out, &lines, 0, k);
        assert(ls.subrange(0, k as int) =~= ls.take(k as int));
        let ghost head = out@;
        if out.len() == 0 || out[out.len() - 1] != NL {
            out.push(NL);
        }
        assert(out@ == terminate(head));
        push_entry(&mut out, marker, text);
        push_lines(&mut out, &lines, k, n);
        assert(ls.subrange(k as int, n as int) =~= ls.skip(k as int));
        Ok(out)
    } else {
        Err(LogError::OutOfOrderDate(UnsupportedError))
    }
}

/// The log `content` with the note `note` added under `date`.
pub fn add_note(content: &[u8], note: &str, date: Date) -> (r: Result<Vec<u8>, LogError>)
    requires
        date.wf(),
    ensures
        is_add_result(r, content@, STAR, note.spec_bytes(), date),
{
    add_entry(content, STAR, note.as_bytes(), date)
}

/// The log `content` with the open task `note` added under `date`.
pub fn add_task(content: &[u8], note: &str, date: Date) -> (r: Result<Vec<u8>, LogError>)
    requires
        date.wf(),
    ensures
        is_add_result(r, content@, DASH, note.spec_bytes(), date),
{
    add_entry(content, DASH, note.as_bytes(), date)
}

/// The path of the log: the one the environment names, else `.BULLETLOG`
/// in the working directory.
pub fn get_logfile_path(env_path: Option<String>) -> (r: String)
    ensures
        r@ == match env_path {
            Some(p) => p@,
            None => ".BULLETLOG"@,
        },
{
    match env_path {
        Some(p) => p,
        None => ".BULLETLOG".to_owned(),
    }
}

} // verus!
