use vstd::prelude::*;

use crate::date::{
    has_iso_shape, is_digit, iso_day, iso_month, iso_text, iso_year, parse_iso, push_iso, Date,
    DASH, HASH, SPACE, ZERO,
};
use crate::error::LogError;
use crate::lines::{CR, NL};
use vstd::string::StringSliceAdditionalSpecFns;

verus! {

/// `l` without its line terminator (`\n` or `\r\n`).
pub open spec fn line_body(l: Seq<u8>) -> Seq<u8> {
    if l.len() >= 2 && l[l.len() - 2] == CR && l.last() == NL {
        l.take(l.len() - 2)
    } else if l.len() >= 1 && l.last() == NL {
        l.drop_last()
    } else {
        l
    }
}

/// `## `, which opens a section header.
pub open spec fn header_prefix() -> Seq<u8> {
    seq![HASH, HASH, SPACE]
}

/// The date that the header line `l` names, if `l` is exactly `## YYYY-MM-DD`.
pub open spec fn header_date(l: Seq<u8>) -> Option<Date> {
    let b = line_body(l);
    if b.len() == 13 && b.take(3) == header_prefix() {
        parse_iso(b.skip(3))
    } else {
        None
    }
}

/// The header line of `d` and the blank line after it.
pub open spec fn header_block(d: Date) -> Seq<u8> {
    header_prefix() + iso_text(d) + seq![NL, NL]
}

/// The date that `s[start..start + 10]` names as ISO text.
fn parse_iso_at(s: &[u8], start: usize) -> (r: Option<Date>)
    requires
        start + 10 <= s@.len(),
    ensures
        r == parse_iso(s@.subrange(start as int, start + 10)),
        r matches Some(d) ==> d.wf(),
{
    let ghost t = s@.subrange(start as int, start + 10);
    assert(start + 10 <= s.len());
    let mut i: usize = 0;
    while i < 10
        invariant
            i <= 10,
            start + 10 <= s.len(),
            t == s@.subrange(start as int, start + 10),
            forall|j: int| 0 <= j < i && j != 4 && j != 7 ==> is_digit(#[trigger] t[j]),
        decreases 10 - i,
    {
        if i != 4 && i != 7 {
            let b = s[start + i];
            if !(ZERO <= b && b <= ZERO + 9) {
                assert(!has_iso_shape(t));
                return None;
            }
        }
        i = i + 1;
    }
    if s[start + 4] != DASH || s[start + 7] != DASH {
        return None;
    }
    assert(has_iso_shape(t));
    let year = 1000 * (s[start] - ZERO) as u32 + 100 * (s[start + 1] - ZERO) as u32 + 10 * (s[start
        + 2] - ZERO) as u32 + (s[start + 3] - ZERO) as u32;
    let month = 10 * (s[start + 5] - ZERO) as u32 + (s[start + 6] - ZERO) as u32;
    let day = 10 * (s[start + 8] - ZERO) as u32 + (s[start + 9] - ZERO) as u32;
    assert(year == iso_year(t) && month == iso_month(t) && day == iso_day(t));
    Date::new(year, month, day)
}

/// Reads an ISO `YYYY-MM-DD` date.
pub fn parse_date(s: &str) -> (r: Result<Date, LogError>)
    ensures
        r == match parse_iso(s.spec_bytes()) {
            Some(d) => Ok(d),
            None => Err(LogError::InvalidDate),
        },
        r matches Ok(d) ==> d.wf(),
{
    let b = s.as_bytes();
    if b.len() != 10 {
        return Err(LogError::InvalidDate);
    }
    assert(b@.subrange(0, 10) =~= b@);
    match parse_iso_at(b, 0) {
        Some(d) => Ok(d),
        None => Err(LogError::InvalidDate),
    }
}

/// The date that the header line `l` names.
pub fn header_of_line(l: &[u8]) -> (r: Option<Date>)
    ensures
        r == header_date(l@),
        r matches Some(d) ==> d.wf(),
{
    let n = l.len();
    let body_len: usize = if n >= 2 && l[n - 2] == CR && l[n - 1] == NL {
        n - 2
    } else if n >= 1 && l[n - 1] == NL {
        n - 1
    } else {
        n
    };
    let ghost b = line_body(l@);
    assert(b =~= l@.take(body_len as int));
    if body_len != 13 || l[0] != HASH || l[1] != HASH || l[2] != SPACE {
        assert(b.len() != 13 || b.take(3) != header_prefix());
        return None;
    }
    assert(b.take(3) =~= header_prefix());
    assert(b.skip(3) =~= l@.subrange(3, 13));
    parse_iso_at(l, 3)
}

/// Reads the date of a `## YYYY-MM-DD` header line.
pub fn get_date_from_header(line: &str) -> (r: Result<Date, LogError>)
    ensures
        r == match header_date(line.spec_bytes()) {
            Some(d) => Ok(d),
            None => Err(LogError::MalformedHeader),
        },
{
    match header_of_line(line.as_bytes()) {
        Some(d) => Ok(d),
        None => Err(LogError::MalformedHeader),
    }
}

/// The date to write under: the explicit one if given, else the override if
/// given, else today.
pub fn get_date(explicit: Option<&str>, env_date: Option<&str>, today: Date) -> (r: Result<
    Date,
    LogError,
>)
    ensures
        r == match explicit {
            Some(s) => match parse_iso(s.spec_bytes()) {
                Some(d) => Ok(d),
                None => Err(LogError::InvalidDate),
            },
            None => match env_date {
                Some(s) => match parse_iso(s.spec_bytes()) {
                    Some(d) => Ok(d),
                    None => Err(LogError::InvalidDate),
                },
                None => Ok(today),
            },
        },
{
    match explicit {
        Some(s) => parse_date(s),
        None => match env_date {
            Some(s) => parse_date(s),
            None => Ok(today),
        },
    }
}

/// Appends the header line of `d` and the blank line after it to `out`.
pub fn push_header_block(out: &mut Vec<u8>, d: Date)
    requires
        d.wf(),
    ensures
        final(out)@ == old(out)@ + header_block(d),
{
    out.push(HASH);
    out.push(HASH);
    out.push(SPACE);
    push_iso(out, d);
    out.push(NL);
    out.push(NL);
    assert(final(out)@ =~= old(out)@ + header_block(d));
}

/// A header block starts with a header line of its date.
pub proof fn lemma_header_block_line(d: Date)
    requires
        d.wf(),
    ensures
        header_date(header_prefix() + iso_text(d) + seq![NL]) == Some(d),
{
    let l = header_prefix() + iso_text(d) + seq![NL];
    assert(line_body(l) =~= header_prefix() + iso_text(d));
    assert(line_body(l).take(3) =~= header_prefix());
    assert(line_body(l).skip(3) =~= iso_text(d));
    crate::date::lemma_iso_round_trip(d);
}

} // verus!
