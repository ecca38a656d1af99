use vstd::prelude::*;

use crate::date::{iso_text, lemma_before_transitive, Date, DASH};
use crate::header::{header_block, header_date, header_prefix, lemma_header_block_line, line_body};
use crate::journal::{
    add_result, entry_line, header_block_len, insert_after_header, is_blank, is_entry_marker,
    terminate, STAR,
};
use crate::lines::{
    are_lines, concat_lines, is_line, is_terminated, lemma_concat_append, lemma_concat_last,
    lemma_concat_lines_of, lemma_concat_one, lemma_lines_append, lemma_lines_are_lines,
    lemma_lines_concat, lemma_lines_one, lines_of, NL,
};
use crate::listing::{
    complete_lines, has_marker, lemma_complete_missing, mark_done, marked_lines, task_count,
};

verus! {

/// `t` holds no line feed, so that an entry of it is one line.
pub open spec fn one_line_text(t: Seq<u8>) -> bool {
    forall|i: int| 0 <= i < t.len() ==> t[i] != NL
}

/// The dates of the section headers among the lines `ls`, top to bottom.
pub open spec fn section_dates(ls: Seq<Seq<u8>>) -> Seq<Date>
    decreases ls.len(),
{
    if ls.len() == 0 {
        seq![]
    } else {
        let r = section_dates(ls.drop_last());
        match header_date(ls.last()) {
            Some(d) => r.push(d),
            None => r,
        }
    }
}

/// The section headers of the log `c` name strictly earlier days from the top
/// of the file down.
pub open spec fn sections_newest_first(c: Seq<u8>) -> bool {
    let hs = section_dates(lines_of(c));
    forall|i: int, j: int| 0 <= i < j < hs.len() ==> #[trigger] hs[j].spec_before(#[trigger] hs[i])
}

/// The header line of `d`.
pub open spec fn header_line(d: Date) -> Seq<u8> {
    header_prefix() + iso_text(d) + seq![NL]
}

proof fn lemma_dates_append(a: Seq<Seq<u8>>, b: Seq<Seq<u8>>)
    ensures
        section_dates(a + b) == section_dates(a) + section_dates(b),
    decreases b.len(),
{
    if b.len() == 0 {
        assert(a + b =~= a);
        assert(section_dates(b) =~= seq![]);
        assert(section_dates(a) + section_dates(b) =~= section_dates(a));
    } else {
        assert((a + b).drop_last() =~= a + b.drop_last());
        lemma_dates_append(a, b.drop_last());
        assert(section_dates(a + b) =~= section_dates(a) + section_dates(b));
    }
}

proof fn lemma_marked_append(a: Seq<Seq<u8>>, b: Seq<Seq<u8>>, m: u8)
    ensures
        marked_lines(a + b, m) == marked_lines(a, m) + marked_lines(b, m),
    decreases b.len(),
{
    if b.len() == 0 {
        assert(a + b =~= a);
        assert(marked_lines(b, m) =~= seq![]);
        assert(marked_lines(a, m) + marked_lines(b, m) =~= marked_lines(a, m));
    } else {
        assert((a + b).drop_last() =~= a + b.drop_last());
        lemma_marked_append(a, b.drop_last(), m);
        assert(marked_lines(a + b, m) =~= marked_lines(a, m) + marked_lines(b, m));
    }
}

proof fn lemma_dates_one(l: Seq<u8>)
    ensures
        section_dates(seq![l]) == match header_date(l) {
            Some(d) => seq![d],
            None => Seq::<Date>::empty(),
        },
{
    assert(seq![l].drop_last() =~= seq![]);
    assert(section_dates(Seq::<Seq<u8>>::empty()) =~= seq![]);
    assert(Seq::<Date>::empty().push(header_date(l)->0) =~= seq![header_date(l)->0]);
}

proof fn lemma_marked_one(l: Seq<u8>, m: u8)
    ensures
        marked_lines(seq![l], m) == if has_marker(l, m) {
            seq![l]
        } else {
            Seq::<Seq<u8>>::empty()
        },
{
    assert(seq![l].drop_last() =~= seq![]);
    assert(marked_lines(Seq::<Seq<u8>>::empty(), m) =~= seq![]);
    assert(Seq::<Seq<u8>>::empty().push(l) =~= seq![l]);
}

/// What an entry line of a one-line text is.
proof fn lemma_entry_line(m: u8, t: Seq<u8>)
    requires
        is_entry_marker(m),
        one_line_text(t),
    ensures
        is_line(entry_line(m, t)),
        is_terminated(entry_line(m, t)),
        header_date(entry_line(m, t)) is None,
        !is_blank(entry_line(m, t)),
        has_marker(entry_line(m, t), m),
        !has_marker(entry_line(m, t), if m == STAR { DASH } else { STAR }),
{
    let e = entry_line(m, t);
    assert forall|i: int| 0 <= i < e.len() - 1 implies e[i] != NL by {
        if i >= 2 {
            assert(e[i] == t[i - 2]);
        }
    }
    let b = line_body(e);
    assert(b.len() > 0 && b[0] == m);
    if b.len() == 13 {
        assert(b.take(3)[0] != header_prefix()[0]);
    }
}

/// The lines of a header block followed by more text.
proof fn lemma_header_block_lines(d: Date, rest: Seq<u8>)
    requires
        d.wf(),
    ensures
        lines_of(header_block(d) + rest) == seq![header_line(d), seq![NL]] + lines_of(rest),
        header_date(header_line(d)) == Some(d),
        header_date(seq![NL]) is None,
        is_blank(seq![NL]),
        !has_marker(header_line(d), STAR),
        !has_marker(header_line(d), DASH),
        !has_marker(seq![NL], STAR),
        !has_marker(seq![NL], DASH),
{
    let hl = header_line(d);
    let nl: Seq<u8> = seq![NL];
    lemma_header_block_line(d);
    assert forall|i: int| 0 <= i < hl.len() - 1 implies hl[i] != NL by {
        if i >= 3 {
            assert(hl[i] == iso_text(d)[i - 3]);
        }
    }
    assert(is_line(hl));
    assert(is_line(nl));
    lemma_lines_one(hl);
    lemma_lines_one(nl);
    assert(header_block(d) + rest =~= hl + (nl + rest));
    lemma_lines_append(hl, nl + rest);
    lemma_lines_append(nl, rest);
    assert(line_body(nl) =~= seq![]);
    assert(seq![hl] + (seq![nl] + lines_of(rest)) =~= seq![hl, nl] + lines_of(rest));
}

/// The lines of a new section holding one entry.
proof fn lemma_section_lines(d: Date, m: u8, t: Seq<u8>, rest: Seq<u8>)
    requires
        d.wf(),
        is_entry_marker(m),
        one_line_text(t),
    ensures
        lines_of(header_block(d) + entry_line(m, t) + seq![NL] + rest) == seq![
            header_line(d),
            seq![NL],
            entry_line(m, t),
            seq![NL],
        ] + lines_of(rest),
{
    let e = entry_line(m, t);
    let nl: Seq<u8> = seq![NL];
    lemma_entry_line(m, t);
    assert(header_block(d) + e + nl + rest =~= header_block(d) + (e + (nl + rest)));
    lemma_header_block_lines(d, e + (nl + rest));
    lemma_lines_append(e, nl + rest);
    lemma_lines_one(e);
    assert(is_line(nl));
    lemma_lines_one(nl);
    lemma_lines_append(nl, rest);
    assert(seq![header_line(d), nl] + (seq![e] + (seq![nl] + lines_of(rest))) =~= seq![
        header_line(d),
        nl,
        e,
        nl,
    ] + lines_of(rest));
}

/// The lines of a section's header block, as they stand after an entry is
/// put below it: a header line that ended the file gets its line feed.
pub open spec fn head_lines(ls: Seq<Seq<u8>>) -> Seq<Seq<u8>> {
    let k = header_block_len(ls);
    if is_terminated(ls[k - 1]) {
        ls.take(k)
    } else {
        seq![ls[0].push(NL)]
    }
}

proof fn lemma_insert_lines(ls: Seq<Seq<u8>>, e: Seq<u8>)
    requires
        are_lines(ls),
        ls.len() > 0,
        header_date(ls[0]) is Some,
        is_line(e),
        is_terminated(e),
    ensures
        ({
            let k = header_block_len(ls);
            let hd = head_lines(ls);
            &&& lines_of(insert_after_header(ls, e)) == hd + seq![e] + ls.skip(k)
            &&& hd.len() == k
            &&& concat_lines(hd) == terminate(concat_lines(ls.take(k)))
            &&& is_terminated(concat_lines(hd))
            &&& header_date(hd[0]) == header_date(ls[0])
            &&& section_dates(hd) == section_dates(ls.take(k))
            &&& (k == 2 ==> hd[1] == ls[1])
            &&& are_lines(hd)
        }),
{
    let k = header_block_len(ls);
    let hd = head_lines(ls);
    let sk = ls.skip(k);
    assert(are_lines(sk)) by {
        assert forall|i: int| 0 <= i < sk.len() implies is_line(#[trigger] sk[i]) by {
            assert(sk[i] == ls[i + k]);
        }
        assert forall|i: int| 0 <= i < sk.len() - 1 implies is_terminated(#[trigger] sk[i]) by {
            assert(sk[i] == ls[i + k]);
        }
    }
    lemma_lines_concat(sk);
    lemma_lines_one(e);
    lemma_lines_append(e, concat_lines(sk));
    if is_terminated(ls[k - 1]) {
        let tk = ls.take(k);
        assert(are_lines(tk)) by {
            assert forall|i: int| 0 <= i < tk.len() implies is_line(#[trigger] tk[i]) by {
                assert(tk[i] == ls[i]);
            }
            assert forall|i: int| 0 <= i < tk.len() - 1 implies is_terminated(#[trigger] tk[i]) by {
                assert(tk[i] == ls[i]);
            }
        }
        lemma_concat_last(tk);
        lemma_lines_concat(tk);
        let t = concat_lines(tk);
        assert(terminate(t) == t);
        assert(insert_after_header(ls, e) =~= t + (e + concat_lines(sk)));
        lemma_lines_append(t, e + concat_lines(sk));
        assert(tk + (seq![e] + sk) =~= hd + seq![e] + sk);
    } else {
        if k == 2 {
            assert(is_line(ls[1]));
            assert(false);
        }
        assert(ls.len() == 1);
        let l0 = ls[0];
        assert(ls.take(1) =~= seq![l0]);
        lemma_concat_one(l0);
        let t = l0.push(NL);
        lemma_concat_one(t);
        assert(is_line(t)) by {
            assert forall|i: int| 0 <= i < t.len() - 1 implies t[i] != NL by {
                assert(t[i] == l0[i]);
            }
        }
        lemma_lines_one(t);
        assert(sk =~= seq![]);
        assert(concat_lines(sk) =~= seq![]);
        assert(insert_after_header(ls, e) =~= t + (e + concat_lines(sk)));
        lemma_lines_append(t, e + concat_lines(sk));
        assert(lines_of(concat_lines(sk)) =~= seq![]);
        assert(seq![t] + (seq![e] + seq![]) =~= hd + seq![e] + sk);
        assert(line_body(t) =~= l0);
        assert(line_body(l0) == l0);
        lemma_dates_one(t);
        lemma_dates_one(l0);
        assert(are_lines(hd));
    }
}

/// Adding an entry keeps the sections of a log newest first.
pub proof fn lemma_add_keeps_sections_newest_first(c: Seq<u8>, m: u8, t: Seq<u8>, d: Date)
    requires
        sections_newest_first(c),
        is_entry_marker(m),
        one_line_text(t),
        d.wf(),
        add_result(c, m, t, d) is Ok,
    ensures
        sections_newest_first(add_result(c, m, t, d)->Ok_0),
{
    let ls = lines_of(c);
    let e = entry_line(m, t);
    let c2 = add_result(c, m, t, d)->Ok_0;
    let nl: Seq<u8> = seq![NL];
    lemma_entry_line(m, t);
    lemma_lines_are_lines(c);
    let four = seq![header_line(d), nl, e, nl];
    if ls.len() > 0 {
        let latest = header_date(ls[0])->Some_0;
        if latest.spec_before(d) {
            lemma_section_lines(d, m, t, c);
        } else {
            assert(latest == d);
            lemma_insert_lines(ls, e);
        }
    } else {
        lemma_section_lines(d, m, t, seq![]);
        assert(c2 =~= header_block(d) + e + nl + seq![]);
    }
    // The dates of the four lines of a new section.
    lemma_header_block_lines(d, seq![]);
    assert(four =~= seq![header_line(d)] + seq![nl] + seq![e] + seq![nl]);
    lemma_dates_append(seq![header_line(d)] + seq![nl] + seq![e], seq![nl]);
    lemma_dates_append(seq![header_line(d)] + seq![nl], seq![e]);
    lemma_dates_append(seq![header_line(d)], seq![nl]);
    lemma_dates_one(header_line(d));
    lemma_dates_one(nl);
    lemma_dates_one(e);
    assert(section_dates(four) =~= seq![d]);
    let hs = section_dates(ls);
    let hs2 = section_dates(lines_of(c2));
    if ls.len() == 0 {
        assert(lines_of(seq![]) =~= Seq::<Seq<u8>>::empty());
        assert(four + Seq::<Seq<u8>>::empty() =~= four);
    } else {
        let latest = header_date(ls[0])->Some_0;
        if latest.spec_before(d) {
            lemma_dates_append(four, ls);
            assert(ls =~= seq![ls[0]] + ls.skip(1));
            lemma_dates_append(seq![ls[0]], ls.skip(1));
            lemma_dates_one(ls[0]);
            assert(hs[0] == latest);
            assert(hs2 == seq![d] + hs);
            assert forall|i: int, j: int| 0 <= i < j < hs2.len() implies #[trigger] hs2[j].spec_before(
                #[trigger] hs2[i],
            ) by {
                if i == 0 {
                    if j > 1 {
                        assert(hs[j - 1].spec_before(hs[0]));
                        lemma_before_transitive(hs[j - 1], latest, d);
                    }
                } else {
                    assert(hs2[i] == hs[i - 1] && hs2[j] == hs[j - 1]);
                }
            }
        } else {
            let k = header_block_len(ls);
            let hd = head_lines(ls);
            lemma_dates_append(hd + seq![e], ls.skip(k));
            lemma_dates_append(hd, seq![e]);
            lemma_dates_append(ls.take(k), ls.skip(k));
            assert(ls.take(k) + ls.skip(k) =~= ls);
            assert(section_dates(seq![e]) =~= seq![]);
            assert(section_dates(hd) + Seq::<Date>::empty() =~= section_dates(hd));
            assert(hs2 == hs);
        }
    }
}

/// What a run of additions leaves: each one that is refused leaves the log
/// as it was.
pub open spec fn add_all(c: Seq<u8>, es: Seq<(u8, Seq<u8>, Date)>) -> Seq<u8>
    decreases es.len(),
{
    if es.len() == 0 {
        c
    } else {
        let prev = add_all(c, es.drop_last());
        let (m, t, d) = es.last();
        match add_result(prev, m, t, d) {
            Ok(next) => next,
            Err(_) => prev,
        }
    }
}

/// Any run of additions to an empty log, of one-line notes or tasks under
/// well-formed dates, leaves its sections newest first.
pub proof fn lemma_adds_keep_sections_newest_first(es: Seq<(u8, Seq<u8>, Date)>)
    requires
        forall|i: int|
            0 <= i < es.len() ==> {
                let (m, t, d) = #[trigger] es[i];
                is_entry_marker(m) && one_line_text(t) && d.wf()
            },
    ensures
        sections_newest_first(add_all(seq![], es)),
    decreases es.len(),
{
    if es.len() == 0 {
        assert(lines_of(seq![]) =~= Seq::<Seq<u8>>::empty());
        assert(section_dates(Seq::<Seq<u8>>::empty()) =~= seq![]);
    } else {
        let dl = es.drop_last();
        assert forall|i: int| 0 <= i < dl.len() implies {
            let (m, t, d) = #[trigger] dl[i];
            is_entry_marker(m) && one_line_text(t) && d.wf()
        } by {
            assert(dl[i] == es[i]);
        }
        lemma_adds_keep_sections_newest_first(dl);
        let prev = add_all(seq![], dl);
        let (m, t, d) = es.last();
        assert(es.last() == es[es.len() - 1]);
        if add_result(prev, m, t, d) is Ok {
            lemma_add_keeps_sections_newest_first(prev, m, t, d);
        }
    }
}

/// A note added to an empty log, under any date, is all that listing the
/// notes gives: the one line `* <text>`.
pub proof fn lemma_note_round_trip(t: Seq<u8>, d: Date)
    requires
        one_line_text(t),
        d.wf(),
    ensures
        add_result(seq![], STAR, t, d) is Ok,
        marked_lines(lines_of(add_result(seq![], STAR, t, d)->Ok_0), STAR) == seq![
            entry_line(STAR, t),
        ],
{
    let e = entry_line(STAR, t);
    let nl: Seq<u8> = seq![NL];
    let hl = header_line(d);
    assert(lines_of(seq![]) =~= Seq::<Seq<u8>>::empty());
    let c = add_result(seq![], STAR, t, d)->Ok_0;
    lemma_section_lines(d, STAR, t, seq![]);
    assert(c =~= header_block(d) + e + nl + seq![]);
    assert(lines_of(c) =~= seq![hl] + seq![nl] + seq![e] + seq![nl]);
    lemma_header_block_lines(d, seq![]);
    lemma_entry_line(STAR, t);
    lemma_marked_append(seq![hl] + seq![nl] + seq![e], seq![nl], STAR);
    lemma_marked_append(seq![hl] + seq![nl], seq![e], STAR);
    lemma_marked_append(seq![hl], seq![nl], STAR);
    lemma_marked_one(hl, STAR);
    lemma_marked_one(nl, STAR);
    lemma_marked_one(e, STAR);
    assert(marked_lines(lines_of(c), STAR) =~= seq![e]);
}

proof fn lemma_concat_two(x: Seq<u8>, y: Seq<u8>, rest: Seq<Seq<u8>>)
    ensures
        concat_lines(seq![x, y] + rest) == x + y + concat_lines(rest),
{
    lemma_concat_append(seq![x, y], rest);
    lemma_concat_append(seq![x], seq![y]);
    assert(seq![x] + seq![y] =~= seq![x, y]);
    lemma_concat_one(x);
    lemma_concat_one(y);
}

/// Two entries added under the same date: the second is accepted, and it
/// stands right above the first.
pub proof fn lemma_same_day_newest_on_top(
    c: Seq<u8>,
    m1: u8,
    a: Seq<u8>,
    m2: u8,
    b: Seq<u8>,
    d: Date,
)
    requires
        is_entry_marker(m1),
        is_entry_marker(m2),
        one_line_text(a),
        one_line_text(b),
        d.wf(),
        add_result(c, m1, a, d) is Ok,
    ensures
        add_result(add_result(c, m1, a, d)->Ok_0, m2, b, d) is Ok,
        exists|p: Seq<u8>, q: Seq<u8>|
            add_result(add_result(c, m1, a, d)->Ok_0, m2, b, d)->Ok_0 == p + entry_line(m2, b)
                + entry_line(m1, a) + q,
{
    let ls = lines_of(c);
    let ea = entry_line(m1, a);
    let eb = entry_line(m2, b);
    let nl: Seq<u8> = seq![NL];
    let hl = header_line(d);
    let c1 = add_result(c, m1, a, d)->Ok_0;
    let ls1 = lines_of(c1);
    lemma_entry_line(m1, a);
    lemma_entry_line(m2, b);
    lemma_lines_are_lines(c);
    lemma_header_block_lines(d, seq![]);
    if ls.len() == 0 || header_date(ls[0])->Some_0.spec_before(d) {
        let rest = if ls.len() == 0 {
            Seq::<u8>::empty()
        } else {
            c
        };
        lemma_section_lines(d, m1, a, rest);
        if ls.len() == 0 {
            assert(c1 =~= header_block(d) + ea + nl + rest);
        }
        assert(ls1 == seq![hl, nl, ea, nl] + lines_of(rest));
        assert(ls1[0] == hl && ls1[1] == nl);
        assert(header_block_len(ls1) == 2);
        let c2 = add_result(c1, m2, b, d)->Ok_0;
        assert(ls1.take(2) =~= seq![hl, nl] + Seq::<Seq<u8>>::empty());
        assert(ls1.skip(2) =~= seq![ea, nl] + lines_of(rest));
        lemma_concat_two(hl, nl, Seq::<Seq<u8>>::empty());
        assert(concat_lines(Seq::<Seq<u8>>::empty()) =~= seq![]);
        lemma_concat_two(ea, nl, lines_of(rest));
        lemma_concat_lines_of(rest);
        assert(hl + nl + seq![] =~= header_block(d));
        assert(c2 == header_block(d) + eb + (ea + nl + rest));
        assert(c2 =~= header_block(d) + eb + ea + (nl + rest));
    } else {
        let k = header_block_len(ls);
        let hd = head_lines(ls);
        lemma_insert_lines(ls, ea);
        assert(ls1 == hd + seq![ea] + ls.skip(k));
        assert(ls1[0] == hd[0]);
        if k == 2 {
            assert(ls1[1] == hd[1]);
        } else {
            assert(ls1[1] == ea);
        }
        assert(header_block_len(ls1) == k);
        assert(ls1.take(k) =~= hd);
        assert(ls1.skip(k) =~= seq![ea] + ls.skip(k));
        let c2 = add_result(c1, m2, b, d)->Ok_0;
        lemma_concat_append(seq![ea], ls.skip(k));
        lemma_concat_one(ea);
        assert(c2 =~= concat_lines(hd) + eb + ea + concat_lines(ls.skip(k)));
    }
}

proof fn lemma_complete_lines_shape(ls: Seq<Seq<u8>>, n: nat)
    ensures
        complete_lines(ls, n).len() == ls.len(),
        forall|i: int|
            0 <= i < ls.len() ==> #[trigger] complete_lines(ls, n)[i] == ls[i] || (complete_lines(
                ls,
                n,
            )[i] == mark_done(ls[i]) && has_marker(ls[i], DASH)),
    decreases ls.len(),
{
    if ls.len() > 0 {
        let dl = ls.drop_last();
        lemma_complete_lines_shape(dl, n);
        assert forall|i: int| 0 <= i < ls.len() implies #[trigger] complete_lines(ls, n)[i] == ls[i]
            || (complete_lines(ls, n)[i] == mark_done(ls[i]) && has_marker(ls[i], DASH)) by {
            if i < dl.len() {
                assert(complete_lines(ls, n)[i] == complete_lines(dl, n)[i]);
                assert(dl[i] == ls[i]);
            }
        }
    }
}

proof fn lemma_complete_are_lines(ls: Seq<Seq<u8>>, n: nat)
    requires
        are_lines(ls),
    ensures
        are_lines(complete_lines(ls, n)),
{
    let r = complete_lines(ls, n);
    lemma_complete_lines_shape(ls, n);
    assert forall|i: int| 0 <= i < r.len() implies is_line(#[trigger] r[i]) && (i < r.len() - 1
        ==> is_terminated(r[i])) by {
        assert(is_line(ls[i]));
        if r[i] != ls[i] {
            let l = ls[i];
            assert forall|j: int| 0 <= j < r[i].len() - 1 implies r[i][j] != NL by {
                if j > 0 {
                    assert(r[i][j] == l[j]);
                }
            }
            if l.len() >= 2 {
                assert(r[i].last() == l.last());
            }
        }
    }
}

/// Completing the open task numbered `n`, where there is one, leaves every
/// open task but that one, in the same order.
pub proof fn lemma_complete_removes_task(ls: Seq<Seq<u8>>, n: nat)
    requires
        n < task_count(ls),
    ensures
        marked_lines(complete_lines(ls, n), DASH) == marked_lines(ls, DASH).remove(n as int),
    decreases ls.len(),
{
    let dl = ls.drop_last();
    let l = ls.last();
    let md = marked_lines(dl, DASH);
    let r = complete_lines(ls, n);
    assert(r.drop_last() =~= complete_lines(dl, n));
    assert(!has_marker(mark_done(l), DASH));
    if has_marker(l, DASH) && task_count(dl) == n {
        lemma_complete_missing(dl, n);
        assert(md.push(l).remove(n as int) =~= md);
    } else if has_marker(l, DASH) {
        lemma_complete_removes_task(dl, n);
        assert(md.remove(n as int).push(l) =~= md.push(l).remove(n as int));
    } else {
        lemma_complete_removes_task(dl, n);
    }
}

/// Completing the open task numbered `n` in the log `c`, where there is one:
/// when the result is read back, its open tasks are those of `c` but that one.
pub proof fn lemma_completed_log_tasks(c: Seq<u8>, n: nat)
    requires
        n < task_count(lines_of(c)),
    ensures
        marked_lines(lines_of(concat_lines(complete_lines(lines_of(c), n))), DASH) == marked_lines(
            lines_of(c),
            DASH,
        ).remove(n as int),
{
    lemma_lines_are_lines(c);
    lemma_complete_are_lines(lines_of(c), n);
    lemma_lines_concat(complete_lines(lines_of(c), n));
    lemma_complete_removes_task(lines_of(c), n);
}

} // verus!
