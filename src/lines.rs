use vstd::prelude::*;

verus! {

/// The line feed that ends a line.
pub const NL: u8 = 10;

/// The carriage return that may stand before a line feed.
pub const CR: u8 = 13;

/// The lines of `s` when `cur` holds the part of a line that was already read:
/// each line keeps its line feed, and a last line without one is a line too.
pub open spec fn split_from(s: Seq<u8>, cur: Seq<u8>) -> Seq<Seq<u8>>
    decreases s.len(),
{
    if s.len() == 0 {
        if cur.len() == 0 {
            seq![]
        } else {
            seq![cur]
        }
    } else if s[0] == NL {
        seq![cur.push(NL)] + split_from(s.skip(1), seq![])
    } else {
        split_from(s.skip(1), cur.push(s[0]))
    }
}

/// The lines of `s`, in order, each with its own terminator.
pub open spec fn lines_of(s: Seq<u8>) -> Seq<Seq<u8>> {
    split_from(s, seq![])
}

/// The lines written one after the other.
pub open spec fn concat_lines(ls: Seq<Seq<u8>>) -> Seq<u8>
    decreases ls.len(),
{
    if ls.len() == 0 {
        seq![]
    } else {
        concat_lines(ls.drop_last()) + ls.last()
    }
}

pub open spec fn view_lines(v: Seq<Vec<u8>>) -> Seq<Seq<u8>> {
    v.map_values(|l: Vec<u8>| l@)
}

/// `l` ends with a line feed.
pub open spec fn is_terminated(l: Seq<u8>) -> bool {
    l.len() > 0 && l.last() == NL
}

/// `l` is one line: not empty, with no line feed but maybe a last one.
pub open spec fn is_line(l: Seq<u8>) -> bool {
    l.len() > 0 && forall|i: int| 0 <= i < l.len() - 1 ==> l[i] != NL
}

/// What `lines_of` can give: lines, every one but the last terminated.
pub open spec fn are_lines(ls: Seq<Seq<u8>>) -> bool {
    &&& forall|i: int| 0 <= i < ls.len() ==> is_line(#[trigger] ls[i])
    &&& forall|i: int| 0 <= i < ls.len() - 1 ==> is_terminated(#[trigger] ls[i])
}

/// Splits `s` into its lines, each with its own terminator.
pub fn split_lines(s: &[u8]) -> (r: Vec<Vec<u8>>)
    ensures
        view_lines(r@) == lines_of(s@),
{
    let mut lines: Vec<Vec<u8>> = Vec::new();
    let mut cur: Vec<u8> = Vec::new();
    let mut i: usize = 0;
    assert(s@.skip(0) =~= s@);
    assert(view_lines(lines@) =~= seq![]);
    while i < s.len()
        invariant
            i <= s@.len(),
            view_lines(lines@) + split_from(s@.skip(i as int), cur@) == lines_of(s@),
        decreases s@.len() - i,
    {
        let b = s[i];
        let ghost rest = s@.skip(i as int);
        assert(rest.skip(1) =~= s@.skip(i + 1));
        assert(rest[0] == b);
        if b == NL {
            cur.push(NL);
            let ghost before = view_lines(lines@);
            lines.push(cur);
            cur = Vec::new();
            assert(view_lines(lines@) =~= before.push(lines@.last()@));
            assert(cur@ =~= seq![]);
            assert(view_lines(lines@) + split_from(s@.skip(i + 1), cur@) =~= before + (seq![
                lines@.last()@,
            ] + split_from(s@.skip(i + 1), cur@)));
        } else {
            cur.push(b);
        }
        i = i + 1;
    }
    assert(s@.skip(i as int) =~= seq![]);
    if cur.len() > 0 {
        let ghost before = view_lines(lines@);
        lines.push(cur);
        assert(view_lines(lines@) =~= before + seq![lines@.last()@]);
    } else {
        assert(view_lines(lines@) =~= view_lines(lines@) + seq![]);
    }
    lines
}

/// Appends the bytes of `s` to `out`.
pub fn push_all(out: &mut Vec<u8>, s: &[u8])
    ensures
        final(out)@ == old(out)@ + s@,
{
    let mut i: usize = 0;
    while i < s.len()
        invariant
            i <= s@.len(),
            out@ == old(out)@ + s@.take(i as int),
        decreases s@.len() - i,
    {
        out.push(s[i]);
        i = i + 1;
        assert(out@ =~= old(out)@ + s@.take(i as int));
    }
    assert(s@.take(i as int) =~= s@);
}

/// Splitting after a line feed splits the lines there too.
pub proof fn lemma_split_append(a: Seq<u8>, b: Seq<u8>, cur: Seq<u8>)
    requires
        is_terminated(a),
    ensures
        split_from(a + b, cur) == split_from(a, cur) + split_from(b, seq![]),
    decreases a.len(),
{
    assert((a + b).skip(1) =~= a.skip(1) + b);
    assert((a + b)[0] == a[0]);
    if a.len() == 1 {
        assert((a + b).skip(1) =~= b);
        assert(a.skip(1) =~= seq![]);
        assert(split_from(a.skip(1), seq![]) =~= seq![]);
        assert(split_from(a, cur) =~= seq![cur.push(NL)]);
    } else {
        assert(a.skip(1).last() == a.last());
        if a[0] == NL {
            lemma_split_append(a.skip(1), b, seq![]);
            assert(split_from(a + b, cur) =~= split_from(a, cur) + split_from(b, seq![]));
        } else {
            lemma_split_append(a.skip(1), b, cur.push(a[0]));
        }
    }
}

/// Text that ends with a line feed keeps its lines when more text follows.
pub proof fn lemma_lines_append(a: Seq<u8>, b: Seq<u8>)
    requires
        a.len() == 0 || is_terminated(a),
    ensures
        lines_of(a + b) == lines_of(a) + lines_of(b),
{
    if a.len() == 0 {
        assert(a + b =~= b);
        assert(lines_of(a) =~= seq![]);
        assert(lines_of(a) + lines_of(b) =~= lines_of(b));
    } else {
        lemma_split_append(a, b, seq![]);
    }
}

proof fn lemma_split_one_line(l: Seq<u8>, cur: Seq<u8>)
    requires
        is_line(l),
    ensures
        split_from(l, cur) == seq![cur + l],
    decreases l.len(),
{
    if l.len() == 1 {
        assert(l.skip(1) =~= seq![]);
        if l[0] == NL {
            assert(split_from(l.skip(1), seq![]) =~= seq![]);
            assert(cur.push(NL) =~= cur + l);
            assert(split_from(l, cur) =~= seq![cur.push(NL)] + seq![]);
        } else {
            assert(cur.push(l[0]) =~= cur + l);
            assert(split_from(l.skip(1), cur.push(l[0])) == seq![cur.push(l[0])]);
        }
    } else {
        assert(l[0] != NL);
        let t = l.skip(1);
        assert forall|i: int| 0 <= i < t.len() - 1 implies t[i] != NL by {
            assert(t[i] == l[i + 1]);
        }
        lemma_split_one_line(t, cur.push(l[0]));
        assert(cur.push(l[0]) + t =~= cur + l);
    }
}

/// One line is one line.
pub proof fn lemma_lines_one(l: Seq<u8>)
    requires
        is_line(l),
    ensures
        lines_of(l) == seq![l],
{
    lemma_split_one_line(l, seq![]);
    assert(seq![] + l =~= l);
}

/// Lines written out and split again are the same lines.
pub proof fn lemma_lines_concat(ls: Seq<Seq<u8>>)
    requires
        are_lines(ls),
    ensures
        lines_of(concat_lines(ls)) == ls,
    decreases ls.len(),
{
    if ls.len() == 0 {
        assert(lines_of(seq![]) =~= ls);
    } else {
        let dl = ls.drop_last();
        assert forall|i: int| 0 <= i < dl.len() implies is_line(#[trigger] dl[i]) by {
            assert(dl[i] == ls[i]);
        }
        assert forall|i: int| 0 <= i < dl.len() - 1 implies is_terminated(#[trigger] dl[i]) by {
            assert(dl[i] == ls[i]);
        }
        lemma_lines_concat(dl);
        assert(is_line(ls[ls.len() - 1]));
        lemma_lines_one(ls.last());
        if dl.len() > 0 {
            assert(is_terminated(ls[dl.len() - 1]));
            lemma_concat_last(dl);
        }
        lemma_lines_append(concat_lines(dl), ls.last());
        assert(ls =~= dl + seq![ls.last()]);
    }
}

/// Lines end where their last line ends.
pub proof fn lemma_concat_last(ls: Seq<Seq<u8>>)
    requires
        ls.len() > 0,
        is_terminated(ls.last()),
    ensures
        is_terminated(concat_lines(ls)),
{
}

proof fn lemma_split_are_lines(s: Seq<u8>, cur: Seq<u8>)
    requires
        forall|i: int| 0 <= i < cur.len() ==> cur[i] != NL,
    ensures
        are_lines(split_from(s, cur)),
    decreases s.len(),
{
    if s.len() == 0 {
    } else if s[0] == NL {
        lemma_split_are_lines(s.skip(1), seq![]);
        let first = cur.push(NL);
        let rest = split_from(s.skip(1), seq![]);
        let all = seq![first] + rest;
        assert(is_line(first));
        assert forall|i: int| 0 <= i < all.len() implies is_line(#[trigger] all[i]) by {
            if i > 0 {
                assert(all[i] == rest[i - 1]);
            }
        }
        assert forall|i: int| 0 <= i < all.len() - 1 implies is_terminated(#[trigger] all[i]) by {
            if i > 0 {
                assert(all[i] == rest[i - 1]);
            }
        }
    } else {
        let c2 = cur.push(s[0]);
        assert forall|i: int| 0 <= i < c2.len() implies c2[i] != NL by {
            if i < cur.len() {
                assert(c2[i] == cur[i]);
            }
        }
        lemma_split_are_lines(s.skip(1), c2);
    }
}

/// What `lines_of` gives are lines.
pub proof fn lemma_lines_are_lines(s: Seq<u8>)
    ensures
        are_lines(lines_of(s)),
{
    lemma_split_are_lines(s, seq![]);
}

} // verus!

verus! {

/// Writing out two runs of lines is writing out the first, then the second.
pub proof fn lemma_concat_append(a: Seq<Seq<u8>>, b: Seq<Seq<u8>>)
    ensures
        concat_lines(a + b) == concat_lines(a) + concat_lines(b),
    decreases b.len(),
{
    if b.len() == 0 {
        assert(a + b =~= a);
        assert(concat_lines(a) + concat_lines(b) =~= concat_lines(a));
    } else {
        assert((a + b).drop_last() =~= a + b.drop_last());
        lemma_concat_append(a, b.drop_last());
        assert(concat_lines(a + b) =~= concat_lines(a) + concat_lines(b));
    }
}

/// One line written out is that line.
pub proof fn lemma_concat_one(l: Seq<u8>)
    ensures
        concat_lines(seq![l]) == l,
{
    assert(seq![l].drop_last() =~= seq![]);
    assert(concat_lines(seq![l].drop_last()) =~= seq![]);
    assert(seq![] + l =~= l);
}

proof fn lemma_concat_split(s: Seq<u8>, cur: Seq<u8>)
    ensures
        concat_lines(split_from(s, cur)) == cur + s,
    decreases s.len(),
{
    if s.len() == 0 {
        if cur.len() == 0 {
            assert(cur + s =~= seq![]);
        } else {
            lemma_concat_one(cur);
            assert(cur + s =~= cur);
        }
    } else if s[0] == NL {
        let rest = split_from(s.skip(1), seq![]);
        lemma_concat_split(s.skip(1), seq![]);
        lemma_concat_append(seq![cur.push(NL)], rest);
        lemma_concat_one(cur.push(NL));
        assert(cur.push(NL) + (seq![] + s.skip(1)) =~= cur + s);
    } else {
        lemma_concat_split(s.skip(1), cur.push(s[0]));
        assert(cur.push(s[0]) + s.skip(1) =~= cur + s);
    }
}

/// The lines of a text, written out again, are that text.
pub proof fn lemma_concat_lines_of(s: Seq<u8>)
    ensures
        concat_lines(lines_of(s)) == s,
{
    lemma_concat_split(s, seq![]);
    assert(seq![] + s =~= s);
}

} // verus!
