//! The record model: how a byte stream splits into lines, how a line
//! splits into fields, and how a key is built from selected fields.
//!
//! A record is one line, terminator included; the final line of a stream
//! may lack its terminator. Fields are the pieces of a line between
//! delimiters: every single tab byte in tab mode, or every maximal run
//! of whitespace bytes in whitespace mode. The key of a line is the
//! concatenation of the fields named by an ordered list of column
//! indices; a requested column that the line does not have ends the key
//! at whatever was gathered so far.

use vstd::prelude::*;

verus! {

/// The line-feed byte that terminates a record.
pub const LINE_FEED: u8 = 0x0A;

/// The bytes that whitespace mode treats as field delimiters.
pub open spec fn is_space(b: u8) -> bool {
    b == 0x20 || b == 0x09 || b == 0x0A || b == 0x0B || b == 0x0C || b == 0x0D
}

/// A delimiter byte under the chosen mode: any whitespace byte in
/// whitespace mode, a tab byte otherwise.
pub open spec fn is_delim(b: u8, ws: bool) -> bool {
    if ws {
        is_space(b)
    } else {
        b == 0x09
    }
}

/// The views of a vector of byte vectors.
pub open spec fn views_of(vs: Seq<Vec<u8>>) -> Seq<Seq<u8>> {
    vs.map_values(|v: Vec<u8>| v@)
}

/// The fields of a line. Splitting an empty line gives one empty field;
/// each delimiter occurrence closes the current field, except that in
/// whitespace mode a whitespace byte directly after another extends the
/// same delimiter run instead of opening a new field.
pub open spec fn fields_of(s: Seq<u8>, ws: bool) -> Seq<Seq<u8>>
    decreases s.len(),
{
    if s.len() == 0 {
        seq![Seq::<u8>::empty()]
    } else {
        let rest = fields_of(s.drop_last(), ws);
        let b = s.last();
        if !is_delim(b, ws) {
            rest.update(rest.len() - 1, rest.last().push(b))
        } else if ws && s.len() >= 2 && is_space(s[s.len() - 2]) {
            rest
        } else {
            rest.push(Seq::<u8>::empty())
        }
    }
}

/// The lines of a byte stream. Every line carries its terminator; a
/// final byte run without one is still a line; an empty stream has no
/// lines.
pub open spec fn lines_of(s: Seq<u8>) -> Seq<Seq<u8>>
    decreases s.len(),
{
    if s.len() == 0 {
        Seq::<Seq<u8>>::empty()
    } else {
        let rest = lines_of(s.drop_last());
        let b = s.last();
        if rest.len() == 0 || terminated(rest.last()) {
            rest.push(seq![b])
        } else {
            rest.update(rest.len() - 1, rest.last().push(b))
        }
    }
}

/// The line ends with the record terminator.
pub open spec fn terminated(l: Seq<u8>) -> bool {
    l.len() > 0 && l.last() == LINE_FEED
}

/// A well-formed line: non-empty, with a terminator nowhere but possibly
/// at its end.
pub open spec fn wf_line(l: Seq<u8>) -> bool {
    l.len() > 0 && forall|k: int| 0 <= k < l.len() - 1 ==> l[k] != LINE_FEED
}

/// A well-formed line sequence: each line well formed, and every line
/// but the last terminated.
pub open spec fn wf_lines(ls: Seq<Seq<u8>>) -> bool {
    &&& forall|p: int| 0 <= p < ls.len() ==> wf_line(#[trigger] ls[p])
    &&& forall|p: int| 0 <= p < ls.len() - 1 ==> terminated(#[trigger] ls[p])
}

/// Splitting a stream into lines gives a well-formed line sequence.
pub proof fn lemma_lines_of_wf(s: Seq<u8>)
    ensures
        wf_lines(lines_of(s)),
        s.len() > 0 <==> lines_of(s).len() > 0,
        s.len() > 0 && s.last() == LINE_FEED ==> terminated(lines_of(s).last()),
        s.len() > 0 && s.last() != LINE_FEED ==> !terminated(lines_of(s).last()),
    decreases s.len(),
{
    if s.len() > 0 {
        lemma_lines_of_wf(s.drop_last());
        let rest = lines_of(s.drop_last());
        let b = s.last();
        if rest.len() == 0 || terminated(rest.last()) {
            let ls = rest.push(seq![b]);
            assert(forall|p: int| 0 <= p < ls.len() - 1 ==> ls[p] =~= rest[p]);
            assert(wf_line(ls.last()));
        } else {
            let old_last = rest.last();
            let ls = rest.update(rest.len() - 1, old_last.push(b));
            assert(forall|p: int| 0 <= p < ls.len() - 1 ==> ls[p] =~= rest[p]);
            assert(wf_line(old_last) && !terminated(old_last));
            assert(forall|k: int| 0 <= k < old_last.len() ==> old_last.push(b)[k] == old_last[k]);
            assert(wf_line(old_last.push(b)));
        }
    }
}

/// The concatenation of a sequence of lines.
pub open spec fn concat_all(ls: Seq<Seq<u8>>) -> Seq<u8>
    decreases ls.len(),
{
    if ls.len() == 0 {
        Seq::<u8>::empty()
    } else {
        ls.first() + concat_all(ls.drop_first())
    }
}

/// Concatenation takes a line appended at the end to bytes appended at
/// the end.
pub proof fn lemma_concat_all_push(ls: Seq<Seq<u8>>, x: Seq<u8>)
    ensures
        concat_all(ls.push(x)) =~= concat_all(ls) + x,
    decreases ls.len(),
{
    if ls.len() == 0 {
        assert(ls.push(x).drop_first() =~= Seq::<Seq<u8>>::empty());
        assert(ls.push(x).first() =~= x);
        assert(concat_all(ls.push(x)) == ls.push(x).first() + concat_all(ls.push(x).drop_first()));
        assert(concat_all(ls.push(x)) =~= concat_all(ls) + x);
    } else {
        lemma_concat_all_push(ls.drop_first(), x);
        assert(ls.push(x).drop_first() =~= ls.drop_first().push(x));
        assert(ls.push(x).first() == ls.first());
        assert(concat_all(ls.push(x)) == ls.first() + concat_all(ls.drop_first().push(x)));
        assert(concat_all(ls) == ls.first() + concat_all(ls.drop_first()));
        assert(concat_all(ls.push(x)) =~= ls.first() + (concat_all(ls.drop_first()) + x));
        assert(concat_all(ls.push(x)) =~= concat_all(ls) + x);
    }
}

/// Appending one well-formed line to a stream that is empty or ends at a
/// line boundary appends exactly that line to the stream's line split.
pub proof fn lemma_lines_of_append_line(data: Seq<u8>, l: Seq<u8>)
    requires
        data.len() == 0 || data.last() == LINE_FEED,
        wf_line(l),
    ensures
        lines_of(data + l) =~= lines_of(data).push(l),
    decreases l.len(),
{
    lemma_lines_of_wf(data);
    if l.len() == 1 {
        let s = data + l;
        assert(s.drop_last() =~= data);
        assert(s.last() == l[0]);
        assert(seq![l[0]] =~= l);
    } else {
        let lp = l.drop_last();
        let b = l.last();
        assert(wf_line(lp));
        assert(lp.last() == l[l.len() - 2] && l.len() - 2 < l.len() - 1);
        assert(!terminated(lp));
        lemma_lines_of_append_line(data, lp);
        let s = data + l;
        assert(s.drop_last() =~= data + lp);
        assert(s.last() == b);
        let rest = lines_of(data).push(lp);
        assert(rest.last() == lp);
        assert(lines_of(s) =~= rest.update(rest.len() - 1, lp.push(b)));
        assert(lp.push(b) =~= l);
        assert(rest.update(rest.len() - 1, l) =~= lines_of(data).push(l));
    }
}

/// Splitting the concatenation of a well-formed line sequence gives back
/// exactly those lines.
pub proof fn lemma_lines_of_concat(ls: Seq<Seq<u8>>)
    requires
        wf_lines(ls),
    ensures
        lines_of(concat_all(ls)) =~= ls,
    decreases ls.len(),
{
    if ls.len() > 0 {
        let front = ls.drop_last();
        let l = ls.last();
        assert(forall|p: int| 0 <= p < front.len() ==> front[p] =~= ls[p]);
        assert(wf_lines(front));
        assert(forall|p: int| 0 <= p < front.len() ==> terminated(#[trigger] front[p]));
        lemma_lines_of_concat(front);
        assert(ls =~= front.push(l));
        lemma_concat_all_push(front, l);
        assert(concat_all(ls) =~= concat_all(front) + l);
        if front.len() == 0 {
            assert(concat_all(front) =~= Seq::<u8>::empty());
            assert(concat_all(front) + l =~= l);
            lemma_lines_of_append_line(concat_all(front), l);
        } else {
            lemma_concat_last_terminated(front);
            lemma_lines_of_append_line(concat_all(front), l);
        }
    }
}

/// The concatenation of terminated lines is non-empty and ends with the
/// terminator.
proof fn lemma_concat_last_terminated(ls: Seq<Seq<u8>>)
    requires
        ls.len() > 0,
        forall|p: int| 0 <= p < ls.len() ==> terminated(#[trigger] ls[p]),
    ensures
        concat_all(ls).len() > 0,
        concat_all(ls).last() == LINE_FEED,
    decreases ls.len(),
{
    let front = ls.drop_last();
    let l = ls.last();
    assert(ls =~= front.push(l));
    lemma_concat_all_push(front, l);
    if front.len() > 0 {
        assert(forall|p: int| 0 <= p < front.len() ==> front[p] =~= ls[p]);
        lemma_concat_last_terminated(front);
    }
    assert(concat_all(ls) =~= concat_all(front) + l);
    assert(terminated(l));
    assert((concat_all(front) + l).last() == l.last());
}

/// The key built from a field list: the concatenation of the fields at
/// the requested columns, taken in list order from position `k` on, and
/// cut short at the first requested column the line does not have.
pub open spec fn key_from(fields: Seq<Seq<u8>>, idxs: Seq<usize>, k: int) -> Seq<u8>
    decreases idxs.len() - k,
{
    if k < 0 || k >= idxs.len() {
        Seq::<u8>::empty()
    } else if idxs[k] >= fields.len() {
        Seq::<u8>::empty()
    } else {
        fields[idxs[k] as int] + key_from(fields, idxs, k + 1)
    }
}

/// The dedup key of one line under a field specification and delimiter
/// mode.
pub open spec fn key_of_line(line: Seq<u8>, idxs: Seq<usize>, ws: bool) -> Seq<u8> {
    key_from(fields_of(line, ws), idxs, 0)
}

} // verus!
