//! The dedup engine: the first-occurrence filter over the records of a
//! byte stream, and the laws that hold of it.

use vstd::prelude::*;

use crate::config::Config;
use crate::records::concat_all;
use crate::records::fields_of;
use crate::records::is_delim;
use crate::records::is_space;
use crate::records::key_from;
use crate::records::key_of_line;
use crate::records::lines_of;
use crate::records::views_of;
use crate::records::LINE_FEED;

verus! {

/// Whether record `i` is a first occurrence and is kept. In unsorted
/// mode a record is kept exactly when its key appears in no strictly
/// earlier record; in sorted mode exactly when its key differs from the
/// previous record's key.
pub open spec fn keep_at(
    lines: Seq<Seq<u8>>,
    idxs: Seq<usize>,
    ws: bool,
    sorted: bool,
    i: int,
) -> bool {
    if sorted {
        i == 0 || key_of_line(lines[i - 1], idxs, ws) != key_of_line(lines[i], idxs, ws)
    } else {
        forall|j: int|
            0 <= j < i ==> key_of_line(#[trigger] lines[j], idxs, ws) != key_of_line(
                lines[i],
                idxs,
                ws,
            )
    }
}

/// The subsequence of records from position `i` on that the engine
/// keeps, in input order.
pub open spec fn kept_from(
    lines: Seq<Seq<u8>>,
    idxs: Seq<usize>,
    ws: bool,
    sorted: bool,
    i: int,
) -> Seq<Seq<u8>>
    decreases lines.len() - i,
{
    if i < 0 || i >= lines.len() {
        Seq::<Seq<u8>>::empty()
    } else if keep_at(lines, idxs, ws, sorted, i) {
        seq![lines[i]] + kept_from(lines, idxs, ws, sorted, i + 1)
    } else {
        kept_from(lines, idxs, ws, sorted, i + 1)
    }
}

/// What one engine run emits: the bytes of the kept records of the
/// stream, verbatim and in input order.
pub open spec fn spec_run(data: Seq<u8>, idxs: Seq<usize>, ws: bool, sorted: bool) -> Seq<u8> {
    concat_all(kept_from(lines_of(data), idxs, ws, sorted, 0))
}

/// Whether the byte is a delimiter under the chosen mode.
fn byte_is_delim(b: u8, ws: bool) -> (r: bool)
    ensures
        r == is_delim(b, ws),
{
    if ws {
        b == 0x20 || b == 0x09 || b == 0x0A || b == 0x0B || b == 0x0C || b == 0x0D
    } else {
        b == 0x09
    }
}

/// Split a stream into its lines, each line keeping its terminator.
fn split_lines(data: &Vec<u8>) -> (ls: Vec<Vec<u8>>)
    ensures
        views_of(ls@) == lines_of(data@),
{
    let mut ls: Vec<Vec<u8>> = Vec::new();
    let mut i: usize = 0;
    while i < data.len()
        invariant
            i <= data.len(),
            views_of(ls@) =~= lines_of(data@.take(i as int)),
        decreases data.len() - i,
    {
        let b = data[i];
        let ghost pre = data@.take(i as int);
        let ghost cur = data@.take(i as int + 1);
        proof {
            assert(cur.drop_last() =~= pre);
            assert(cur.last() == data@[i as int]);
            crate::records::lemma_lines_of_wf(pre);
            assert(ls@.len() > 0 ==> views_of(ls@)[ls@.len() - 1] == ls@[ls@.len() - 1]@);
        }
        let start_new = if ls.len() == 0 {
            true
        } else {
            let l = &ls[ls.len() - 1];
            l[l.len() - 1] == LINE_FEED
        };
        if start_new {
            let mut nl: Vec<u8> = Vec::new();
            nl.push(b);
            ls.push(nl);
            proof {
                assert(views_of(ls@) =~= lines_of(cur));
            }
        } else {
            let mut l = ls.pop().unwrap();
            l.push(b);
            ls.push(l);
            proof {
                assert(views_of(ls@) =~= lines_of(cur));
            }
        }
        i = i + 1;
    }
    proof {
        assert(data@.take(data@.len() as int) =~= data@);
    }
    ls
}

/// Split one line into its fields under the chosen delimiter mode.
fn split_fields(line: &Vec<u8>, ws: bool) -> (fs: Vec<Vec<u8>>)
    ensures
        views_of(fs@) == fields_of(line@, ws),
        fs@.len() >= 1,
{
    let mut fs: Vec<Vec<u8>> = Vec::new();
    fs.push(Vec::new());
    proof {
        assert(views_of(fs@) =~= fields_of(line@.take(0), ws));
    }
    let mut i: usize = 0;
    while i < line.len()
        invariant
            i <= line.len(),
            fs@.len() >= 1,
            views_of(fs@) =~= fields_of(line@.take(i as int), ws),
        decreases line.len() - i,
    {
        let b = line[i];
        let ghost pre = line@.take(i as int);
        let ghost cur = line@.take(i as int + 1);
        proof {
            assert(cur.drop_last() =~= pre);
            assert(cur.last() == line@[i as int]);
            assert(cur.len() >= 2 ==> cur[cur.len() - 2] == line@[i as int - 1]);
        }
        if !byte_is_delim(b, ws) {
            let mut f = fs.pop().unwrap();
            f.push(b);
            fs.push(f);
            proof {
                assert(views_of(fs@) =~= fields_of(cur, ws));
            }
        } else if ws && i >= 1 && byte_is_delim(line[i - 1], true) {
            proof {
                assert(views_of(fs@) =~= fields_of(cur, ws));
            }
        } else {
            fs.push(Vec::new());
            proof {
                assert(views_of(fs@) =~= fields_of(cur, ws));
            }
        }
        i = i + 1;
    }
    proof {
        assert(line@.take(line@.len() as int) =~= line@);
    }
    fs
}

/// Build the key of one split line: concatenate the requested fields in
/// list order, stopping at the first requested column the line lacks.
fn extract_key(fs: &Vec<Vec<u8>>, idxs: &Vec<usize>) -> (key: Vec<u8>)
    ensures
        key@ == key_from(views_of(fs@), idxs@, 0),
{
    let ghost f = views_of(fs@);
    let mut key: Vec<u8> = Vec::new();
    let mut k: usize = 0;
    while k < idxs.len()
        invariant_except_break
            k <= idxs.len(),
            key_from(f, idxs@, 0) =~= key@ + key_from(f, idxs@, k as int),
            f == views_of(fs@),
        ensures
            key@ == key_from(f, idxs@, 0),
        decreases idxs.len() - k,
    {
        let idx = idxs[k];
        if idx >= fs.len() {
            proof {
                assert(key_from(f, idxs@, k as int) =~= Seq::<u8>::empty());
                assert(key@ + Seq::<u8>::empty() =~= key@);
            }
            break ;
        }
        proof {
            assert(f[idx as int] == fs@[idx as int]@);
        }
        key.extend_from_slice(fs[idx].as_slice());
        k = k + 1;
        proof {
            assert(key_from(f, idxs@, 0) =~= key@ + key_from(f, idxs@, k as int));
        }
    }
    key
}

/// The dedup key of one record: the bytes of the requested columns,
/// concatenated in list order with nothing between them. A requested
/// column the record does not have ends the key at what was gathered so
/// far; it is not an error.
pub fn key_for_line(line: &Vec<u8>, fields: &Vec<usize>, whitespace: bool) -> (key: Vec<u8>)
    ensures
        key@ == key_of_line(line@, fields@, whitespace),
{
    let fs = split_fields(line, whitespace);
    extract_key(&fs, fields)
}

/// Whether two byte strings hold the same bytes.
fn bytes_eq(a: &Vec<u8>, b: &Vec<u8>) -> (r: bool)
    ensures
        r == (a@ == b@),
{
    if a.len() != b.len() {
        return false;
    }
    let mut i: usize = 0;
    while i < a.len()
        invariant
            i <= a.len(),
            a@.len() == b@.len(),
            forall|j: int| 0 <= j < i ==> a@[j] == b@[j],
        decreases a.len() - i,
    {
        if a[i] != b[i] {
            return false;
        }
        i = i + 1;
    }
    proof {
        assert(a@ =~= b@);
    }
    true
}

/// Whether the key list holds the given key.
pub open spec fn has_key(seen: Seq<Seq<u8>>, k: Seq<u8>) -> bool {
    exists|m: int| 0 <= m < seen.len() && seen[m] == k
}

/// Whether some record strictly before position `i` has the given key.
pub open spec fn appears_before(
    lines: Seq<Seq<u8>>,
    idxs: Seq<usize>,
    ws: bool,
    i: int,
    k: Seq<u8>,
) -> bool {
    exists|j: int| 0 <= j < i && key_of_line(#[trigger] lines[j], idxs, ws) == k
}

/// Scan the key history for the given key.
fn contains_key(seen: &Vec<Vec<u8>>, key: &Vec<u8>) -> (r: bool)
    ensures
        r == has_key(views_of(seen@), key@),
{
    let ghost sv = views_of(seen@);
    let mut m: usize = 0;
    while m < seen.len()
        invariant
            m <= seen.len(),
            sv == views_of(seen@),
            forall|p: int| 0 <= p < m ==> sv[p] != key@,
        decreases seen.len() - m,
    {
        proof {
            assert(sv[m as int] == seen@[m as int]@);
        }
        if bytes_eq(&seen[m], key) {
            return true;
        }
        m = m + 1;
    }
    false
}

proof fn lemma_has_key_push(sv: Seq<Seq<u8>>, x: Seq<u8>, k: Seq<u8>)
    ensures
        has_key(sv.push(x), k) == (has_key(sv, k) || k == x),
{
    if has_key(sv, k) {
        let m = choose|m: int| 0 <= m < sv.len() && sv[m] == k;
        assert(sv.push(x)[m] == k);
    }
    if k == x {
        assert(sv.push(x)[sv.len() as int] == k);
    }
    if has_key(sv.push(x), k) {
        let m = choose|m: int| 0 <= m < sv.push(x).len() && sv.push(x)[m] == k;
        if m < sv.len() {
            assert(sv[m] == k);
        }
    }
}

proof fn lemma_appears_step(lines: Seq<Seq<u8>>, idxs: Seq<usize>, ws: bool, i: int, k: Seq<u8>)
    requires
        0 <= i < lines.len(),
    ensures
        appears_before(lines, idxs, ws, i + 1, k) == (appears_before(lines, idxs, ws, i, k)
            || key_of_line(lines[i], idxs, ws) == k),
{
    if appears_before(lines, idxs, ws, i, k) {
        let j = choose|j: int| 0 <= j < i && key_of_line(#[trigger] lines[j], idxs, ws) == k;
        assert(0 <= j < i + 1 && key_of_line(lines[j], idxs, ws) == k);
    }
    if key_of_line(lines[i], idxs, ws) == k {
        assert(0 <= i < i + 1 && key_of_line(lines[i], idxs, ws) == k);
    }
    if appears_before(lines, idxs, ws, i + 1, k) {
        let j = choose|j: int| 0 <= j < i + 1 && key_of_line(#[trigger] lines[j], idxs, ws) == k;
        if j < i {
            assert(0 <= j < i && key_of_line(lines[j], idxs, ws) == k);
        }
    }
}

/// Run the dedup engine over one in-memory byte stream: emit each
/// record whose key is a first occurrence, verbatim and in input order,
/// under the configuration's field specification, delimiter mode and
/// occurrence-tracking mode.
pub fn run(config: &Config, input: &Vec<u8>) -> (out: Vec<u8>)
    ensures
        out@ == spec_run(input@, config.fields@, config.whitespace, config.sorted),
{
    let ghost idxs = config.fields@;
    let ghost ws = config.whitespace;
    let ghost sorted = config.sorted;
    let lines = split_lines(input);
    let ghost lseq = views_of(lines@);
    let mut out: Vec<u8> = Vec::new();
    let mut seen: Vec<Vec<u8>> = Vec::new();
    let mut last: Option<Vec<u8>> = None;
    let mut i: usize = 0;
    while i < lines.len()
        invariant
            i <= lines.len(),
            lseq == views_of(lines@),
            lseq == lines_of(input@),
            idxs == config.fields@,
            ws == config.whitespace,
            sorted == config.sorted,
            concat_all(kept_from(lseq, idxs, ws, sorted, 0)) =~= out@ + concat_all(
                kept_from(lseq, idxs, ws, sorted, i as int),
            ),
            sorted ==> ((i == 0) == (last is None)),
            sorted && i > 0 ==> (last matches Some(lk) && lk@ == key_of_line(
                lseq[i as int - 1],
                idxs,
                ws,
            )),
            !sorted ==> forall|k: Seq<u8>|
                #[trigger] has_key(views_of(seen@), k) == appears_before(
                    lseq,
                    idxs,
                    ws,
                    i as int,
                    k,
                ),
        decreases lines.len() - i,
    {
        proof {
            assert(lseq[i as int] == lines@[i as int]@);
        }
        let fs = split_fields(&lines[i], config.whitespace);
        let key = extract_key(&fs, &config.fields);
        proof {
            assert(key@ == key_of_line(lseq[i as int], idxs, ws));
        }
        let keep: bool;
        if config.sorted {
            keep = match &last {
                Option::None => true,
                Option::Some(lk) => !bytes_eq(lk, &key),
            };
            proof {
                assert(keep == keep_at(lseq, idxs, ws, sorted, i as int));
            }
        } else {
            let present = contains_key(&seen, &key);
            proof {
                assert(has_key(views_of(seen@), key@) == appears_before(
                    lseq,
                    idxs,
                    ws,
                    i as int,
                    key@,
                ));
                assert(!appears_before(lseq, idxs, ws, i as int, key@) == keep_at(
                    lseq,
                    idxs,
                    ws,
                    sorted,
                    i as int,
                ));
            }
            keep = !present;
        }
        let ghost old_seen = views_of(seen@);
        if keep {
            out.extend_from_slice(lines[i].as_slice());
            if config.sorted {
                last = Option::Some(key);
            } else {
                seen.push(key);
            }
        } else {
            if config.sorted {
                proof {
                    assert(last matches Some(lk) && lk@ == key_of_line(lseq[i as int], idxs, ws));
                }
            }
        }
        proof {
            let ii = i as int;
            assert(kept_from(lseq, idxs, ws, sorted, ii) =~= if keep_at(lseq, idxs, ws, sorted, ii) {
                seq![lseq[ii]] + kept_from(lseq, idxs, ws, sorted, ii + 1)
            } else {
                kept_from(lseq, idxs, ws, sorted, ii + 1)
            });
            if keep {
                let tail = kept_from(lseq, idxs, ws, sorted, ii + 1);
                assert((seq![lseq[ii]] + tail).first() == lseq[ii]);
                assert((seq![lseq[ii]] + tail).drop_first() =~= tail);
                assert(concat_all(seq![lseq[ii]] + tail) == lseq[ii] + concat_all(tail));
            }
            if !sorted {
                assert forall|k: Seq<u8>|
                    #[trigger] has_key(views_of(seen@), k) == appears_before(
                        lseq,
                        idxs,
                        ws,
                        ii + 1,
                        k,
                    ) by {
                    lemma_appears_step(lseq, idxs, ws, ii, k);
                    if keep {
                        assert(views_of(seen@) =~= old_seen.push(key@));
                        lemma_has_key_push(old_seen, key@, k);
                    } else {
                        assert(appears_before(lseq, idxs, ws, ii, key@));
                    }
                }
            }
        }
        i = i + 1;
    }
    proof {
        assert(kept_from(lseq, idxs, ws, sorted, lines@.len() as int) =~= Seq::<Seq<u8>>::empty());
        assert(out@ + concat_all(Seq::<Seq<u8>>::empty()) =~= out@);
    }
    out
}

/// Run the dedup engine over several input streams taken as one: the
/// inputs are concatenated in order, and a key seen in an earlier input
/// suppresses matching records in every later one.
pub fn run_concat(config: &Config, inputs: &Vec<Vec<u8>>) -> (out: Vec<u8>)
    ensures
        out@ == spec_run(
            concat_all(views_of(inputs@)),
            config.fields@,
            config.whitespace,
            config.sorted,
        ),
{
    let ghost vs = views_of(inputs@);
    proof {
        assert(vs.skip(0) =~= vs);
    }
    let mut joined: Vec<u8> = Vec::new();
    let mut i: usize = 0;
    while i < inputs.len()
        invariant
            i <= inputs.len(),
            vs == views_of(inputs@),
            concat_all(vs) =~= joined@ + concat_all(vs.skip(i as int)),
        decreases inputs.len() - i,
    {
        proof {
            assert(vs[i as int] == inputs@[i as int]@);
            let tail = vs.skip(i as int);
            assert(tail.first() == vs[i as int]);
            assert(tail.drop_first() =~= vs.skip(i as int + 1));
            assert(concat_all(tail) == vs[i as int] + concat_all(vs.skip(i as int + 1)));
        }
        joined.extend_from_slice(inputs[i].as_slice());
        i = i + 1;
    }
    proof {
        assert(vs.skip(vs.len() as int) =~= Seq::<Seq<u8>>::empty());
        assert(joined@ + concat_all(Seq::<Seq<u8>>::empty()) =~= joined@);
        assert(joined@ == concat_all(vs));
    }
    run(config, &joined)
}

/// Equal-keyed records sit next to each other: whenever two records
/// share a key, every record between them has that key too.
pub open spec fn grouped(lines: Seq<Seq<u8>>, idxs: Seq<usize>, ws: bool) -> bool {
    forall|i: int, j: int, k: int|
        #![trigger lines[i], lines[j], lines[k]]
        0 <= i <= j <= k < lines.len() && key_of_line(lines[i], idxs, ws) == key_of_line(
            lines[k],
            idxs,
            ws,
        ) ==> key_of_line(lines[j], idxs, ws) == key_of_line(lines[i], idxs, ws)
}

proof fn lemma_keep_at_agree(lines: Seq<Seq<u8>>, idxs: Seq<usize>, ws: bool, i: int)
    requires
        grouped(lines, idxs, ws),
        0 <= i < lines.len(),
    ensures
        keep_at(lines, idxs, ws, true, i) == keep_at(lines, idxs, ws, false, i),
{
    if keep_at(lines, idxs, ws, true, i) {
        assert forall|j: int| 0 <= j < i implies key_of_line(#[trigger] lines[j], idxs, ws)
            != key_of_line(lines[i], idxs, ws) by {
            if key_of_line(lines[j], idxs, ws) == key_of_line(lines[i], idxs, ws) {
                assert(0 <= j <= i - 1 <= i < lines.len());
                assert(key_of_line(lines[i - 1], idxs, ws) == key_of_line(lines[j], idxs, ws));
            }
        }
    } else {
        assert(0 <= i - 1 < i && key_of_line(lines[i - 1], idxs, ws) == key_of_line(
            lines[i],
            idxs,
            ws,
        ));
    }
}

proof fn lemma_kept_agree_from(lines: Seq<Seq<u8>>, idxs: Seq<usize>, ws: bool, i: int)
    requires
        grouped(lines, idxs, ws),
        0 <= i,
    ensures
        kept_from(lines, idxs, ws, true, i) == kept_from(lines, idxs, ws, false, i),
    decreases lines.len() - i,
{
    if i < lines.len() {
        lemma_keep_at_agree(lines, idxs, ws, i);
        lemma_kept_agree_from(lines, idxs, ws, i + 1);
    }
}

/// When equal-keyed records are contiguous in the input, sorted mode
/// emits exactly what unsorted mode emits.
pub proof fn lemma_modes_agree(data: Seq<u8>, idxs: Seq<usize>, ws: bool)
    requires
        grouped(lines_of(data), idxs, ws),
    ensures
        spec_run(data, idxs, ws, true) == spec_run(data, idxs, ws, false),
{
    lemma_kept_agree_from(lines_of(data), idxs, ws, 0);
}

/// A record whose key already appeared in a strictly earlier record of
/// the combined stream — an earlier concatenated input included — is
/// never kept in unsorted mode.
pub proof fn lemma_earlier_key_suppresses(
    lines: Seq<Seq<u8>>,
    idxs: Seq<usize>,
    ws: bool,
    i: int,
    j: int,
)
    requires
        0 <= i < j < lines.len(),
        key_of_line(lines[i], idxs, ws) == key_of_line(lines[j], idxs, ws),
    ensures
        !keep_at(lines, idxs, ws, false, j),
{
    assert(!(key_of_line(lines[i], idxs, ws) != key_of_line(lines[j], idxs, ws)));
}

/// No two records of the sequence share a key.
pub open spec fn all_keys_distinct(ls: Seq<Seq<u8>>, idxs: Seq<usize>, ws: bool) -> bool {
    forall|p: int, q: int|
        #![trigger ls[p], ls[q]]
        0 <= p < q < ls.len() ==> key_of_line(ls[p], idxs, ws) != key_of_line(ls[q], idxs, ws)
}

/// No two neighbouring records of the sequence share a key.
pub open spec fn adjacent_keys_distinct(ls: Seq<Seq<u8>>, idxs: Seq<usize>, ws: bool) -> bool {
    forall|p: int|
        0 <= p < ls.len() - 1 ==> key_of_line(#[trigger] ls[p], idxs, ws) != key_of_line(
            ls[p + 1],
            idxs,
            ws,
        )
}

/// Element `x` of a kept suffix comes from some record at or after
/// position `i` that the unsorted filter keeps.
spec fn kept_elem_ok(lines: Seq<Seq<u8>>, idxs: Seq<usize>, ws: bool, i: int, x: Seq<u8>) -> bool {
    exists|j: int|
        i <= j < lines.len() && x == #[trigger] lines[j] && keep_at(lines, idxs, ws, false, j)
}

proof fn lemma_kept_elem_weaken(lines: Seq<Seq<u8>>, idxs: Seq<usize>, ws: bool, i: int, x: Seq<u8>)
    requires
        kept_elem_ok(lines, idxs, ws, i + 1, x),
    ensures
        kept_elem_ok(lines, idxs, ws, i, x),
{
    let j = choose|j: int|
        i + 1 <= j < lines.len() && x == #[trigger] lines[j] && keep_at(lines, idxs, ws, false, j);
    assert(i <= j < lines.len() && x == lines[j] && keep_at(lines, idxs, ws, false, j));
}

proof fn lemma_kept_unsorted_distinct(lines: Seq<Seq<u8>>, idxs: Seq<usize>, ws: bool, i: int)
    requires
        0 <= i,
    ensures
        forall|p: int|
            0 <= p < kept_from(lines, idxs, ws, false, i).len() ==> kept_elem_ok(
                lines,
                idxs,
                ws,
                i,
                #[trigger] kept_from(lines, idxs, ws, false, i)[p],
            ),
        all_keys_distinct(kept_from(lines, idxs, ws, false, i), idxs, ws),
    decreases lines.len() - i,
{
    let ks = kept_from(lines, idxs, ws, false, i);
    if i < lines.len() {
        lemma_kept_unsorted_distinct(lines, idxs, ws, i + 1);
        let rest = kept_from(lines, idxs, ws, false, i + 1);
        if keep_at(lines, idxs, ws, false, i) {
            assert(ks == seq![lines[i]] + rest);
            assert forall|p: int| 0 <= p < ks.len() implies kept_elem_ok(
                lines,
                idxs,
                ws,
                i,
                #[trigger] ks[p],
            ) by {
                if p == 0 {
                    assert(ks[0] == lines[i] && keep_at(lines, idxs, ws, false, i));
                } else {
                    assert(ks[p] == rest[p - 1]);
                    assert(kept_elem_ok(lines, idxs, ws, i + 1, rest[p - 1]));
                    lemma_kept_elem_weaken(lines, idxs, ws, i, rest[p - 1]);
                }
            }
            assert forall|p: int, q: int|
                #![trigger ks[p], ks[q]]
                0 <= p < q < ks.len() implies key_of_line(ks[p], idxs, ws) != key_of_line(
                ks[q],
                idxs,
                ws,
            ) by {
                if p == 0 {
                    assert(ks[q] == rest[q - 1]);
                    assert(kept_elem_ok(lines, idxs, ws, i + 1, rest[q - 1]));
                    let j = choose|j: int|
                        i + 1 <= j < lines.len() && rest[q - 1] == #[trigger] lines[j] && keep_at(
                            lines,
                            idxs,
                            ws,
                            false,
                            j,
                        );
                    assert(key_of_line(lines[i], idxs, ws) != key_of_line(lines[j], idxs, ws));
                } else {
                    assert(ks[p] == rest[p - 1] && ks[q] == rest[q - 1]);
                }
            }
        } else {
            assert(ks == rest);
            assert forall|p: int| 0 <= p < ks.len() implies kept_elem_ok(
                lines,
                idxs,
                ws,
                i,
                #[trigger] ks[p],
            ) by {
                assert(ks[p] == rest[p]);
                assert(kept_elem_ok(lines, idxs, ws, i + 1, rest[p]));
                lemma_kept_elem_weaken(lines, idxs, ws, i, rest[p]);
            }
        }
    }
}


proof fn lemma_kept_sorted_adjacent(lines: Seq<Seq<u8>>, idxs: Seq<usize>, ws: bool, i: int)
    requires
        0 <= i,
    ensures
        adjacent_keys_distinct(kept_from(lines, idxs, ws, true, i), idxs, ws),
        (0 < i && i <= lines.len() && kept_from(lines, idxs, ws, true, i).len() > 0)
            ==> key_of_line(kept_from(lines, idxs, ws, true, i)[0], idxs, ws) != key_of_line(
            lines[i - 1],
            idxs,
            ws,
        ),
    decreases lines.len() - i,
{
    let ks = kept_from(lines, idxs, ws, true, i);
    if i < lines.len() {
        lemma_kept_sorted_adjacent(lines, idxs, ws, i + 1);
        let rest = kept_from(lines, idxs, ws, true, i + 1);
        if keep_at(lines, idxs, ws, true, i) {
            assert(ks == seq![lines[i]] + rest);
            assert(ks[0] == lines[i]);
            assert forall|p: int| 0 <= p < ks.len() - 1 implies key_of_line(
                #[trigger] ks[p],
                idxs,
                ws,
            ) != key_of_line(ks[p + 1], idxs, ws) by {
                if p == 0 {
                    assert(ks[1] == rest[0]);
                    assert(key_of_line(rest[0], idxs, ws) != key_of_line(lines[i], idxs, ws));
                } else {
                    assert(ks[p] == rest[p - 1] && ks[p + 1] == rest[p]);
                }
            }
        } else {
            assert(ks == rest);
            assert(0 < i && key_of_line(lines[i - 1], idxs, ws) == key_of_line(
                lines[i],
                idxs,
                ws,
            ));
        }
    }
}

proof fn lemma_kept_wf(lines: Seq<Seq<u8>>, idxs: Seq<usize>, ws: bool, sorted: bool, i: int)
    requires
        crate::records::wf_lines(lines),
        0 <= i,
    ensures
        crate::records::wf_lines(kept_from(lines, idxs, ws, sorted, i)),
        kept_from(lines, idxs, ws, sorted, i).len() > 0 ==> i < lines.len(),
    decreases lines.len() - i,
{
    let ks = kept_from(lines, idxs, ws, sorted, i);
    if i < lines.len() {
        lemma_kept_wf(lines, idxs, ws, sorted, i + 1);
        let rest = kept_from(lines, idxs, ws, sorted, i + 1);
        if keep_at(lines, idxs, ws, sorted, i) {
            assert(ks == seq![lines[i]] + rest);
            assert(crate::records::wf_line(ks[0]));
            assert forall|p: int| 0 <= p < ks.len() implies crate::records::wf_line(
                #[trigger] ks[p],
            ) by {
                if p > 0 {
                    assert(ks[p] == rest[p - 1]);
                }
            }
            assert forall|p: int| 0 <= p < ks.len() - 1 implies crate::records::terminated(
                #[trigger] ks[p],
            ) by {
                if p == 0 {
                    assert(rest.len() > 0);
                    assert(i + 1 < lines.len());
                    assert(crate::records::terminated(lines[i]));
                } else {
                    assert(ks[p] == rest[p - 1] && p - 1 < rest.len() - 1);
                }
            }
        } else {
            assert(ks == rest);
        }
    }
}

proof fn lemma_filter_keeps_all(ls: Seq<Seq<u8>>, idxs: Seq<usize>, ws: bool, sorted: bool, i: int)
    requires
        sorted ==> adjacent_keys_distinct(ls, idxs, ws),
        !sorted ==> all_keys_distinct(ls, idxs, ws),
        0 <= i <= ls.len(),
    ensures
        kept_from(ls, idxs, ws, sorted, i) =~= ls.skip(i),
    decreases ls.len() - i,
{
    if i < ls.len() {
        if sorted {
            assert(keep_at(ls, idxs, ws, sorted, i));
        } else {
            assert forall|j: int| 0 <= j < i implies key_of_line(#[trigger] ls[j], idxs, ws)
                != key_of_line(ls[i], idxs, ws) by {
                assert(0 <= j < i < ls.len());
            }
            assert(keep_at(ls, idxs, ws, sorted, i));
        }
        lemma_filter_keeps_all(ls, idxs, ws, sorted, i + 1);
        assert(seq![ls[i]] + ls.skip(i + 1) =~= ls.skip(i));
    } else {
        assert(ls.skip(i) =~= Seq::<Seq<u8>>::empty());
    }
}

/// Running the engine on its own output, in either mode, gives that
/// output back unchanged: one run leaves no further duplicates.
pub proof fn lemma_run_idempotent(data: Seq<u8>, idxs: Seq<usize>, ws: bool, sorted: bool)
    ensures
        spec_run(spec_run(data, idxs, ws, sorted), idxs, ws, sorted) == spec_run(
            data,
            idxs,
            ws,
            sorted,
        ),
{
    let lines = lines_of(data);
    let kept = kept_from(lines, idxs, ws, sorted, 0);
    crate::records::lemma_lines_of_wf(data);
    lemma_kept_wf(lines, idxs, ws, sorted, 0);
    crate::records::lemma_lines_of_concat(kept);
    if sorted {
        lemma_kept_sorted_adjacent(lines, idxs, ws, 0);
    } else {
        lemma_kept_unsorted_distinct(lines, idxs, ws, 0);
    }
    lemma_filter_keeps_all(kept, idxs, ws, sorted, 0);
    assert(kept.skip(0) =~= kept);
    assert(lines_of(concat_all(kept)) == kept);
}

} // verus!
