//! The byte-offset index: where each chain of a file starts and ends, as a
//! side file of `id\tstart\tend` lines, and random access through it.

use vstd::prelude::*;
use std::collections::HashMap;
use crate::align::{after_line, line_of};
use crate::chain::{parse_chain, Chain, ChainView};
use crate::error::{fails_with, ChainError, ErrorView};
use crate::reader::{
    file_spans, header_bytes, id_token, span_of, spans_error, spans_ok, split_chains, Span,
};
use crate::text::{
    bytes_to_vec, decimal, fields, find_byte, first_index, has_byte, lemma_fields_nonempty, lemma_first_index,
    lemma_no_byte, number_field, parse_u64, push_decimal, NEWLINE, TAB,
};

verus! {

broadcast use vstd::std_specs::hash::group_hash_axioms;

/// One entry of the index: a chain id, and the half-open byte range of the
/// chain in its file.
pub open spec fn entry_of(s: Seq<u8>, sp: Span) -> Option<(u64, int, int)> {
    match id_token(header_bytes(s, sp)) {
        Some(t) => match number_field(t, u64::MAX as nat) {
            Some(id) => Some((id as u64, sp.start, sp.next)),
            None => None,
        },
        None => None,
    }
}

/// The entries of the first `k` chains; None where a header has no id.
pub open spec fn entries_upto(s: Seq<u8>, sp: Seq<Span>, k: int) -> Option<Seq<(u64, int, int)>>
    decreases k,
{
    if k <= 0 {
        Some(Seq::empty())
    } else {
        match entries_upto(s, sp, k - 1) {
            Some(v) => match entry_of(s, sp[k - 1]) {
                Some(x) => Some(v.push(x)),
                None => None,
            },
            None => None,
        }
    }
}

/// The header at which indexing the first `k` chains fails.
pub open spec fn entries_error(s: Seq<u8>, sp: Seq<Span>, k: int) -> Seq<u8>
    decreases k,
{
    if k <= 0 {
        Seq::empty()
    } else if entries_upto(s, sp, k - 1) is None {
        entries_error(s, sp, k - 1)
    } else {
        header_bytes(s, sp[k - 1])
    }
}

proof fn lemma_entries_none(s: Seq<u8>, sp: Seq<Span>, j: int, k: int)
    requires
        0 <= j <= k,
        entries_upto(s, sp, j) is None,
    ensures
        entries_upto(s, sp, k) is None,
        entries_error(s, sp, k) == entries_error(s, sp, j),
    decreases k - j,
{
    if j < k {
        lemma_entries_none(s, sp, j, k - 1);
    }
}

/// Where indexing a file fails: the text of a header with no newline, or
/// the first header line with no numeric id at its end.
pub open spec fn index_error(s: Seq<u8>) -> Seq<u8> {
    match file_spans(s) {
        Some(sp) => entries_error(s, sp, sp.len() as int),
        None => spans_error(s, 0),
    }
}

/// The index of a file: one entry per chain, in file order.
pub open spec fn file_index(s: Seq<u8>) -> Option<Seq<(u64, int, int)>> {
    match file_spans(s) {
        Some(sp) => entries_upto(s, sp, sp.len() as int),
        None => None,
    }
}

pub open spec fn entry_view(t: (u64, usize, usize)) -> (u64, int, int) {
    (t.0, t.1 as int, t.2 as int)
}

/// One line of the index file.
pub open spec fn index_line(e: (u64, int, int)) -> Seq<u8> {
    decimal(e.0 as nat) + seq![TAB] + decimal(e.1 as nat) + seq![TAB] + decimal(e.2 as nat)
        + seq![NEWLINE]
}

/// The index file of the first `k` entries.
pub open spec fn index_text_upto(v: Seq<(u64, int, int)>, k: int) -> Seq<u8>
    decreases k,
{
    if k <= 0 {
        Seq::empty()
    } else {
        index_text_upto(v, k - 1) + index_line(v[k - 1])
    }
}

/// Three tab-separated numbers.
pub open spec fn triple_field(line: Seq<u8>) -> Option<(u64, u64, u64)> {
    let f = fields(line, TAB);
    if f.len() == 3 && number_field(f[0], u64::MAX as nat) is Some && number_field(
        f[1],
        u64::MAX as nat,
    ) is Some && number_field(f[2], u64::MAX as nat) is Some {
        Some(
            (
                number_field(f[0], u64::MAX as nat)->0 as u64,
                number_field(f[1], u64::MAX as nat)->0 as u64,
                number_field(f[2], u64::MAX as nat)->0 as u64,
            ),
        )
    } else {
        None
    }
}

/// The lines of an index file, each `id\tstart\tend`; None where one is
/// not.
pub open spec fn index_lines(s: Seq<u8>) -> Option<Seq<(u64, u64, u64)>>
    decreases s.len(),
{
    if s.len() == 0 {
        Some(Seq::empty())
    } else {
        match triple_field(line_of(s)) {
            Some(t) => if after_line(s).len() < s.len() {
                match index_lines(after_line(s)) {
                    Some(rest) => Some(seq![t] + rest),
                    None => None,
                }
            } else {
                None
            },
            None => None,
        }
    }
}

/// The first line of an index file that is not `id\tstart\tend`.
pub open spec fn index_lines_error(s: Seq<u8>) -> Seq<u8>
    decreases s.len(),
{
    if s.len() == 0 {
        Seq::empty()
    } else if triple_field(line_of(s)) is Some {
        if after_line(s).len() < s.len() {
            index_lines_error(after_line(s))
        } else {
            Seq::empty()
        }
    } else {
        line_of(s)
    }
}

/// The map that the first `k` index lines give, kept to the ids asked for
/// unless `all`.
pub open spec fn index_map_upto(
    lines: Seq<(u64, u64, u64)>,
    ids: Seq<u64>,
    all: bool,
    k: int,
) -> Map<u64, (u64, u64)>
    decreases k,
{
    if k <= 0 {
        Map::empty()
    } else {
        let m = index_map_upto(lines, ids, all, k - 1);
        let t = lines[k - 1];
        if all || ids.contains(t.0) {
            m.insert(t.0, (t.1, t.2))
        } else {
            m
        }
    }
}

/// Splits a line of three tab-separated numbers.
fn parse_triple(line: &[u8]) -> (r: Option<(u64, u64, u64)>)
    ensures
        r == triple_field(line@),
{
    let n = line.len();
    let t1 = match find_byte(TAB, line) {
        Some(i) => i,
        None => {
            proof {
                lemma_no_byte(line@, TAB);
            }
            return None;
        },
    };
    proof {
        lemma_first_index(line@, TAB, t1 as int);
    }
    let rest1 = vstd::slice::slice_subrange(line, t1 + 1, n);
    assert(rest1@ =~= line@.skip(t1 as int + 1));
    let f0 = vstd::slice::slice_subrange(line, 0, t1);
    assert(f0@ =~= line@.take(t1 as int));
    let n1 = rest1.len();
    let t2 = match find_byte(TAB, rest1) {
        Some(i) => i,
        None => {
            proof {
                lemma_no_byte(rest1@, TAB);
                assert(fields(rest1@, TAB) =~= seq![rest1@]);
                assert(fields(line@, TAB).len() == 2);
            }
            return None;
        },
    };
    proof {
        lemma_first_index(rest1@, TAB, t2 as int);
    }
    let rest2 = vstd::slice::slice_subrange(rest1, t2 + 1, n1);
    assert(rest2@ =~= rest1@.skip(t2 as int + 1));
    let f1 = vstd::slice::slice_subrange(rest1, 0, t2);
    assert(f1@ =~= rest1@.take(t2 as int));
    match find_byte(TAB, rest2) {
        Some(t3) => {
            proof {
                lemma_first_index(rest2@, TAB, t3 as int);
                lemma_fields_nonempty(rest2@.skip(t3 as int + 1), TAB);
                assert(fields(rest2@, TAB).len() >= 2);
                assert(fields(rest1@, TAB).len() >= 3);
                assert(fields(line@, TAB).len() >= 4);
            }
            return None;
        },
        None => {
            proof {
                lemma_no_byte(rest2@, TAB);
            }
        },
    }
    assert(fields(rest2@, TAB) =~= seq![rest2@]);
    assert(fields(rest1@, TAB) =~= seq![f1@] + fields(rest2@, TAB));
    assert(fields(line@, TAB) =~= seq![f0@] + fields(rest1@, TAB));
    assert(fields(line@, TAB) =~= seq![f0@, f1@, rest2@]);
    match (parse_u64(f0), parse_u64(f1), parse_u64(rest2)) {
        (Some(a), Some(b), Some(c)) => Some((a, b, c)),
        _ => None,
    }
}

fn contains_u64(v: &Vec<u64>, k: u64) -> (r: bool)
    ensures
        r == v@.contains(k),
{
    let mut i: usize = 0;
    while i < v.len()
        invariant
            i <= v@.len(),
            forall|j: int| 0 <= j < i ==> v@[j] != k,
        decreases v@.len() - i,
    {
        if v[i] == k {
            assert(v@[i as int] == k);
            return true;
        }
        i = i + 1;
    }
    false
}

/// Builds, reads and uses the byte-offset index of a chain file.
pub struct BinaryIndex;

impl BinaryIndex {
    /// The index of a file's bytes: for each chain, its id (the last token of
    /// its header) and the range from its `chain` keyword to the next chain
    /// or the end of the file.
    pub fn index_entries(data: &[u8]) -> (r: Result<Vec<(u64, usize, usize)>, ChainError>)
        ensures
            match file_index(data@) {
                Some(v) => r matches Ok(w) && w@.map_values(|t: (u64, usize, usize)| entry_view(t))
                    == v,
                None => fails_with(r, ErrorView::MalformedHeader(index_error(data@))),
            },
    {
        let spans = match split_chains(data) {
            Ok(v) => v,
            Err(p) => {
                let rest = vstd::slice::slice_subrange(data, p, data.len());
                assert(rest@ =~= data@.skip(p as int));
                return Err(ChainError::MalformedHeader { line: bytes_to_vec(rest) });
            },
        };
        let ghost sp = file_spans(data@)->0;
        proof {
            crate::reader::lemma_file_spans_ok(data@);
        }
        let mut out: Vec<(u64, usize, usize)> = Vec::new();
        let mut k: usize = 0;
        while k < spans.len()
            invariant
                file_spans(data@) == Some(sp),
                spans_ok(data@, sp),
                spans@.len() == sp.len(),
                forall|i: int| 0 <= i < sp.len() ==> span_of(#[trigger] spans@[i]) == sp[i],
                k <= spans@.len(),
                entries_upto(data@, sp, k as int) == Some(
                    out@.map_values(|t: (u64, usize, usize)| entry_view(t)),
                ),
            decreases spans@.len() - k,
        {
            let (start, sep, _body_end, next) = spans[k];
            assert(span_of(spans@[k as int]) == sp[k as int]);
            let head = vstd::slice::slice_subrange(data, start, sep);
            assert(head@ == header_bytes(data@, sp[k as int]));
            let id = match crate::reader::header_id_token(head) {
                Some(t) => match parse_u64(t) {
                    Some(id) => id,
                    None => {
                        proof {
                            lemma_entries_none(data@, sp, k + 1, sp.len() as int);
                        }
                        return Err(ChainError::MalformedHeader { line: bytes_to_vec(head) });
                    },
                },
                None => {
                    proof {
                        lemma_entries_none(data@, sp, k + 1, sp.len() as int);
                    }
                    return Err(ChainError::MalformedHeader { line: bytes_to_vec(head) });
                },
            };
            let ghost before = out@;
            out.push((id, start, next));
            assert(out@.map_values(|t: (u64, usize, usize)| entry_view(t)) =~= before.map_values(
                |t: (u64, usize, usize)| entry_view(t),
            ).push(entry_view((id, start, next))));
            k = k + 1;
        }
        Ok(out)
    }

    /// The index file: one `id\tstart\tend` line per entry.
    pub fn index_text(entries: &Vec<(u64, usize, usize)>) -> (r: Vec<u8>)
        ensures
            r@ == index_text_upto(
                entries@.map_values(|t: (u64, usize, usize)| entry_view(t)),
                entries@.len() as int,
            ),
    {
        let ghost v = entries@.map_values(|t: (u64, usize, usize)| entry_view(t));
        let mut out: Vec<u8> = Vec::new();
        let mut k: usize = 0;
        while k < entries.len()
            invariant
                k <= entries@.len(),
                v == entries@.map_values(|t: (u64, usize, usize)| entry_view(t)),
                out@ == index_text_upto(v, k as int),
            decreases entries@.len() - k,
        {
            let (id, start, end) = entries[k];
            push_decimal(&mut out, id);
            out.push(TAB);
            push_decimal(&mut out, start as u64);
            out.push(TAB);
            push_decimal(&mut out, end as u64);
            out.push(NEWLINE);
            k = k + 1;
            assert(out@ =~= index_text_upto(v, k as int));
        }
        out
    }

    /// Reads an index file into a map from id to byte range, kept to the ids
    /// in `chains` unless `all`.
    pub fn read_index(text: &[u8], chains: &Vec<u64>, all: bool) -> (r: Result<
        HashMap<u64, (u64, u64)>,
        ChainError,
    >)
        ensures
            match index_lines(text@) {
                Some(lines) => r matches Ok(m) && m@ == index_map_upto(
                    lines,
                    chains@,
                    all,
                    lines.len() as int,
                ),
                None => fails_with(r, ErrorView::MalformedIndex(index_lines_error(text@))),
            },
    {
        let n = text.len();
        let mut out: HashMap<u64, (u64, u64)> = HashMap::new();
        let mut pos: usize = 0;
        let ghost mut done: Seq<(u64, u64, u64)> = Seq::empty();
        assert(text@.skip(0) =~= text@);
        while pos < n
            invariant
                n == text@.len(),
                pos <= n,
                index_lines_error(text@) == index_lines_error(text@.skip(pos as int)),
                index_lines(text@) == match index_lines(text@.skip(pos as int)) {
                    Some(rest) => Some(done + rest),
                    None => None::<Seq<(u64, u64, u64)>>,
                },
                out@ == index_map_upto(done, chains@, all, done.len() as int),
            decreases n - pos,
        {
            let ghost s = text@.skip(pos as int);
            let rest = vstd::slice::slice_subrange(text, pos, n);
            assert(rest@ =~= s);
            let (line, next) = match find_byte(NEWLINE, rest) {
                Some(i) => {
                    proof {
                        lemma_first_index(s, NEWLINE, i as int);
                    }
                    (vstd::slice::slice_subrange(rest, 0, i), pos + i + 1)
                },
                None => {
                    proof {
                        lemma_no_byte(s, NEWLINE);
                    }
                    (rest, n)
                },
            };
            assert(line@ =~= line_of(s));
            assert(text@.skip(next as int) =~= after_line(s));
            match parse_triple(line) {
                Some((id, a, b)) => {
                    let ghost old_done = done;
                    proof {
                        done = done.push((id, a, b));
                        assert(index_map_upto(done, chains@, all, done.len() - 1)
                            == index_map_upto(old_done, chains@, all, old_done.len() as int)) by {
                            lemma_index_map_prefix(old_done, done, chains@, all, old_done.len() as int);
                        }
                        match index_lines(after_line(s)) {
                            Some(tail) => {
                                assert(old_done + (seq![(id, a, b)] + tail) =~= done + tail);
                            },
                            None => {},
                        }
                    }
                    if all || contains_u64(chains, id) {
                        out.insert(id, (a, b));
                    }
                    pos = next;
                },
                None => {
                    return Err(ChainError::MalformedIndex { line: bytes_to_vec(line) });
                },
            }
        }
        assert(text@.skip(pos as int) =~= Seq::<u8>::empty());
        assert(done + Seq::<(u64, u64, u64)>::empty() =~= done);
        Ok(out)
    }

    /// The byte ranges of the chains `ids`, in order; fails, naming it, at
    /// the first id that the index lacks.
    pub fn ranges_for(index: &HashMap<u64, (u64, u64)>, ids: &Vec<u64>) -> (r: Result<
        Vec<(u64, u64)>,
        ChainError,
    >)
        ensures
            (forall|j: int| 0 <= j < ids@.len() ==> index@.contains_key(#[trigger] ids@[j]))
                ==> (r matches Ok(v) && v@.len() == ids@.len() && forall|j: int|
                0 <= j < ids@.len() ==> #[trigger] v@[j] == index@[ids@[j]]),
            (exists|j: int| 0 <= j < ids@.len() && !index@.contains_key(ids@[j])) ==> r is Err,
            r matches Err(e) ==> exists|j: int|
                0 <= j < ids@.len() && !index@.contains_key(ids@[j]) && (forall|i: int|
                    0 <= i < j ==> index@.contains_key(#[trigger] ids@[i])) && e == (
                ChainError::MissingChain { id: ids@[j] }),
    {
        let mut out: Vec<(u64, u64)> = Vec::new();
        let mut j: usize = 0;
        while j < ids.len()
            invariant
                j <= ids@.len(),
                out@.len() == j,
                forall|i: int| 0 <= i < j ==> #[trigger] out@[i] == index@[ids@[i]],
                forall|i: int| 0 <= i < j ==> index@.contains_key(#[trigger] ids@[i]),
            decreases ids@.len() - j,
        {
            let id = ids[j];
            match index.get(&id) {
                Some(x) => {
                    out.push(*x);
                },
                None => {
                    return Err(ChainError::MissingChain { id });
                },
            }
            j = j + 1;
        }
        Ok(out)
    }
}

proof fn lemma_index_map_prefix(
    a: Seq<(u64, u64, u64)>,
    b: Seq<(u64, u64, u64)>,
    ids: Seq<u64>,
    all: bool,
    k: int,
)
    requires
        0 <= k <= a.len() <= b.len(),
        forall|i: int| 0 <= i < a.len() ==> a[i] == b[i],
    ensures
        index_map_upto(a, ids, all, k) == index_map_upto(b, ids, all, k),
    decreases k,
{
    if k > 0 {
        lemma_index_map_prefix(a, b, ids, all, k - 1);
    }
}

/// The chain that a byte range of a file holds: its header runs to the first
/// newline, its body is the rest.
pub open spec fn parse_range(s: Seq<u8>) -> Result<ChainView, ErrorView> {
    if has_byte(s, NEWLINE) {
        let i = first_index(s, NEWLINE);
        parse_chain(s.take(i), s.skip(i + 1))
    } else {
        Err(ErrorView::MalformedHeader(s))
    }
}

impl Chain {
    /// Reads a chain from the bytes of its range in a file, as the index
    /// gives it.
    pub fn from_range(bytes: &[u8]) -> (r: Result<(u32, Chain), ChainError>)
        ensures
            match parse_range(bytes@) {
                Ok(v) => r matches Ok((id, c)) && id == v.id && c@ == v && c.wf(),
                Err(e) => fails_with(r, e),
            },
    {
        let n = bytes.len();
        match find_byte(NEWLINE, bytes) {
            Some(i) => {
                proof {
                    lemma_first_index(bytes@, NEWLINE, i as int);
                }
                let head = vstd::slice::slice_subrange(bytes, 0, i);
                let body = vstd::slice::slice_subrange(bytes, i + 1, n);
                assert(head@ =~= bytes@.take(i as int));
                assert(body@ =~= bytes@.skip(i as int + 1));
                Chain::from(head, body)
            },
            None => {
                proof {
                    lemma_no_byte(bytes@, NEWLINE);
                }
                Err(ChainError::MalformedHeader { line: bytes_to_vec(bytes) })
            },
        }
    }
}

} // verus!
