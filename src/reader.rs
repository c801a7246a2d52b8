//! Splitting a chain file into header and body slices, and reading it into
//! a `ChainMap`, whole or for chosen ids.

use vstd::prelude::*;
use vstd::utf8::*;
use crate::chain::{parse_chain, Chain, ChainView};
use crate::error::{fails_with, ChainError, ErrorView};
use crate::map::ChainMap;
use crate::text::{
    bytes_to_vec, find_byte, first_at, first_index, has_byte, last_at, lemma_first_index, lemma_no_byte,
    rfind_byte, NEWLINE, SPACE,
};

verus! {

broadcast use vstd::std_specs::hash::group_hash_axioms;

/// The byte that opens a `chain` keyword.
pub const CHAIN_START: u8 = 99;

/// Where one chain lies in a file: its header runs from `start` to the
/// newline at `sep`, its body from `sep + 1` to `body_end`, and the next
/// chain (or the end of the file) begins at `next`.
pub struct Span {
    pub start: int,
    pub sep: int,
    pub body_end: int,
    pub next: int,
}

pub open spec fn header_bytes(s: Seq<u8>, sp: Span) -> Seq<u8> {
    s.subrange(sp.start, sp.sep)
}

pub open spec fn body_bytes(s: Seq<u8>, sp: Span) -> Seq<u8> {
    s.subrange(sp.sep + 1, sp.body_end)
}

proof fn lemma_next_after_sep(s: Seq<u8>, p: int)
    requires
        0 <= p <= s.len(),
        has_byte(s.skip(p), NEWLINE),
    ensures
        ({
            let sep = p + first_index(s.skip(p), NEWLINE);
            p <= sep < s.len() && (has_byte(s.skip(sep), CHAIN_START) ==> sep + first_index(
                s.skip(sep),
                CHAIN_START,
            ) > sep)
        }),
{
    let i = first_index(s.skip(p), NEWLINE);
    assert(first_at(s.skip(p), NEWLINE, i));
    let sep = p + i;
    if has_byte(s.skip(sep), CHAIN_START) {
        let j = first_index(s.skip(sep), CHAIN_START);
        assert(first_at(s.skip(sep), CHAIN_START, j));
        assert(s.skip(sep)[0] == s.skip(p)[i]);
    }
}

/// The chains of `s` from position `p` on: each header runs to the first
/// newline, its body to the byte before the next `c` that follows it.
/// None where a header has no newline.
pub open spec fn spans_from(s: Seq<u8>, p: int) -> Option<Seq<Span>>
    decreases s.len() - p,
{
    if p < 0 || p > s.len() || !has_byte(s.skip(p), NEWLINE) {
        None
    } else {
        let sep = p + first_index(s.skip(p), NEWLINE);
        if !has_byte(s.skip(sep), CHAIN_START) {
            Some(seq![Span { start: p, sep: sep, body_end: s.len() as int, next: s.len() as int }])
        } else {
            let nx = sep + first_index(s.skip(sep), CHAIN_START);
            let sp = Span {
                start: p,
                sep: sep,
                body_end: if nx - 1 > sep + 1 {
                    nx - 1
                } else {
                    sep + 1
                },
                next: nx,
            };
            if nx > p {
                match spans_from(s, nx) {
                    Some(t) => Some(seq![sp] + t),
                    None => None,
                }
            } else {
                None
            }
        }
    }
}

/// Where splitting from `p` on stops, where it fails: the text from the
/// start of the first header that has no newline.
pub open spec fn spans_error(s: Seq<u8>, p: int) -> Seq<u8>
    decreases s.len() - p,
{
    if p < 0 || p > s.len() || !has_byte(s.skip(p), NEWLINE) {
        s.skip(p)
    } else {
        let sep = p + first_index(s.skip(p), NEWLINE);
        if !has_byte(s.skip(sep), CHAIN_START) {
            Seq::empty()
        } else {
            let nx = sep + first_index(s.skip(sep), CHAIN_START);
            if nx > p {
                spans_error(s, nx)
            } else {
                Seq::empty()
            }
        }
    }
}

/// The chains of a whole file.
pub open spec fn file_spans(s: Seq<u8>) -> Option<Seq<Span>> {
    spans_from(s, 0)
}

/// The spans as the splitter hands them out.
pub open spec fn span_of(t: (usize, usize, usize, usize)) -> Span {
    Span { start: t.0 as int, sep: t.1 as int, body_end: t.2 as int, next: t.3 as int }
}

/// Finds where each chain of `data` lies.
/// Where it fails, it hands back the position of the header that has no
/// newline.
pub fn split_chains(data: &[u8]) -> (r: Result<Vec<(usize, usize, usize, usize)>, usize>)
    ensures
        match file_spans(data@) {
            None => r matches Err(p) && p <= data@.len() && spans_error(data@, 0) == data@.skip(
                p as int,
            ),
            Some(sp) => r matches Ok(v) && v@.len() == sp.len() && forall|i: int|
                0 <= i < sp.len() ==> span_of(#[trigger] v@[i]) == sp[i],
        },
{
    let n = data.len();
    let mut out: Vec<(usize, usize, usize, usize)> = Vec::new();
    let mut p: usize = 0;
    loop
        invariant
            n == data@.len(),
            p <= n,
            spans_error(data@, 0) == spans_error(data@, p as int),
            file_spans(data@) == match spans_from(data@, p as int) {
                Some(t) => Some(out@.map_values(|x: (usize, usize, usize, usize)| span_of(x)) + t),
                None => None::<Seq<Span>>,
            },
        decreases n - p,
    {
        let rest = vstd::slice::slice_subrange(data, p, n);
        assert(rest@ =~= data@.skip(p as int));
        let i = match find_byte(NEWLINE, rest) {
            Some(i) => i,
            None => {
                proof {
                    lemma_no_byte(rest@, NEWLINE);
                }
                return Err(p);
            },
        };
        proof {
            lemma_first_index(rest@, NEWLINE, i as int);
            lemma_next_after_sep(data@, p as int);
        }
        let sep = p + i;
        let after = vstd::slice::slice_subrange(data, sep, n);
        assert(after@ =~= data@.skip(sep as int));
        let ghost before = out@;
        match find_byte(CHAIN_START, after) {
            None => {
                proof {
                    lemma_no_byte(after@, CHAIN_START);
                }
                out.push((p, sep, n, n));
                assert(out@.map_values(|x: (usize, usize, usize, usize)| span_of(x)) =~= before.map_values(
                    |x: (usize, usize, usize, usize)| span_of(x),
                ) + seq![span_of((p, sep, n, n))]);
                return Ok(out);
            },
            Some(j) => {
                proof {
                    lemma_first_index(after@, CHAIN_START, j as int);
                }
                let nx = sep + j;
                let body_end = if nx - 1 > sep + 1 {
                    nx - 1
                } else {
                    sep + 1
                };
                out.push((p, sep, body_end, nx));
                proof {
                    let m = |x: (usize, usize, usize, usize)| span_of(x);
                    assert(out@.map_values(m) =~= before.map_values(m) + seq![
                        span_of((p, sep, body_end, nx)),
                    ]);
                    match spans_from(data@, nx as int) {
                        Some(t) => {
                            assert(before.map_values(m) + (seq![span_of((p, sep, body_end, nx))]
                                + t) =~= out@.map_values(m) + t);
                        },
                        None => {},
                    }
                }
                p = nx;
            },
        }
    }
}

/// The chains read from the first `k` spans, each added under its id; the
/// first chain that fails to read fails the whole.
pub open spec fn chains_upto(s: Seq<u8>, sp: Seq<Span>, k: int) -> Result<
    Map<u32, ChainView>,
    ErrorView,
>
    decreases k,
{
    if k <= 0 {
        Ok(Map::empty())
    } else {
        match chains_upto(s, sp, k - 1) {
            Ok(m) => match parse_chain(header_bytes(s, sp[k - 1]), body_bytes(s, sp[k - 1])) {
                Ok(v) => Ok(m.insert(v.id, v)),
                Err(e) => Err(e),
            },
            Err(e) => Err(e),
        }
    }
}

proof fn lemma_chains_err(s: Seq<u8>, sp: Seq<Span>, j: int, k: int)
    requires
        0 <= j <= k,
        chains_upto(s, sp, j) is Err,
    ensures
        chains_upto(s, sp, k) == chains_upto(s, sp, j),
    decreases k - j,
{
    if j < k {
        lemma_chains_err(s, sp, j, k - 1);
    }
}

/// The chains of a whole file, keyed by id.
pub open spec fn parse_file(s: Seq<u8>) -> Result<Map<u32, ChainView>, ErrorView> {
    match file_spans(s) {
        None => Err(ErrorView::MalformedHeader(spans_error(s, 0))),
        Some(sp) => chains_upto(s, sp, sp.len() as int),
    }
}

/// The spans of a file lie inside it, in order.
pub open spec fn spans_ok(s: Seq<u8>, sp: Seq<Span>) -> bool {
    forall|i: int|
        0 <= i < sp.len() ==> 0 <= (#[trigger] sp[i]).start <= sp[i].sep < sp[i].sep + 1
            <= sp[i].body_end <= s.len()
}

proof fn lemma_spans_ok(s: Seq<u8>, p: int)
    requires
        0 <= p <= s.len(),
    ensures
        spans_from(s, p) matches Some(sp) ==> spans_ok(s, sp),
    decreases s.len() - p,
{
    if has_byte(s.skip(p), NEWLINE) {
        lemma_next_after_sep(s, p);
        let sep = p + first_index(s.skip(p), NEWLINE);
        if has_byte(s.skip(sep), CHAIN_START) {
            let nx = sep + first_index(s.skip(sep), CHAIN_START);
            assert(first_at(s.skip(sep), CHAIN_START, nx - sep));
            lemma_spans_ok(s, nx);
            if let Some(t) = spans_from(s, nx) {
                let sp = spans_from(s, p)->0;
                assert forall|i: int| 0 <= i < sp.len() implies 0 <= (#[trigger] sp[i]).start
                    <= sp[i].sep < sp[i].sep + 1 <= sp[i].body_end <= s.len() by {
                    if i > 0 {
                        assert(sp[i] == t[i - 1]);
                    }
                }
            }
        }
    }
}

pub struct Reader;

impl Reader {
    /// Reads every chain of a file's bytes into a `ChainMap`. Fails on the
    /// first chain that is not well formed.
    pub fn parse(data: &[u8]) -> (r: Result<ChainMap, ChainError>)
        ensures
            match parse_file(data@) {
                Ok(m) => r matches Ok(cm) && cm@ == m,
                Err(e) => fails_with(r, e),
            },
    {
        let spans = match split_chains(data) {
            Ok(v) => v,
            Err(p) => {
                let rest = vstd::slice::slice_subrange(data, p, data.len());
                assert(rest@ =~= data@.skip(p as int));
                return Err(ChainError::MalformedHeader { line: bytes_to_vec(rest) });
            },
        };
        let ghost sp = file_spans(data@)->0;
        proof {
            lemma_spans_ok(data@, 0);
        }
        let mut out = ChainMap::new();
        let mut k: usize = 0;
        while k < spans.len()
            invariant
                file_spans(data@) == Some(sp),
                spans_ok(data@, sp),
                spans@.len() == sp.len(),
                forall|i: int| 0 <= i < sp.len() ==> span_of(#[trigger] spans@[i]) == sp[i],
                k <= spans@.len(),
                chains_upto(data@, sp, k as int) == Ok::<Map<u32, ChainView>, ErrorView>(out@),
            decreases spans@.len() - k,
        {
            let (start, sep, body_end, _next) = spans[k];
            assert(span_of(spans@[k as int]) == sp[k as int]);
            let head = vstd::slice::slice_subrange(data, start, sep);
            let body = vstd::slice::slice_subrange(data, sep + 1, body_end);
            match Chain::from(head, body) {
                Ok((id, c)) => {
                    out.insert(id, c);
                },
                Err(e) => {
                    proof {
                        lemma_chains_err(data@, sp, k + 1, sp.len() as int);
                    }
                    return Err(e);
                },
            }
            k = k + 1;
        }
        Ok(out)
    }

    /// Same as `parse`.
    pub fn from_bytes(data: &[u8]) -> (r: Result<ChainMap, ChainError>)
        ensures
            match parse_file(data@) {
                Ok(m) => r matches Ok(cm) && cm@ == m,
                Err(e) => fails_with(r, e),
            },
    {
        Reader::parse(data)
    }
}

} // verus!

verus! {

/// The position of the last `c` in `s`, where there is one.
pub open spec fn last_index(s: Seq<u8>, c: u8) -> int {
    choose|i: int| last_at(s, c, i)
}

/// The id token of a header line: what follows its last space.
pub open spec fn id_token(h: Seq<u8>) -> Option<Seq<u8>> {
    if exists|i: int| last_at(h, SPACE, i) {
        Some(h.skip(last_index(h, SPACE) + 1))
    } else {
        None
    }
}

proof fn lemma_last_index(s: Seq<u8>, c: u8, i: int)
    requires
        last_at(s, c, i),
    ensures
        last_index(s, c) == i,
{
    let k = last_index(s, c);
    assert(last_at(s, c, k));
    if k < i {
        assert(s[i] != c);
    }
    if i < k {
        assert(s[k] != c);
    }
}

/// The id token of a header slice.
pub fn header_id_token(h: &[u8]) -> (r: Option<&[u8]>)
    ensures
        match id_token(h@) {
            Some(t) => r matches Some(x) && x@ == t,
            None => r is None,
        },
{
    let n = h.len();
    match rfind_byte(SPACE, h) {
        Some(i) => {
            proof {
                lemma_last_index(h@, SPACE, i as int);
            }
            let t = vstd::slice::slice_subrange(h, i + 1, n);
            assert(t@ =~= h@.skip(i as int + 1));
            Some(t)
        },
        None => {
            assert(!exists|i: int| last_at(h@, SPACE, i)) by {
                if exists|i: int| last_at(h@, SPACE, i) {
                    let i = choose|i: int| last_at(h@, SPACE, i);
                    assert(h@[i] == SPACE);
                }
            }
            None
        },
    }
}

fn bytes_eq(a: &[u8], b: &[u8]) -> (r: bool)
    ensures
        r == (a@ == b@),
{
    if a.len() != b.len() {
        return false;
    }
    let mut i: usize = 0;
    while i < a.len()
        invariant
            a@.len() == b@.len(),
            i <= a@.len(),
            forall|j: int| 0 <= j < i ==> a@[j] == b@[j],
        decreases a@.len() - i,
    {
        if a[i] != b[i] {
            return false;
        }
        i = i + 1;
    }
    assert(a@ =~= b@);
    true
}

/// The bytes of each requested id.
pub open spec fn id_texts(chains: Seq<&str>) -> Seq<Seq<u8>> {
    chains.map_values(|c: &str| encode_utf8(c@))
}

fn is_requested(tok: &[u8], chains: &Vec<&str>) -> (r: bool)
    ensures
        r == id_texts(chains@).contains(tok@),
{
    let mut j: usize = 0;
    while j < chains.len()
        invariant
            j <= chains@.len(),
            forall|i: int| 0 <= i < j ==> id_texts(chains@)[i] != tok@,
        decreases chains@.len() - j,
    {
        let b = chains[j].as_bytes();
        if bytes_eq(b, tok) {
            assert(id_texts(chains@)[j as int] == tok@);
            return true;
        }
        j = j + 1;
    }
    false
}

/// The requested chains among the first `k` spans.
pub open spec fn extract_upto(s: Seq<u8>, sp: Seq<Span>, ids: Seq<Seq<u8>>, k: int) -> Result<
    Map<u32, ChainView>,
    ErrorView,
>
    decreases k,
{
    if k <= 0 {
        Ok(Map::empty())
    } else {
        match extract_upto(s, sp, ids, k - 1) {
            Ok(m) => match id_token(header_bytes(s, sp[k - 1])) {
                None => Err(ErrorView::MalformedHeader(header_bytes(s, sp[k - 1]))),
                Some(t) => if ids.contains(t) {
                    match parse_chain(header_bytes(s, sp[k - 1]), body_bytes(s, sp[k - 1])) {
                        Ok(v) => Ok(m.insert(v.id, v)),
                        Err(e) => Err(e),
                    }
                } else {
                    Ok(m)
                },
            },
            Err(e) => Err(e),
        }
    }
}

proof fn lemma_extract_err(s: Seq<u8>, sp: Seq<Span>, ids: Seq<Seq<u8>>, j: int, k: int)
    requires
        0 <= j <= k,
        extract_upto(s, sp, ids, j) is Err,
    ensures
        extract_upto(s, sp, ids, k) == extract_upto(s, sp, ids, j),
    decreases k - j,
{
    if j < k {
        lemma_extract_err(s, sp, ids, j, k - 1);
    }
}

/// The chains of a file whose id token is one of `ids`; nothing where no id
/// is asked for.
pub open spec fn extract_file(s: Seq<u8>, ids: Seq<Seq<u8>>) -> Result<
    Map<u32, ChainView>,
    ErrorView,
> {
    if ids.len() == 0 {
        Ok(Map::empty())
    } else {
        match file_spans(s) {
            None => Err(ErrorView::MalformedHeader(spans_error(s, 0))),
            Some(sp) => extract_upto(s, sp, ids, sp.len() as int),
        }
    }
}

impl Reader {
    /// Reads only the chains whose id, as written at the end of the header
    /// line, is one of `chains`.
    pub fn extract_bytes(data: &[u8], chains: &Vec<&str>) -> (r: Result<ChainMap, ChainError>)
        ensures
            match extract_file(data@, id_texts(chains@)) {
                Ok(m) => r matches Ok(cm) && cm@ == m,
                Err(e) => fails_with(r, e),
            },
    {
        if chains.len() == 0 {
            let out = ChainMap::new();
            return Ok(out);
        }
        let ghost ids = id_texts(chains@);
        assert(ids.len() == chains@.len());
        let spans = match split_chains(data) {
            Ok(v) => v,
            Err(p) => {
                let rest = vstd::slice::slice_subrange(data, p, data.len());
                assert(rest@ =~= data@.skip(p as int));
                return Err(ChainError::MalformedHeader { line: bytes_to_vec(rest) });
            },
        };
        let ghost sp = file_spans(data@)->0;
        proof {
            lemma_spans_ok(data@, 0);
        }
        let mut out = ChainMap::new();
        let mut k: usize = 0;
        while k < spans.len()
            invariant
                file_spans(data@) == Some(sp),
                spans_ok(data@, sp),
                ids == id_texts(chains@),
                ids.len() > 0,
                spans@.len() == sp.len(),
                forall|i: int| 0 <= i < sp.len() ==> span_of(#[trigger] spans@[i]) == sp[i],
                k <= spans@.len(),
                extract_upto(data@, sp, ids, k as int) == Ok::<Map<u32, ChainView>, ErrorView>(
                    out@,
                ),
            decreases spans@.len() - k,
        {
            let (start, sep, body_end, _next) = spans[k];
            assert(span_of(spans@[k as int]) == sp[k as int]);
            let head = vstd::slice::slice_subrange(data, start, sep);
            assert(head@ == header_bytes(data@, sp[k as int]));
            let tok = match header_id_token(head) {
                Some(t) => t,
                None => {
                    proof {
                        lemma_extract_err(data@, sp, ids, k + 1, sp.len() as int);
                    }
                    return Err(ChainError::MalformedHeader { line: bytes_to_vec(head) });
                },
            };
            if is_requested(tok, chains) {
                let body = vstd::slice::slice_subrange(data, sep + 1, body_end);
                match Chain::from(head, body) {
                    Ok((id, c)) => {
                        out.insert(id, c);
                    },
                    Err(e) => {
                        proof {
                            lemma_extract_err(data@, sp, ids, k + 1, sp.len() as int);
                        }
                        return Err(e);
                    },
                }
            }
            k = k + 1;
        }
        Ok(out)
    }
}

pub proof fn lemma_file_spans_ok(s: Seq<u8>)
    ensures
        file_spans(s) matches Some(sp) ==> spans_ok(s, sp),
{
    lemma_spans_ok(s, 0);
}

pub proof fn lemma_last_index_pub(s: Seq<u8>, c: u8, i: int)
    requires
        last_at(s, c, i),
    ensures
        last_index(s, c) == i,
{
    lemma_last_index(s, c, i);
}

} // verus!
