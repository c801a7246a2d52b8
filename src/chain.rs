//! Chains: a header naming two aligned spans, and the records between them.

use vstd::prelude::*;
use vstd::utf8::*;
use crate::align::{body_error, body_records, AlignmentRecord};
use crate::error::{fails_with, ChainError, ErrorView};
use crate::text::{
    bytes_to_vec, fields, find_byte, lemma_first_index, lemma_no_byte, number_field, parse_u32, parse_u64,
    string_from_utf8, NEWLINE, SPACE,
};

verus! {

/// One side of a chain: a sequence label, its length, the strand and the
/// half-open span `[start, end)` that the chain covers.
#[derive(Debug, Clone)]
pub struct ChainHead {
    pub chr: String,
    pub size: u64,
    pub strand: char,
    pub start: u64,
    pub end: u64,
}

/// The mathematical value of a `ChainHead`.
pub struct HeadView {
    pub chr: Seq<char>,
    pub size: u64,
    pub strand: char,
    pub start: u64,
    pub end: u64,
}

impl View for ChainHead {
    type V = HeadView;

    open spec fn view(&self) -> HeadView {
        HeadView {
            chr: self.chr@,
            size: self.size,
            strand: self.strand,
            start: self.start,
            end: self.end,
        }
    }
}

impl HeadView {
    /// A non-empty sequence, a known strand, and a span inside the sequence.
    pub open spec fn wf(self) -> bool {
        &&& self.size > 0
        &&& self.strand == '+' || self.strand == '-'
        &&& self.start <= self.end <= self.size
    }
}

/// A chain: a score, the reference and query sides, its records and its id.
#[derive(Debug, Clone)]
pub struct Chain {
    pub score: u64,
    pub refs: ChainHead,
    pub query: ChainHead,
    pub alignment: Vec<AlignmentRecord>,
    pub id: u32,
}

/// The mathematical value of a `Chain`.
pub struct ChainView {
    pub score: u64,
    pub refs: HeadView,
    pub query: HeadView,
    pub alignment: Seq<AlignmentRecord>,
    pub id: u32,
}

impl View for Chain {
    type V = ChainView;

    open spec fn view(&self) -> ChainView {
        ChainView {
            score: self.score,
            refs: self.refs@,
            query: self.query@,
            alignment: self.alignment@,
            id: self.id,
        }
    }
}

/// Bases that the first `k` records advance on the reference side.
pub open spec fn ref_advance(a: Seq<AlignmentRecord>, k: int) -> nat
    decreases k,
{
    if k <= 0 {
        0
    } else {
        ref_advance(a, k - 1) + a[k - 1].size as nat + a[k - 1].dt as nat
    }
}

/// Bases that the first `k` records advance on the query side.
pub open spec fn query_advance(a: Seq<AlignmentRecord>, k: int) -> nat
    decreases k,
{
    if k <= 0 {
        0
    } else {
        query_advance(a, k - 1) + a[k - 1].size as nat + a[k - 1].dq as nat
    }
}

pub proof fn lemma_advance_monotone(a: Seq<AlignmentRecord>, j: int, k: int)
    requires
        0 <= j <= k,
    ensures
        ref_advance(a, j) <= ref_advance(a, k),
        query_advance(a, j) <= query_advance(a, k),
    decreases k - j,
{
    if j < k {
        lemma_advance_monotone(a, j, k - 1);
    }
}

/// Records that end with the terminal one and hold it there alone, and whose
/// sizes and gaps add up to both spans.
pub open spec fn records_fit(
    a: Seq<AlignmentRecord>,
    refs: HeadView,
    query: HeadView,
) -> bool {
    &&& a.len() > 0
    &&& a.last().is_last
    &&& a.last().dt == 0
    &&& a.last().dq == 0
    &&& forall|i: int| 0 <= i < a.len() - 1 ==> !(#[trigger] a[i]).is_last
    &&& ref_advance(a, a.len() as int) == refs.end - refs.start
    &&& query_advance(a, a.len() as int) == query.end - query.start
}

impl Chain {
    /// Both sides well formed and the records consistent with their spans.
    pub open spec fn wf(&self) -> bool {
        &&& self.refs@.wf()
        &&& self.query@.wf()
        &&& records_fit(self.alignment@, self.refs@, self.query@)
    }
}

/// The strand that a field of a header names.
pub open spec fn strand_field(f: Seq<u8>) -> Option<char> {
    if f == seq![43u8] {
        Some('+')
    } else if f == seq![45u8] {
        Some('-')
    } else {
        None
    }
}

/// The side that the five fields `chr size strand start end` describe, where
/// they describe one.
pub open spec fn head_of_fields(f: Seq<Seq<u8>>) -> Option<HeadView> {
    if f.len() == 5 && valid_utf8(f[0]) && number_field(f[1], u64::MAX as nat) is Some
        && strand_field(f[2]) is Some && number_field(f[3], u64::MAX as nat) is Some
        && number_field(f[4], u64::MAX as nat) is Some {
        let h = HeadView {
            chr: decode_utf8(f[0]),
            size: number_field(f[1], u64::MAX as nat)->0 as u64,
            strand: strand_field(f[2])->0,
            start: number_field(f[3], u64::MAX as nat)->0 as u64,
            end: number_field(f[4], u64::MAX as nat)->0 as u64,
        };
        if h.wf() {
            Some(h)
        } else {
            None
        }
    } else {
        None
    }
}

/// The bytes of the keyword that opens a header line.
pub open spec fn chain_word() -> Seq<u8> {
    seq![99u8, 104u8, 97u8, 105u8, 110u8]
}

/// A header line without the newline that may end it.
pub open spec fn strip_newline(s: Seq<u8>) -> Seq<u8> {
    if s.len() > 0 && s.last() == NEWLINE {
        s.drop_last()
    } else {
        s
    }
}

/// What a header line holds: score, reference side, query side and id.
pub struct HeaderView {
    pub score: u64,
    pub refs: HeadView,
    pub query: HeadView,
    pub id: u32,
}

/// The content of the header line `line`
/// (`chain score refChr refSize refStrand refStart refEnd qChr qSize qStrand
/// qStart qEnd id`, separated by single spaces), where it is one.
pub open spec fn header_of(line: Seq<u8>) -> Option<HeaderView> {
    let t = fields(strip_newline(line), SPACE);
    if t.len() == 13 && t[0] == chain_word() && number_field(t[1], u64::MAX as nat) is Some
        && head_of_fields(t.subrange(2, 7)) is Some && head_of_fields(t.subrange(7, 12)) is Some
        && number_field(t[12], u32::MAX as nat) is Some {
        Some(
            HeaderView {
                score: number_field(t[1], u64::MAX as nat)->0 as u64,
                refs: head_of_fields(t.subrange(2, 7))->0,
                query: head_of_fields(t.subrange(7, 12))->0,
                id: number_field(t[12], u32::MAX as nat)->0 as u32,
            },
        )
    } else {
        None
    }
}

/// The views of a sequence of byte slices.
pub open spec fn slice_views(s: Seq<&[u8]>) -> Seq<Seq<u8>> {
    s.map_values(|t: &[u8]| t@)
}

/// Splits `line` at every space.
fn split_spaces<'a>(line: &'a [u8]) -> (r: Vec<&'a [u8]>)
    ensures
        slice_views(r@) == fields(line@, SPACE),
{
    let mut toks: Vec<&'a [u8]> = Vec::new();
    let mut rest: &'a [u8] = line;
    loop
        invariant
            slice_views(toks@) + fields(rest@, SPACE) == fields(line@, SPACE),
        decreases rest@.len(),
    {
        let n = rest.len();
        match find_byte(SPACE, rest) {
            Some(i) => {
                proof {
                    lemma_first_index(rest@, SPACE, i as int);
                }
                let tok = vstd::slice::slice_subrange(rest, 0, i);
                let next = vstd::slice::slice_subrange(rest, i + 1, n);
                assert(tok@ =~= rest@.take(i as int));
                assert(next@ =~= rest@.skip(i as int + 1));
                let ghost before = toks@;
                toks.push(tok);
                assert(slice_views(toks@) =~= slice_views(before) + seq![tok@]);
                assert(slice_views(toks@) + fields(next@, SPACE) =~= slice_views(before) + fields(
                    rest@,
                    SPACE,
                ));
                rest = next;
            },
            None => {
                proof {
                    lemma_no_byte(rest@, SPACE);
                }
                let ghost before = toks@;
                toks.push(rest);
                assert(slice_views(toks@) =~= slice_views(before) + fields(rest@, SPACE));
                return toks;
            },
        }
    }
}

fn parse_strand(f: &[u8]) -> (r: Option<char>)
    ensures
        r == strand_field(f@),
{
    if f.len() == 1 && f[0] == 43 {
        assert(f@ =~= seq![43u8]);
        Some('+')
    } else if f.len() == 1 && f[0] == 45 {
        assert(f@ =~= seq![45u8]);
        Some('-')
    } else {
        assert(f@ != seq![43u8] && f@ != seq![45u8]) by {
            if f@.len() == 1 {
                assert(f@[0] == f[0]);
            }
        }
        None
    }
}

/// Reads one side of a header from its five fields.
fn read_head(header: &[&[u8]]) -> (r: Option<ChainHead>)
    ensures
        match head_of_fields(slice_views(header@)) {
            Some(h) => r matches Some(x) && x@ == h,
            None => r is None,
        },
{
        let ghost f = slice_views(header@);
        if header.len() != 5 {
            return None;
        }
        assert(f[0] == header@[0]@ && f[1] == header@[1]@ && f[2] == header@[2]@ && f[3]
            == header@[3]@ && f[4] == header@[4]@);
        let chr = match string_from_utf8(bytes_to_vec(header[0])) {
            Some(s) => s,
            None => {
                return None;
            },
        };
        let size = match parse_u64(header[1]) {
            Some(v) => v,
            None => {
                return None;
            },
        };
        let strand = match parse_strand(header[2]) {
            Some(c) => c,
            None => {
                return None;
            },
        };
        let start = match parse_u64(header[3]) {
            Some(v) => v,
            None => {
                return None;
            },
        };
        let end = match parse_u64(header[4]) {
            Some(v) => v,
            None => {
                return None;
            },
        };
        if size == 0 || start > end || end > size {
            return None;
        }
        Some(ChainHead { chr, size, strand, start, end })
}

/// Fields joined by single spaces.
pub open spec fn joined(f: Seq<Seq<u8>>, k: int) -> Seq<u8>
    decreases k,
{
    if k <= 0 {
        Seq::empty()
    } else if k == 1 {
        f[0]
    } else {
        joined(f, k - 1) + seq![SPACE] + f[k - 1]
    }
}

fn join_fields(parts: &[&[u8]]) -> (r: Vec<u8>)
    ensures
        r@ == joined(slice_views(parts@), parts@.len() as int),
{
    let ghost f = slice_views(parts@);
    let mut out: Vec<u8> = Vec::new();
    let mut i: usize = 0;
    while i < parts.len()
        invariant
            i <= parts@.len(),
            f == slice_views(parts@),
            out@ == joined(f, i as int),
        decreases parts@.len() - i,
    {
        if i > 0 {
            out.push(SPACE);
        }
        let p = parts[i];
        let mut j: usize = 0;
        let ghost before = out@;
        while j < p.len()
            invariant
                j <= p@.len(),
                out@ == before + p@.take(j as int),
            decreases p@.len() - j,
        {
            out.push(p[j]);
            j = j + 1;
            assert(out@ =~= before + p@.take(j as int));
        }
        assert(p@.take(j as int) =~= p@);
        assert(f[i as int] == p@);
        i = i + 1;
        assert(out@ =~= joined(f, i as int));
    }
    out
}

impl ChainHead {
    /// Reads one side of a header from its five fields
    /// `chr size strand start end`; the error carries the fields joined by
    /// spaces.
    pub fn from(header: &[&[u8]]) -> (r: Result<Self, ChainError>)
        ensures
            match head_of_fields(slice_views(header@)) {
                Some(h) => r matches Ok(x) && x@ == h,
                None => fails_with(
                    r,
                    ErrorView::MalformedHeader(joined(slice_views(header@), header@.len() as int)),
                ),
            },
    {
        match read_head(header) {
            Some(h) => Ok(h),
            None => Err(ChainError::MalformedHeader { line: join_fields(header) }),
        }
    }
}

/// Checks that the records fit the two spans.
fn check_records(
    a: &Vec<AlignmentRecord>,
    refs: &ChainHead,
    query: &ChainHead,
) -> (r: bool)
    requires
        refs@.wf(),
        query@.wf(),
    ensures
        r == records_fit(a@, refs@, query@),
{
    let n = a.len();
    if n == 0 {
        return false;
    }
    if !a[n - 1].is_last || a[n - 1].dt != 0 || a[n - 1].dq != 0 {
        return false;
    }
    let rspan: u64 = refs.end - refs.start;
    let qspan: u64 = query.end - query.start;
    let mut racc: u64 = 0;
    let mut qacc: u64 = 0;
    let mut i: usize = 0;
    while i < n
        invariant
            n == a@.len(),
            n > 0,
            i <= n,
            racc as nat == ref_advance(a@, i as int),
            qacc as nat == query_advance(a@, i as int),
            racc <= rspan,
            qacc <= qspan,
            rspan == refs.end - refs.start,
            qspan == query.end - query.start,
            forall|j: int| 0 <= j < i && j < n - 1 ==> !(#[trigger] a@[j]).is_last,
        decreases n - i,
    {
        let rec = a[i];
        if i < n - 1 && rec.is_last {
            return false;
        }
        let rstep: u64 = rec.size as u64 + rec.dt as u64;
        let qstep: u64 = rec.size as u64 + rec.dq as u64;
        if rstep > rspan - racc || qstep > qspan - qacc {
            proof {
                lemma_advance_monotone(a@, i as int + 1, n as int);
            }
            return false;
        }
        racc = racc + rstep;
        qacc = qacc + qstep;
        i = i + 1;
    }
    racc == rspan && qacc == qspan
}

impl Chain {
    /// Reads a header line into its score, its two sides and its id.
    pub fn head(header: &[u8]) -> (r: Result<(u64, ChainHead, ChainHead, u32), ChainError>)
        ensures
            match header_of(header@) {
                Some(h) => r matches Ok((score, refs, query, id)) && score == h.score && refs@
                    == h.refs && query@ == h.query && id == h.id,
                None => fails_with(r, ErrorView::MalformedHeader(header@)),
            },
    {
        let n = header.len();
        let line = if n > 0 && header[n - 1] == NEWLINE {
            vstd::slice::slice_subrange(header, 0, n - 1)
        } else {
            header
        };
        assert(line@ =~= strip_newline(header@));
        let toks = split_spaces(line);
        let ghost t = slice_views(toks@);
        if toks.len() != 13 {
            return Err(ChainError::MalformedHeader { line: bytes_to_vec(header) });
        }
        assert(t[0] == toks@[0]@ && t[1] == toks@[1]@ && t[12] == toks@[12]@);
        let w = toks[0];
        if !(w.len() == 5 && w[0] == 99 && w[1] == 104 && w[2] == 97 && w[3] == 105 && w[4]
            == 110) {
            assert(w@ != chain_word()) by {
                if w@ == chain_word() {
                    assert(w@[0] == w[0] && w@[1] == w[1] && w@[2] == w[2] && w@[3] == w[3]
                        && w@[4] == w[4]);
                }
            }
            return Err(ChainError::MalformedHeader { line: bytes_to_vec(header) });
        }
        assert(w@ =~= chain_word());
        let score = match parse_u64(toks[1]) {
            Some(v) => v,
            None => {
                return Err(ChainError::MalformedHeader { line: bytes_to_vec(header) });
            },
        };
        let all = toks.as_slice();
        let rf = vstd::slice::slice_subrange(all, 2, 7);
        let qf = vstd::slice::slice_subrange(all, 7, 12);
        assert(slice_views(rf@) =~= t.subrange(2, 7));
        assert(slice_views(qf@) =~= t.subrange(7, 12));
        let refs = match read_head(rf) {
            Some(h) => h,
            None => {
                return Err(ChainError::MalformedHeader { line: bytes_to_vec(header) });
            },
        };
        let query = match read_head(qf) {
            Some(h) => h,
            None => {
                return Err(ChainError::MalformedHeader { line: bytes_to_vec(header) });
            },
        };
        let id = match parse_u32(toks[12]) {
            Some(v) => v,
            None => {
                return Err(ChainError::MalformedHeader { line: bytes_to_vec(header) });
            },
        };
        Ok((score, refs, query, id))
    }

    /// Builds a chain from its header line and its body, and hands back its
    /// id beside it.
    pub fn from(head: &[u8], block: &[u8]) -> (r: Result<(u32, Chain), ChainError>)
        ensures
            match parse_chain(head@, block@) {
                Ok(v) => r matches Ok((id, c)) && id == v.id && c@ == v && c.wf(),
                Err(e) => fails_with(r, e),
            },
    {
        let (score, refs, query, id) = match Chain::head(head) {
            Ok(x) => x,
            Err(e) => {
                return Err(e);
            },
        };
        let alignment = match AlignmentRecord::parse_body(block) {
            Ok(v) => v,
            Err(e) => {
                return Err(e);
            },
        };
        if !check_records(&alignment, &refs, &query) {
            return Err(ChainError::MalformedRecord { line: bytes_to_vec(block) });
        }
        Ok((id, Chain { score, refs, query, alignment, id }))
    }
}

impl ChainHead {
    /// Whether the side is well formed: a non-empty sequence, a known strand
    /// and a span inside the sequence.
    pub fn is_valid(&self) -> (r: bool)
        ensures
            r == self@.wf(),
    {
        self.size > 0 && (self.strand == '+' || self.strand == '-') && self.start <= self.end
            && self.end <= self.size
    }
}

impl Chain {
    /// Whether the chain is well formed: both sides valid and the records
    /// consistent with the spans.
    pub fn is_well_formed(&self) -> (r: bool)
        ensures
            r == self.wf(),
    {
        if !self.refs.is_valid() || !self.query.is_valid() {
            return false;
        }
        check_records(&self.alignment, &self.refs, &self.query)
    }
}

/// The chain that a header line and a body describe, where both are well
/// formed and fit together; otherwise the error for the first part that is
/// not.
/// The errors carry the header line, the body line that breaks the body's
/// shape, or the whole body where its records do not fit the spans.
pub open spec fn parse_chain(head: Seq<u8>, block: Seq<u8>) -> Result<ChainView, ErrorView> {
    match header_of(head) {
        None => Err(ErrorView::MalformedHeader(head)),
        Some(h) => match body_records(block) {
            Some(a) => if records_fit(a, h.refs, h.query) {
                Ok(ChainView { score: h.score, refs: h.refs, query: h.query, alignment: a, id: h.id })
            } else {
                Err(ErrorView::MalformedRecord(block))
            },
            None => Err(ErrorView::MalformedRecord(body_error(block))),
        },
    }
}

/// Copies a chain.
pub fn copy_chain(c: &Chain) -> (r: Chain)
    ensures
        r@ == c@,
{
    let mut a: Vec<AlignmentRecord> = Vec::new();
    let mut i: usize = 0;
    while i < c.alignment.len()
        invariant
            i <= c.alignment@.len(),
            a@ == c.alignment@.take(i as int),
        decreases c.alignment@.len() - i,
    {
        a.push(c.alignment[i]);
        i = i + 1;
        assert(a@ =~= c.alignment@.take(i as int));
    }
    assert(c.alignment@.take(i as int) =~= c.alignment@);
    Chain {
        score: c.score,
        refs: ChainHead {
            chr: c.refs.chr.clone(),
            size: c.refs.size,
            strand: c.refs.strand,
            start: c.refs.start,
            end: c.refs.end,
        },
        query: ChainHead {
            chr: c.query.chr.clone(),
            size: c.query.size,
            strand: c.query.strand,
            start: c.query.start,
            end: c.query.end,
        },
        alignment: a,
        id: c.id,
    }
}

} // verus!
