//! The text of chains: header lines, record lines and their token views.

use vstd::prelude::*;
use vstd::utf8::*;
use crate::align::{record_text, AlignmentRecord};
use crate::chain::{chain_word, Chain, ChainHead, HeadView};
use crate::text::{
    all_digits, decimal, decimal_bytes, lemma_ascii_valid_utf8, lemma_decimal, push_decimal,
    string_from_utf8, NEWLINE, SPACE, TAB,
};

verus! {

broadcast use {encode_utf8_valid_utf8, encode_utf8_decode_utf8};

/// The byte that writes a well-formed side's strand, `+` or `-`.
pub open spec fn strand_byte(c: char) -> u8 {
    if c == '+' {
        43u8
    } else {
        45u8
    }
}

/// One side as text: `chr size strand start end`.
pub open spec fn head_text(h: HeadView) -> Seq<u8> {
    encode_utf8(h.chr) + seq![SPACE] + decimal(h.size as nat) + seq![SPACE] + seq![
        strand_byte(h.strand),
    ] + seq![SPACE] + decimal(h.start as nat) + seq![SPACE] + decimal(h.end as nat)
}

/// A header line, without its newline.
pub open spec fn header_text(score: u64, refs: HeadView, query: HeadView, id: u32) -> Seq<u8> {
    chain_word() + seq![SPACE] + decimal(score as nat) + seq![SPACE] + head_text(refs) + seq![
        SPACE,
    ] + head_text(query) + seq![SPACE] + decimal(id as nat)
}

/// The line that record `i` of `a` contributes: the full record with its
/// newline, or, for the last record, its size and the blank line that closes
/// the chain.
pub open spec fn record_out(a: Seq<AlignmentRecord>, i: int) -> Seq<u8> {
    if i == a.len() - 1 {
        decimal(a[i].size as nat) + seq![NEWLINE, NEWLINE]
    } else {
        record_text(a[i]) + seq![NEWLINE]
    }
}

/// The text of the first `k` records.
pub open spec fn records_prefix_text(a: Seq<AlignmentRecord>, k: int) -> Seq<u8>
    decreases k,
{
    if k <= 0 {
        Seq::empty()
    } else {
        records_prefix_text(a, k - 1) + record_out(a, k - 1)
    }
}

/// The body of a chain as text.
pub open spec fn alignment_text(a: Seq<AlignmentRecord>) -> Seq<u8> {
    records_prefix_text(a, a.len() as int)
}

/// A chain as text: its header line, then its body.
pub open spec fn chain_text(c: Chain) -> Seq<u8> {
    header_text(c.score, c.refs@, c.query@, c.id) + seq![NEWLINE] + alignment_text(c.alignment@)
}

/// The views of a sequence of strings.
pub open spec fn string_views(s: Seq<String>) -> Seq<Seq<char>> {
    s.map_values(|t: String| t@)
}

/// The five fields of a side, each as the characters of its text.
pub open spec fn head_tokens(h: HeadView) -> Seq<Seq<char>> {
    seq![
        h.chr,
        decode_utf8(decimal(h.size as nat)),
        decode_utf8(seq![strand_byte(h.strand)]),
        decode_utf8(decimal(h.start as nat)),
        decode_utf8(decimal(h.end as nat)),
    ]
}

/// Text with no byte of 128 or more.
pub open spec fn ascii_bytes(s: Seq<u8>) -> bool {
    forall|i: int| 0 <= i < s.len() ==> #[trigger] s[i] < 128
}

proof fn lemma_decimal_utf8(n: nat)
    ensures
        valid_utf8(decimal(n)),
{
    lemma_decimal(n);
    assert(forall|i: int| 0 <= i < decimal(n).len() ==> #[trigger] decimal(n)[i] < 128) by {
        assert(all_digits(decimal(n)));
    }
    lemma_ascii_valid_utf8(decimal(n));
}

proof fn lemma_small_utf8(s: Seq<u8>)
    requires
        ascii_bytes(s),
    ensures
        valid_utf8(s),
{
    lemma_ascii_valid_utf8(s);
}

proof fn lemma_space_utf8()
    ensures
        valid_utf8(seq![SPACE]),
        valid_utf8(seq![TAB]),
        valid_utf8(seq![NEWLINE]),
        valid_utf8(seq![NEWLINE, NEWLINE]),
        valid_utf8(chain_word()),
{
    lemma_small_utf8(seq![SPACE]);
    lemma_small_utf8(seq![TAB]);
    lemma_small_utf8(seq![NEWLINE]);
    lemma_small_utf8(seq![NEWLINE, NEWLINE]);
    lemma_small_utf8(chain_word());
}

proof fn lemma_head_text_utf8(h: HeadView)
    ensures
        valid_utf8(head_text(h)),
{
    lemma_decimal_utf8(h.size as nat);
    lemma_decimal_utf8(h.start as nat);
    lemma_decimal_utf8(h.end as nat);
    lemma_space_utf8();
    lemma_small_utf8(seq![strand_byte(h.strand)]);
    let sp = seq![SPACE];
    let a = encode_utf8(h.chr) + sp;
    valid_utf8_concat(encode_utf8(h.chr), sp);
    let b = a + decimal(h.size as nat);
    valid_utf8_concat(a, decimal(h.size as nat));
    let c = b + sp;
    valid_utf8_concat(b, sp);
    let d = c + seq![strand_byte(h.strand)];
    valid_utf8_concat(c, seq![strand_byte(h.strand)]);
    let e = d + sp;
    valid_utf8_concat(d, sp);
    let f = e + decimal(h.start as nat);
    valid_utf8_concat(e, decimal(h.start as nat));
    let g = f + sp;
    valid_utf8_concat(f, sp);
    valid_utf8_concat(g, decimal(h.end as nat));
}

proof fn lemma_header_text_utf8(score: u64, refs: HeadView, query: HeadView, id: u32)
    ensures
        valid_utf8(header_text(score, refs, query, id)),
{
    lemma_head_text_utf8(refs);
    lemma_head_text_utf8(query);
    lemma_decimal_utf8(score as nat);
    lemma_decimal_utf8(id as nat);
    lemma_space_utf8();
    let sp = seq![SPACE];
    let a = chain_word() + sp;
    valid_utf8_concat(chain_word(), sp);
    let b = a + decimal(score as nat);
    valid_utf8_concat(a, decimal(score as nat));
    let c = b + sp;
    valid_utf8_concat(b, sp);
    let d = c + head_text(refs);
    valid_utf8_concat(c, head_text(refs));
    let e = d + sp;
    valid_utf8_concat(d, sp);
    let f = e + head_text(query);
    valid_utf8_concat(e, head_text(query));
    let g = f + sp;
    valid_utf8_concat(f, sp);
    valid_utf8_concat(g, decimal(id as nat));
}

proof fn lemma_record_text_utf8(r: AlignmentRecord)
    ensures
        valid_utf8(record_text(r)),
{
    lemma_decimal_utf8(r.size as nat);
    lemma_decimal_utf8(r.dt as nat);
    lemma_decimal_utf8(r.dq as nat);
    lemma_space_utf8();
    let t = seq![TAB];
    let a = decimal(r.size as nat) + t;
    valid_utf8_concat(decimal(r.size as nat), t);
    let b = a + decimal(r.dt as nat);
    valid_utf8_concat(a, decimal(r.dt as nat));
    let c = b + t;
    valid_utf8_concat(b, t);
    valid_utf8_concat(c, decimal(r.dq as nat));
}

proof fn lemma_records_text_utf8(a: Seq<AlignmentRecord>, k: int)
    ensures
        valid_utf8(records_prefix_text(a, k)),
    decreases k,
{
    if k > 0 {
        lemma_records_text_utf8(a, k - 1);
        let r = a[k - 1];
        lemma_space_utf8();
        lemma_record_text_utf8(r);
        lemma_decimal_utf8(r.size as nat);
        valid_utf8_concat(record_text(r), seq![NEWLINE]);
        valid_utf8_concat(decimal(r.size as nat), seq![NEWLINE, NEWLINE]);
        valid_utf8_concat(records_prefix_text(a, k - 1), record_out(a, k - 1));
    }
}

proof fn lemma_chain_text_utf8(c: Chain)
    ensures
        valid_utf8(chain_text(c)),
{
    lemma_header_text_utf8(c.score, c.refs@, c.query@, c.id);
    lemma_records_text_utf8(c.alignment@, c.alignment@.len() as int);
    lemma_space_utf8();
    let h = header_text(c.score, c.refs@, c.query@, c.id);
    valid_utf8_concat(h, seq![NEWLINE]);
    valid_utf8_concat(h + seq![NEWLINE], alignment_text(c.alignment@));
}

/// Makes a string of bytes that are valid UTF-8.
fn utf8_string(v: Vec<u8>) -> (r: String)
    requires
        valid_utf8(v@),
    ensures
        r@ == decode_utf8(v@),
{
    match string_from_utf8(v) {
        Some(s) => s,
        None => String::new(),
    }
}

/// The decimal rendering of `n` as a string.
fn decimal_string(n: u64) -> (r: String)
    ensures
        r@ == decode_utf8(decimal(n as nat)),
{
    proof {
        lemma_decimal_utf8(n as nat);
    }
    utf8_string(decimal_bytes(n))
}

fn push_bytes(out: &mut Vec<u8>, s: &[u8])
    ensures
        final(out)@ == old(out)@ + s@,
{
    let mut i: usize = 0;
    while i < s.len()
        invariant
            i <= s@.len(),
            out@ == old(out)@ + s@.take(i as int),
        decreases s@.len() - i,
    {
        out.push(s[i]);
        i = i + 1;
        assert(out@ =~= old(out)@ + s@.take(i as int));
    }
    assert(s@.take(i as int) =~= s@);
}

fn push_head(out: &mut Vec<u8>, h: &ChainHead)
    ensures
        final(out)@ == old(out)@ + head_text(h@),
{
    push_bytes(out, h.chr.as_str().as_bytes());
    out.push(SPACE);
    push_decimal(out, h.size);
    out.push(SPACE);
    out.push(if h.strand == '+' {
        43u8
    } else {
        45u8
    });
    out.push(SPACE);
    push_decimal(out, h.start);
    out.push(SPACE);
    push_decimal(out, h.end);
    assert(final(out)@ =~= old(out)@ + head_text(h@));
}

fn push_header(out: &mut Vec<u8>, c: &Chain)
    ensures
        final(out)@ == old(out)@ + header_text(c.score, c.refs@, c.query@, c.id),
{
    out.push(99u8);
    out.push(104u8);
    out.push(97u8);
    out.push(105u8);
    out.push(110u8);
    out.push(SPACE);
    push_decimal(out, c.score);
    out.push(SPACE);
    push_head(out, &c.refs);
    out.push(SPACE);
    push_head(out, &c.query);
    out.push(SPACE);
    push_decimal(out, c.id as u64);
    assert(final(out)@ =~= old(out)@ + header_text(c.score, c.refs@, c.query@, c.id));
}

fn push_records(out: &mut Vec<u8>, a: &Vec<AlignmentRecord>)
    ensures
        final(out)@ == old(out)@ + alignment_text(a@),
{
    let n = a.len();
    let mut i: usize = 0;
    assert(old(out)@ + records_prefix_text(a@, 0) =~= old(out)@);
    while i < n
        invariant
            n == a@.len(),
            i <= n,
            out@ == old(out)@ + records_prefix_text(a@, i as int),
        decreases n - i,
    {
        let r = a[i];
        if i == n - 1 {
            push_decimal(out, r.size as u64);
            out.push(NEWLINE);
            out.push(NEWLINE);
        } else {
            push_decimal(out, r.size as u64);
            out.push(TAB);
            push_decimal(out, r.dt as u64);
            out.push(TAB);
            push_decimal(out, r.dq as u64);
            out.push(NEWLINE);
        }
        i = i + 1;
        assert(out@ =~= old(out)@ + records_prefix_text(a@, i as int));
    }
}

impl AlignmentRecord {
    /// Builds a record from its parts.
    pub fn new(size: u32, dt: u32, dq: u32, is_last: bool) -> (r: Self)
        ensures
            r == (AlignmentRecord { size, dt, dq, is_last }),
    {
        AlignmentRecord { size, dt, dq, is_last }
    }

    pub fn size(&self) -> (r: u32)
        ensures
            r == self.size,
    {
        self.size
    }

    pub fn dt(&self) -> (r: u32)
        ensures
            r == self.dt,
    {
        self.dt
    }

    pub fn dq(&self) -> (r: u32)
        ensures
            r == self.dq,
    {
        self.dq
    }

    /// The record as `size\tdt\tdq`.
    pub fn to_string(&self) -> (r: String)
        ensures
            r@ == decode_utf8(record_text(*self)),
    {
        let mut out: Vec<u8> = Vec::new();
        push_decimal(&mut out, self.size as u64);
        out.push(TAB);
        push_decimal(&mut out, self.dt as u64);
        out.push(TAB);
        push_decimal(&mut out, self.dq as u64);
        assert(out@ =~= record_text(*self));
        proof {
            lemma_record_text_utf8(*self);
        }
        utf8_string(out)
    }
}

impl ChainHead {
    /// The side as text: `chr size strand start end`.
    pub fn to_string(&self) -> (r: String)
        requires
            self@.wf(),
        ensures
            r@ == decode_utf8(head_text(self@)),
    {
        let mut out: Vec<u8> = Vec::new();
        push_head(&mut out, self);
        assert(out@ =~= head_text(self@));
        proof {
            lemma_head_text_utf8(self@);
        }
        utf8_string(out)
    }

    /// The five fields of the side as strings.
    pub fn to_vec(&self) -> (r: Vec<String>)
        requires
            self@.wf(),
        ensures
            string_views(r@) == head_tokens(self@),
    {
        let mut v: Vec<String> = Vec::new();
        v.push(self.chr.clone());
        v.push(decimal_string(self.size));
        let mut sb: Vec<u8> = Vec::new();
        sb.push(if self.strand == '+' {
            43u8
        } else {
            45u8
        });
        proof {
            lemma_small_utf8(sb@);
        }
        v.push(utf8_string(sb));
        v.push(decimal_string(self.start));
        v.push(decimal_string(self.end));
        assert(string_views(v@) =~= head_tokens(self@));
        v
    }
}

impl Chain {
    /// The chain as text: its header line, its records, and the blank line
    /// that closes it.
    pub fn to_bytes(&self) -> (r: Vec<u8>)
        requires
            self.refs@.wf(),
            self.query@.wf(),
        ensures
            r@ == chain_text(*self),
    {
        let mut out: Vec<u8> = Vec::new();
        push_header(&mut out, self);
        out.push(NEWLINE);
        push_records(&mut out, &self.alignment);
        assert(out@ =~= chain_text(*self));
        out
    }

    /// The chain as a string; see `to_bytes`.
    pub fn to_string(&self) -> (r: String)
        requires
            self.refs@.wf(),
            self.query@.wf(),
        ensures
            r@ == decode_utf8(chain_text(*self)),
    {
        proof {
            lemma_chain_text_utf8(*self);
        }
        utf8_string(self.to_bytes())
    }

    /// The header line, without its newline.
    pub fn header(&self) -> (r: String)
        requires
            self.refs@.wf(),
            self.query@.wf(),
        ensures
            r@ == decode_utf8(header_text(self.score, self.refs@, self.query@, self.id)),
    {
        let mut out: Vec<u8> = Vec::new();
        push_header(&mut out, self);
        assert(out@ =~= header_text(self.score, self.refs@, self.query@, self.id));
        proof {
            lemma_header_text_utf8(self.score, self.refs@, self.query@, self.id);
        }
        utf8_string(out)
    }

    /// The body: one line per record, the last one closed by a blank line.
    pub fn alignment(&self) -> (r: String)
        ensures
            r@ == decode_utf8(alignment_text(self.alignment@)),
    {
        let mut out: Vec<u8> = Vec::new();
        push_records(&mut out, &self.alignment);
        assert(out@ =~= alignment_text(self.alignment@));
        proof {
            lemma_records_text_utf8(self.alignment@, self.alignment@.len() as int);
        }
        utf8_string(out)
    }

    /// The thirteen tokens of the header line.
    pub fn header_vec(&self) -> (r: Vec<String>)
        requires
            self.refs@.wf(),
            self.query@.wf(),
        ensures
            string_views(r@) == seq![decode_utf8(chain_word()), decode_utf8(decimal(self.score as nat))]
                + head_tokens(self.refs@) + head_tokens(self.query@)
                + seq![decode_utf8(decimal(self.id as nat))],
    {
        let mut hv: Vec<String> = Vec::new();
        let mut w: Vec<u8> = Vec::new();
        w.push(99u8);
        w.push(104u8);
        w.push(97u8);
        w.push(105u8);
        w.push(110u8);
        assert(w@ =~= chain_word());
        proof {
            lemma_small_utf8(w@);
        }
        hv.push(utf8_string(w));
        hv.push(decimal_string(self.score));
        let rv = self.refs.to_vec();
        let qv = self.query.to_vec();
        assert(string_views(rv@).len() == rv@.len());
        assert(string_views(qv@).len() == qv@.len());
        let ghost before = hv@;
        let mut i: usize = 0;
        while i < 5
            invariant
                i <= 5,
                rv@.len() == 5,
                hv@ == before + rv@.take(i as int),
            decreases 5 - i,
        {
            hv.push(rv[i].clone());
            i = i + 1;
            assert(hv@ =~= before + rv@.take(i as int));
        }
        let ghost mid = hv@;
        let mut j: usize = 0;
        while j < 5
            invariant
                j <= 5,
                qv@.len() == 5,
                hv@ == mid + qv@.take(j as int),
            decreases 5 - j,
        {
            hv.push(qv[j].clone());
            j = j + 1;
            assert(hv@ =~= mid + qv@.take(j as int));
        }
        hv.push(decimal_string(self.id as u64));
        assert(rv@.take(5) =~= rv@);
        assert(qv@.take(5) =~= qv@);
        assert(string_views(hv@) =~= seq![
            decode_utf8(chain_word()),
            decode_utf8(decimal(self.score as nat)),
        ] + string_views(rv@) + string_views(qv@) + seq![decode_utf8(decimal(self.id as nat))]);
        hv
    }
}

/// The three numbers of a record as strings.
pub open spec fn record_tokens(r: AlignmentRecord) -> Seq<Seq<char>> {
    seq![
        decode_utf8(decimal(r.size as nat)),
        decode_utf8(decimal(r.dt as nat)),
        decode_utf8(decimal(r.dq as nat)),
    ]
}

fn record_strings(r: AlignmentRecord) -> (v: Vec<String>)
    ensures
        string_views(v@) == record_tokens(r),
{
    let mut v: Vec<String> = Vec::new();
    v.push(decimal_string(r.size as u64));
    v.push(decimal_string(r.dt as u64));
    v.push(decimal_string(r.dq as u64));
    assert(string_views(v@) =~= record_tokens(r));
    v
}

impl Chain {
    /// Each record as `[size, dt, dq]`.
    pub fn alignment_vec(&self) -> (r: Vec<Vec<u32>>)
        ensures
            r@.len() == self.alignment@.len(),
            forall|i: int|
                0 <= i < r@.len() ==> (#[trigger] r@[i])@ == seq![
                    self.alignment@[i].size,
                    self.alignment@[i].dt,
                    self.alignment@[i].dq,
                ],
    {
        let mut out: Vec<Vec<u32>> = Vec::new();
        let mut i: usize = 0;
        while i < self.alignment.len()
            invariant
                i <= self.alignment@.len(),
                out@.len() == i,
                forall|j: int|
                    0 <= j < i ==> (#[trigger] out@[j])@ == seq![
                        self.alignment@[j].size,
                        self.alignment@[j].dt,
                        self.alignment@[j].dq,
                    ],
            decreases self.alignment@.len() - i,
        {
            let a = self.alignment[i];
            let mut row: Vec<u32> = Vec::new();
            row.push(a.size);
            row.push(a.dt);
            row.push(a.dq);
            assert(row@ =~= seq![a.size, a.dt, a.dq]);
            out.push(row);
            i = i + 1;
        }
        out
    }

    /// Each record as the strings `[size, dt, dq]`.
    pub fn alignment_vec_str(&self) -> (r: Vec<Vec<String>>)
        ensures
            r@.len() == self.alignment@.len(),
            forall|i: int|
                0 <= i < r@.len() ==> string_views((#[trigger] r@[i])@) == record_tokens(
                    self.alignment@[i],
                ),
    {
        let mut out: Vec<Vec<String>> = Vec::new();
        let mut i: usize = 0;
        while i < self.alignment.len()
            invariant
                i <= self.alignment@.len(),
                out@.len() == i,
                forall|j: int|
                    0 <= j < i ==> string_views((#[trigger] out@[j])@) == record_tokens(
                        self.alignment@[j],
                    ),
            decreases self.alignment@.len() - i,
        {
            out.push(record_strings(self.alignment[i]));
            i = i + 1;
        }
        out
    }

    /// The header tokens, then each record's strings.
    pub fn to_vec(&self) -> (r: Vec<Vec<String>>)
        requires
            self.refs@.wf(),
            self.query@.wf(),
        ensures
            r@.len() == self.alignment@.len() + 1,
            string_views(r@[0]@) == seq![
                decode_utf8(chain_word()),
                decode_utf8(decimal(self.score as nat)),
            ] + head_tokens(self.refs@) + head_tokens(self.query@) + seq![
                decode_utf8(decimal(self.id as nat)),
            ],
            forall|i: int|
                1 <= i < r@.len() ==> string_views((#[trigger] r@[i])@) == record_tokens(
                    self.alignment@[i - 1],
                ),
    {
        let mut v = self.alignment_vec_str();
        let ghost before = v@;
        v.insert(0, self.header_vec());
        assert forall|i: int| 1 <= i < v@.len() implies string_views((#[trigger] v@[i])@)
            == record_tokens(self.alignment@[i - 1]) by {
            assert(v@[i] == before[i - 1]);
        }
        v
    }
}

} // verus!
