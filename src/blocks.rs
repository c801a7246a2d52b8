//! Block geometry: where each aligned run and each gap of a chain lies on
//! both sides, on the forward strand.

use vstd::prelude::*;
use vstd::utf8::*;
use crate::chain::{lemma_advance_monotone, query_advance, ref_advance, Chain};
use crate::text::{decimal, decimal_bytes, lemma_decimal, push_decimal, string_from_utf8};

verus! {

/// Reference and query run the same way (the reference is always `+`).
pub open spec fn codirected(c: Chain) -> bool {
    c.query.strand == '+'
}

/// Where the query cursor starts, on the forward strand: the start of the
/// query span, or its end for a chain on the other strand.
pub open spec fn q_base(c: Chain) -> int {
    if codirected(c) {
        c.query.start as int
    } else {
        c.query.size - c.query.start
    }
}

/// The end of the query span on the forward strand; no projection goes past it.
pub open spec fn q_cap(c: Chain) -> int {
    if codirected(c) {
        c.query.end as int
    } else {
        c.query.size - c.query.start
    }
}

/// The reference start of record `k`'s aligned block.
pub open spec fn al_r_lo(c: Chain, k: int) -> int {
    c.refs.start + ref_advance(c.alignment@, k)
}

pub open spec fn al_r_hi(c: Chain, k: int) -> int {
    al_r_lo(c, k) + c.alignment@[k].size
}

/// The reference end of record `k`'s gap, which is where record `k + 1` starts.
pub open spec fn gap_r_hi(c: Chain, k: int) -> int {
    al_r_hi(c, k) + c.alignment@[k].dt
}

pub open spec fn al_q_lo(c: Chain, k: int) -> int {
    if codirected(c) {
        q_base(c) + query_advance(c.alignment@, k)
    } else {
        q_base(c) - query_advance(c.alignment@, k) - c.alignment@[k].size
    }
}

pub open spec fn al_q_hi(c: Chain, k: int) -> int {
    al_q_lo(c, k) + c.alignment@[k].size
}

pub open spec fn gap_q_lo(c: Chain, k: int) -> int {
    if codirected(c) {
        al_q_hi(c, k)
    } else {
        al_q_lo(c, k) - c.alignment@[k].dq
    }
}

pub open spec fn gap_q_hi(c: Chain, k: int) -> int {
    gap_q_lo(c, k) + c.alignment@[k].dq
}

/// Every block of a well-formed chain lies inside both spans, so all its
/// coordinates fit in 64 bits.
pub proof fn lemma_block_bounds(c: Chain, k: int)
    requires
        c.wf(),
        0 <= k < c.alignment@.len(),
    ensures
        c.refs.start <= al_r_lo(c, k) <= al_r_hi(c, k) <= gap_r_hi(c, k) <= c.refs.end,
        gap_r_hi(c, k) == al_r_lo(c, k + 1),
        0 <= al_q_lo(c, k) <= al_q_hi(c, k) <= q_cap(c),
        0 <= gap_q_lo(c, k) <= gap_q_hi(c, k) <= q_cap(c),
        q_cap(c) <= c.query.size,
        codirected(c) ==> gap_q_lo(c, k) == al_q_hi(c, k),
        !codirected(c) ==> gap_q_hi(c, k) == al_q_lo(c, k),
{
    let a = c.alignment@;
    let n = a.len() as int;
    lemma_advance_monotone(a, k + 1, n);
    assert(ref_advance(a, k + 1) == ref_advance(a, k) + a[k].size + a[k].dt);
    assert(query_advance(a, k + 1) == query_advance(a, k) + a[k].size + a[k].dq);
}

/// Which coordinates a block reports.
pub enum BlockSide {
    Ref,
    Query,
    Both,
}

/// A block of a chain: an aligned run, or the gap after it. Its id is the
/// 1-based number of the record for an aligned run, and `i_j` for the gap
/// between runs `i` and `j = i + 1`.
#[derive(Debug, Clone)]
pub enum ChainBlock {
    OneSided { id: String, start: u64, end: u64 },
    DoubleSided { id: String, r_start: u64, r_end: u64, q_start: u64, q_end: u64 },
}

/// The text of an aligned block's id.
pub open spec fn aligned_id(k: int) -> Seq<u8> {
    decimal((k + 1) as nat)
}

/// The text of a gap block's id.
pub open spec fn gap_id(k: int) -> Seq<u8> {
    decimal((k + 1) as nat) + seq![95u8] + decimal((k + 2) as nat)
}

/// A record has a gap block when either of its gaps is not empty.
pub open spec fn has_gap(r: crate::align::AlignmentRecord) -> bool {
    r.dt != 0 || r.dq != 0
}

/// A block as the plain values it reports: id text, then the reference span
/// and the query span.
pub struct BlockView {
    pub id: Seq<u8>,
    pub r_start: int,
    pub r_end: int,
    pub q_start: int,
    pub q_end: int,
}

/// The blocks of the first `k` records, in order: each aligned block, then its
/// gap block where gaps are asked for and the record has one.
pub open spec fn blocks_prefix(c: Chain, gaps: bool, k: int) -> Seq<BlockView>
    decreases k,
{
    if k <= 0 {
        Seq::empty()
    } else {
        let j = k - 1;
        let al = BlockView {
            id: aligned_id(j),
            r_start: al_r_lo(c, j),
            r_end: al_r_hi(c, j),
            q_start: al_q_lo(c, j),
            q_end: al_q_hi(c, j),
        };
        let gp = BlockView {
            id: gap_id(j),
            r_start: al_r_hi(c, j),
            r_end: gap_r_hi(c, j),
            q_start: gap_q_lo(c, j),
            q_end: gap_q_hi(c, j),
        };
        if gaps && has_gap(c.alignment@[j]) {
            blocks_prefix(c, gaps, j) + seq![al, gp]
        } else {
            blocks_prefix(c, gaps, j) + seq![al]
        }
    }
}

/// All blocks of a chain.
pub open spec fn chain_blocks(c: Chain, gaps: bool) -> Seq<BlockView> {
    blocks_prefix(c, gaps, c.alignment@.len() as int)
}

/// `b` reports the block `v` for the side `side`.
pub open spec fn block_reports(b: ChainBlock, v: BlockView, side: BlockSide) -> bool {
    match side {
        BlockSide::Ref => b matches ChainBlock::OneSided { id, start, end } && id@ == decode_utf8(
            v.id,
        ) && start == v.r_start && end == v.r_end,
        BlockSide::Query => b matches ChainBlock::OneSided { id, start, end } && id@
            == decode_utf8(v.id) && start == v.q_start && end == v.q_end,
        BlockSide::Both => b matches ChainBlock::DoubleSided { id, r_start, r_end, q_start, q_end }
            && id@ == decode_utf8(v.id) && r_start == v.r_start && r_end == v.r_end && q_start
            == v.q_start && q_end == v.q_end,
    }
}

fn id_string(v: Vec<u8>) -> (r: String)
    requires
        forall|i: int| 0 <= i < v@.len() ==> #[trigger] v@[i] < 128,
    ensures
        r@ == decode_utf8(v@),
{
    proof {
        crate::text::lemma_ascii_valid_utf8(v@);
    }
    match string_from_utf8(v) {
        Some(s) => s,
        None => String::new(),
    }
}

fn make_block(side: &BlockSide, id: String, rs: u64, re: u64, qs: u64, qe: u64) -> (r: ChainBlock)
    ensures
        forall|v: BlockView|
            decode_utf8(v.id) == id@ && v.r_start == rs && v.r_end == re
                && v.q_start == qs && v.q_end == qe ==> block_reports(r, v, *side),
{
    match side {
        BlockSide::Ref => ChainBlock::OneSided { id, start: rs, end: re },
        BlockSide::Query => ChainBlock::OneSided { id, start: qs, end: qe },
        BlockSide::Both => ChainBlock::DoubleSided { id, r_start: rs, r_end: re, q_start: qs, q_end: qe },
    }
}

impl Chain {
    /// The blocks of the chain in order, each aligned run followed, where
    /// `report_gaps` asks for it, by the gap after it unless both of its gaps
    /// are empty.
    pub fn to_blocks(&self, side: BlockSide, report_gaps: bool) -> (r: Vec<ChainBlock>)
        requires
            self.wf(),
        ensures
            r@.len() == chain_blocks(*self, report_gaps).len(),
            forall|i: int|
                0 <= i < r@.len() ==> block_reports(
                    #[trigger] r@[i],
                    chain_blocks(*self, report_gaps)[i],
                    side,
                ),
    {
        let ghost c = *self;
        let n = self.alignment.len();
        let cod = self.query.strand == '+';
        let mut r_cur: u64 = self.refs.start;
        let mut q_cur: u64 = if cod {
            self.query.start
        } else {
            self.query.size - self.query.start
        };
        let mut blocks: Vec<ChainBlock> = Vec::new();
        let mut k: usize = 0;
        while k < n
            invariant
                c == *self,
                self.wf(),
                n == self.alignment@.len(),
                k <= n,
                cod == codirected(c),
                k < n ==> r_cur == al_r_lo(c, k as int),
                k < n ==> (cod ==> q_cur == al_q_lo(c, k as int)) && (!cod ==> q_cur
                    == al_q_hi(c, k as int)),
                blocks@.len() == blocks_prefix(c, report_gaps, k as int).len(),
                forall|i: int|
                    0 <= i < blocks@.len() ==> block_reports(
                        #[trigger] blocks@[i],
                        blocks_prefix(c, report_gaps, k as int)[i],
                        side,
                    ),
            decreases n - k,
        {
            proof {
                lemma_block_bounds(c, k as int);
                lemma_decimal((k + 1) as nat);
                lemma_decimal((k + 2) as nat);
            }
            let rec = self.alignment[k];
            let r_hi: u64 = r_cur + rec.size as u64;
            let (q_lo, q_hi) = if cod {
                (q_cur, q_cur + rec.size as u64)
            } else {
                (q_cur - rec.size as u64, q_cur)
            };
            let ghost before = blocks@;
            let id_bytes = decimal_bytes(k as u64 + 1);
            assert(forall|i: int| 0 <= i < id_bytes@.len() ==> #[trigger] id_bytes@[i] < 128);
            let ab = make_block(&side, id_string(id_bytes), r_cur, r_hi, q_lo, q_hi);
            blocks.push(ab);
            let g_hi: u64 = r_hi + rec.dt as u64;
            let (gq_lo, gq_hi) = if cod {
                (q_hi, q_hi + rec.dq as u64)
            } else {
                (q_lo - rec.dq as u64, q_lo)
            };
            if report_gaps && (rec.dt != 0 || rec.dq != 0) {
                assert(k < n - 1);
                let mut gid: Vec<u8> = Vec::new();
                push_decimal(&mut gid, k as u64 + 1);
                gid.push(95u8);
                push_decimal(&mut gid, k as u64 + 2);
                assert(gid@ =~= gap_id(k as int));
                assert(forall|i: int| 0 <= i < gid@.len() ==> #[trigger] gid@[i] < 128);
                let gb = make_block(&side, id_string(gid), r_hi, g_hi, gq_lo, gq_hi);
                blocks.push(gb);
            }
            r_cur = g_hi;
            q_cur = if cod {
                gq_hi
            } else {
                gq_lo
            };
            k = k + 1;
            proof {
                if k < n {
                    lemma_block_bounds(c, k as int);
                    assert(query_advance(c.alignment@, k as int) == query_advance(
                        c.alignment@,
                        k - 1,
                    ) + rec.size + rec.dq);
                }
                assert forall|i: int| 0 <= i < blocks@.len() implies block_reports(
                    #[trigger] blocks@[i],
                    blocks_prefix(c, report_gaps, k as int)[i],
                    side,
                ) by {
                    if i < before.len() {
                        assert(blocks@[i] == before[i]);
                    }
                }
            }
        }
        blocks
    }
}

} // verus!
