//! Properties of the chain model, the block geometry and the projection,
//! stated over the spec functions that the executable code is verified
//! against.

use vstd::prelude::*;
use vstd::utf8::*;
use crate::blocks::{
    blocks_prefix, chain_blocks, has_gap, BlockView,
    al_q_hi, al_q_lo, al_r_hi, al_r_lo, aligned_id, codirected, gap_id, gap_q_hi, gap_q_lo,
    gap_r_hi, lemma_block_bounds, q_cap,
};
use crate::chain::{head_of_fields, parse_chain, records_fit, strand_field, Chain, HeadView};
use crate::project::{
    end_point, lemma_locate_at, min_int, projected, sat_sub, start_point, Loc, locate,
};
use crate::align::{after_line, body_records, line_of};
use crate::index::{file_index, parse_range};
use crate::reader::{spans_from, CHAIN_START, body_bytes, chains_upto, file_spans, header_bytes, parse_file, Span};
use crate::render::{alignment_text, head_text, header_text, record_out, records_prefix_text, strand_byte};
use crate::align::{record_text, AlignmentRecord};
use crate::chain::{chain_word, ChainView};
use crate::text::{
    all_digits, decimal, digits_value, fields, first_at, first_index, has_byte, lemma_decimal,
    lemma_first_index, lemma_no_byte, number_field, blank, NEWLINE, SPACE,
};

verus! {

broadcast use {encode_utf8_valid_utf8, encode_utf8_decode_utf8};

/// The label of a side can be written in a header: not empty, no space, no
/// newline.
pub open spec fn label_ok(chr: Seq<char>) -> bool {
    &&& encode_utf8(chr).len() > 0
    &&& lacks(encode_utf8(chr), SPACE)
}

/// Reading back the text of a side gives the side: parsing inverts
/// rendering on every well-formed side whose label holds no space.
#[verifier::rlimit(60)]
pub proof fn lemma_head_round_trip(h: HeadView)
    requires
        h.wf(),
        label_ok(h.chr),
    ensures
        head_of_fields(fields(head_text(h), SPACE)) == Some(h),
{
    let c = encode_utf8(h.chr);
    let sz = decimal(h.size as nat);
    let st = seq![strand_byte(h.strand)];
    let a = decimal(h.start as nat);
    let b = decimal(h.end as nat);
    lemma_decimal_lacks(h.size as nat);
    lemma_decimal_lacks(h.start as nat);
    lemma_decimal_lacks(h.end as nat);
    assert(lacks(st, SPACE));
    let sp = seq![SPACE];
    lemma_no_byte(b, SPACE);
    lemma_fields_cons_by(a, b, SPACE);
    lemma_fields_cons_by(st, a + sp + b, SPACE);
    lemma_fields_cons_by(sz, st + sp + (a + sp + b), SPACE);
    lemma_fields_cons_by(c, sz + sp + (st + sp + (a + sp + b)), SPACE);
    assert(head_text(h) =~= c + sp + (sz + sp + (st + sp + (a + sp + b))));
    assert(fields(head_text(h), SPACE) =~= head_fields_text(h));
    lemma_head_of_fields_text(h);
}

/// Every chain that a file yields fits its spans: the sizes and reference
/// gaps of its records add up to the reference span, and the sizes and query
/// gaps to the query span.
pub proof fn lemma_parsed_chains_fit(s: Seq<u8>)
    ensures
        parse_file(s) matches Ok(m) ==> forall|k: u32| #[trigger]
            m.contains_key(k) ==> records_fit(m[k].alignment, m[k].refs, m[k].query)
                && m[k].id == k,
{
    if let Some(sp) = file_spans(s) {
        lemma_chains_fit_upto(s, sp, sp.len() as int);
    }
}

proof fn lemma_chains_fit_upto(s: Seq<u8>, sp: Seq<Span>, k: int)
    ensures
        chains_upto(s, sp, k) matches Ok(m) ==> forall|x: u32| #[trigger]
            m.contains_key(x) ==> records_fit(m[x].alignment, m[x].refs, m[x].query)
                && m[x].id == x,
    decreases k,
{
    if k > 0 {
        lemma_chains_fit_upto(s, sp, k - 1);
    }
}

/// Each aligned block spans as many bases on both sides as its record's
/// size; each gap block spans `dt` reference and `dq` query bases.
pub proof fn lemma_block_sizes(c: Chain, k: int)
    requires
        c.wf(),
        0 <= k < c.alignment@.len(),
    ensures
        al_r_hi(c, k) - al_r_lo(c, k) == c.alignment@[k].size,
        al_q_hi(c, k) - al_q_lo(c, k) == c.alignment@[k].size,
        gap_r_hi(c, k) - al_r_hi(c, k) == c.alignment@[k].dt,
        gap_q_hi(c, k) - gap_q_lo(c, k) == c.alignment@[k].dq,
{
}

/// Aligned blocks are numbered 1, 2, ... in record order, no two alike and
/// none with an underscore; the gap after block `i` is named `i_j` with
/// `j = i + 1`.
pub proof fn lemma_block_ids(k1: int, k2: int)
    requires
        0 <= k1 < k2,
    ensures
        digits_value(aligned_id(k1)) == k1 + 1,
        digits_value(aligned_id(k1)) < digits_value(aligned_id(k2)),
        gap_id(k1) == aligned_id(k1) + seq![95u8] + aligned_id(k1 + 1),
        !aligned_id(k1).contains(95u8),
        gap_id(k1).contains(95u8),
        aligned_id(k1) != aligned_id(k2),
{
    lemma_decimal((k1 + 1) as nat);
    lemma_decimal((k2 + 1) as nat);
    let g = gap_id(k1);
    assert(g[aligned_id(k1).len() as int] == 95u8);
    assert(!aligned_id(k1).contains(95u8)) by {
        if aligned_id(k1).contains(95u8) {
            let i = choose|i: int| 0 <= i < aligned_id(k1).len() && aligned_id(k1)[i] == 95u8;
            assert(all_digits(aligned_id(k1)));
        }
    }
}

/// An endpoint inside an aligned run projects exactly by its offset into the
/// run, whatever the thresholds: forward on a codirected chain, backward from
/// the run's query end otherwise.
pub proof fn lemma_aligned_exact(c: Chain, k: int, x: int, y: int, abs: int, rel: int)
    requires
        c.wf(),
        0 <= k < c.alignment@.len(),
        al_r_lo(c, k) <= x < al_r_hi(c, k),
    ensures
        start_point(c, x, y, abs, rel) == Some(
            if codirected(c) {
                al_q_lo(c, k) + (x - al_r_lo(c, k))
            } else {
                al_q_hi(c, k) - (x - al_r_lo(c, k))
            },
        ),
        end_point(c, y, x, abs, rel) == Some(
            if codirected(c) {
                al_q_hi(c, k) - (al_r_hi(c, k) - x)
            } else {
                al_q_lo(c, k) + (al_r_hi(c, k) - x)
            },
        ),
{
    lemma_locate_at(c, x, k);
}

/// With both thresholds zero, an endpoint inside a gap is cropped to the
/// gap's query edge (an end at the gap's first base is the one exception:
/// its distance is zero, so it is extrapolated by zero).
pub proof fn lemma_gap_crop(c: Chain, k: int, x: int, y: int)
    requires
        c.wf(),
        0 <= k < c.alignment@.len(),
        al_r_hi(c, k) <= x < gap_r_hi(c, k),
    ensures
        start_point(c, x, y, 0, 0) == Some(
            if codirected(c) {
                gap_q_lo(c, k)
            } else {
                gap_q_hi(c, k)
            },
        ),
        x > al_r_hi(c, k) ==> end_point(c, y, x, 0, 0) == Some(
            if codirected(c) {
                gap_q_hi(c, k)
            } else {
                gap_q_lo(c, k)
            },
        ),
{
    lemma_locate_at(c, x, k);
}

/// An endpoint inside a gap whose distance is within either threshold is
/// extrapolated by that distance, never past the query span.
pub proof fn lemma_gap_extrapolate(c: Chain, k: int, x: int, y: int, abs: int, rel: int)
    requires
        c.wf(),
        0 <= k < c.alignment@.len(),
        al_r_hi(c, k) <= x < gap_r_hi(c, k),
        gap_r_hi(c, k) - x <= abs || gap_r_hi(c, k) - x <= rel,
        x - al_r_hi(c, k) <= abs || x - al_r_hi(c, k) <= rel,
    ensures
        start_point(c, x, y, abs, rel) == Some(
            if codirected(c) {
                sat_sub(gap_q_hi(c, k), gap_r_hi(c, k) - x)
            } else {
                min_int(gap_q_lo(c, k) + (gap_r_hi(c, k) - x), q_cap(c))
            },
        ),
        end_point(c, y, x, abs, rel) == Some(
            if codirected(c) {
                min_int(gap_q_lo(c, k) + (x - al_r_hi(c, k)), q_cap(c))
            } else {
                sat_sub(gap_q_hi(c, k), x - al_r_hi(c, k))
            },
        ),
{
    lemma_locate_at(c, x, k);
}

/// Every projected coordinate lies on the query's forward strand, inside
/// `[0, query.size]`.
pub proof fn lemma_projection_capped(c: Chain, s: int, e: int, abs: int, rel: int, ignore: bool)
    requires
        c.wf(),
        s <= e,
    ensures
        projected(c, s, e, abs, rel, ignore).0 matches Some(v) ==> 0 <= v <= c.query.size,
        projected(c, s, e, abs, rel, ignore).1 matches Some(v) ==> 0 <= v <= c.query.size,
{
    let n = c.alignment@.len() as int;
    lemma_block_bounds(c, 0);
    lemma_block_bounds(c, n - 1);
    lemma_start_capped(c, s, e, abs, rel);
    lemma_end_capped(c, s, e, abs, rel);
}

proof fn lemma_start_capped(c: Chain, s: int, e: int, abs: int, rel: int)
    requires
        c.wf(),
    ensures
        start_point(c, s, e, abs, rel) matches Some(v) ==> 0 <= v <= q_cap(c),
{
    let n = c.alignment@.len() as int;
    lemma_block_bounds(c, 0);
    lemma_block_bounds(c, n - 1);
    crate::project::lemma_locate_after(c, s, 0);
    match locate(c, s) {
        Loc::Aligned(k) => {
            lemma_locate_range(c, s, k);
            lemma_block_bounds(c, k);
        },
        Loc::Gap(k) => {
            lemma_locate_range(c, s, k);
            lemma_block_bounds(c, k);
        },
        _ => {},
    }
}

proof fn lemma_end_capped(c: Chain, s: int, e: int, abs: int, rel: int)
    requires
        c.wf(),
    ensures
        end_point(c, s, e, abs, rel) matches Some(v) ==> 0 <= v <= q_cap(c),
{
    let n = c.alignment@.len() as int;
    lemma_block_bounds(c, 0);
    lemma_block_bounds(c, n - 1);
    crate::project::lemma_locate_after(c, e, 0);
    lemma_locate_at(c, e, n - 1);
    match locate(c, e) {
        Loc::Aligned(k) => {
            lemma_locate_range(c, e, k);
            lemma_block_bounds(c, k);
        },
        Loc::Gap(k) => {
            lemma_locate_range(c, e, k);
            lemma_block_bounds(c, k);
        },
        _ => {},
    }
}

/// The block that `locate` names holds the position.
proof fn lemma_locate_range(c: Chain, x: int, k: int)
    requires
        c.wf(),
        locate(c, x) == Loc::Aligned(k) || locate(c, x) == Loc::Gap(k),
    ensures
        0 <= k < c.alignment@.len(),
        locate(c, x) == Loc::Aligned(k) ==> al_r_lo(c, k) <= x < al_r_hi(c, k),
        locate(c, x) == Loc::Gap(k) ==> al_r_hi(c, k) <= x < gap_r_hi(c, k),
{
    let n = c.alignment@.len() as int;
    crate::project::lemma_locate_after(c, x, 0);
    if 0 <= k < n {
        lemma_locate_at(c, x, k);
        lemma_block_bounds(c, k);
    }
}

/// A newline at the end of a body changes none of its records.
pub proof fn lemma_body_newline(b: Seq<u8>)
    ensures
        body_records(b.push(NEWLINE)) == body_records(b),
    decreases b.len(),
{
    let t = b.push(NEWLINE);
    if blank(b) {
        assert(blank(t));
    } else {
        assert(!blank(t)) by {
            let i = choose|i: int| 0 <= i < b.len() && !crate::text::is_blank_byte(b[i]);
            assert(t[i] == b[i]);
        }
        if has_byte(b, NEWLINE) {
            let i = first_index(b, NEWLINE);
            assert(first_at(b, NEWLINE, i));
            assert(first_at(t, NEWLINE, i));
            lemma_first_index(t, NEWLINE, i);
            assert(line_of(t) =~= line_of(b));
            assert(after_line(t) =~= after_line(b).push(NEWLINE));
            lemma_body_newline(after_line(b));
            assert(blank(after_line(t)) == blank(after_line(b))) by {
                if blank(after_line(b)) {
                    assert(blank(after_line(t)));
                } else {
                    let j = choose|j: int| 0 <= j < after_line(b).len() && !crate::text::is_blank_byte(
                        after_line(b)[j],
                    );
                    assert(after_line(t)[j] == after_line(b)[j]);
                }
            }
        } else {
            assert forall|q: int| 0 <= q < b.len() implies t[q] != NEWLINE by {
                if b[q] == NEWLINE {
                    crate::text::lemma_some_byte(b, NEWLINE, q);
                }
            }
            assert(first_at(t, NEWLINE, b.len() as int));
            lemma_first_index(t, NEWLINE, b.len() as int);
            assert(line_of(t) =~= b);
            assert(after_line(t) =~= Seq::<u8>::empty());
        }
    }
}

/// Both reads give the same chain, or both fail (the error texts may differ
/// by the blank line that ends a range).
pub open spec fn same_chain(
    a: Result<ChainView, crate::error::ErrorView>,
    b: Result<ChainView, crate::error::ErrorView>,
) -> bool {
    match (a, b) {
        (Ok(x), Ok(y)) => x == y,
        (Err(_), Err(_)) => true,
        _ => false,
    }
}

/// Reading a chain from its byte range in the offset index gives the chain
/// that the full-file parse reads from the same place, when chains are
/// separated by a blank line (the byte before each following chain is a
/// newline).
pub proof fn lemma_index_round_trip(s: Seq<u8>, j: int)
    requires
        file_index(s) is Some,
        0 <= j < file_index(s)->0.len(),
        forall|i: int|
            #![trigger file_spans(s)->0[i]]
            0 <= i < file_spans(s)->0.len() && file_spans(s)->0[i].next < s.len() ==> s[file_spans(
                s,
            )->0[i].next - 1] == NEWLINE,
    ensures
        ({
            let sp = file_spans(s)->0;
            let e = file_index(s)->0[j];
            &&& e.1 == sp[j].start
            &&& e.2 == sp[j].next
            &&& same_chain(
                parse_range(s.subrange(e.1, e.2)),
                parse_chain(header_bytes(s, sp[j]), body_bytes(s, sp[j])),
            )
        }),
{
    let sp = file_spans(s)->0;
    lemma_entries_spans(s, sp, sp.len() as int);
    crate::reader::lemma_file_spans_ok(s);
    lemma_span_shape(s, 0, j);
    let x = sp[j];
    let r = s.subrange(x.start, x.next);
    assert(first_at(r, NEWLINE, x.sep - x.start));
    lemma_first_index(r, NEWLINE, x.sep - x.start);
    assert(r.take(x.sep - x.start) =~= header_bytes(s, x));
    let rb = r.skip(x.sep - x.start + 1);
    if x.body_end == x.next {
        assert(rb =~= body_bytes(s, x));
    } else if x.body_end == x.next - 1 {
        assert(rb =~= body_bytes(s, x).push(NEWLINE));
        lemma_body_newline(body_bytes(s, x));
    } else {
        assert(x.body_end == x.sep + 1 && x.next <= x.sep + 2);
        if x.next == x.sep + 1 {
            assert(rb =~= body_bytes(s, x));
        } else {
            assert(rb =~= body_bytes(s, x).push(NEWLINE));
            lemma_body_newline(body_bytes(s, x));
        }
    }
}

/// The entries of the index stand, one for one, for the spans of the file.
proof fn lemma_entries_spans(s: Seq<u8>, sp: Seq<Span>, k: int)
    requires
        0 <= k <= sp.len(),
        crate::index::entries_upto(s, sp, k) is Some,
    ensures
        crate::index::entries_upto(s, sp, k)->0.len() == k,
        forall|i: int|
            0 <= i < k ==> (#[trigger] crate::index::entries_upto(s, sp, k)->0[i]).1 == sp[i].start
                && crate::index::entries_upto(s, sp, k)->0[i].2 == sp[i].next
                && crate::index::entry_of(s, sp[i]) == Some(crate::index::entries_upto(s, sp, k)->0[i]),
    decreases k,
{
    if k > 0 {
        lemma_entries_spans(s, sp, k - 1);
    }
}

/// The shape of span `j` of the spans that start at `p`: its header runs to
/// the first newline after its start, and its body ends at the next chain,
/// one byte before it, or right after the header.
proof fn lemma_span_shape(s: Seq<u8>, p: int, j: int)
    requires
        0 <= p <= s.len(),
        spans_from(s, p) is Some,
        0 <= j < spans_from(s, p)->0.len(),
    ensures
        ({
            let x = spans_from(s, p)->0[j];
            &&& p <= x.start <= x.sep < x.next <= s.len()
            &&& s[x.sep] == NEWLINE
            &&& forall|i: int| x.start <= i < x.sep ==> s[i] != NEWLINE
            &&& (x.next == s.len() && x.body_end == s.len()) || (x.next < s.len() && (x.body_end
                == x.next - 1 || (x.body_end == x.sep + 1 && x.next <= x.sep + 2)) && x.body_end
                >= x.sep + 1)
        }),
    decreases s.len() - p,
{
    let rest = s.skip(p);
    let i = first_index(rest, NEWLINE);
    assert(first_at(rest, NEWLINE, i));
    let sep = p + i;
    assert forall|q: int| p <= q < sep implies s[q] != NEWLINE by {
        assert(rest[q - p] == s[q]);
    }
    assert(s[sep] == rest[i]);
    if has_byte(s.skip(sep), CHAIN_START) {
        let nx = sep + first_index(s.skip(sep), CHAIN_START);
        assert(first_at(s.skip(sep), CHAIN_START, nx - sep));
        assert(s.skip(sep)[0] == s[sep]);
        if j > 0 {
            lemma_span_shape(s, nx, j - 1);
            assert(spans_from(s, p)->0[j] == spans_from(s, nx)->0[j - 1]);
        }
    }
}

/// No byte `c` in `s`.
pub open spec fn lacks(s: Seq<u8>, c: u8) -> bool {
    forall|i: int| 0 <= i < s.len() ==> s[i] != c
}

proof fn lemma_fields_cons_by(a: Seq<u8>, b: Seq<u8>, c: u8)
    requires
        lacks(a, c),
    ensures
        fields(a + seq![c] + b, c) == seq![a] + fields(b, c),
{
    let s = a + seq![c] + b;
    assert(first_at(s, c, a.len() as int));
    lemma_first_index(s, c, a.len() as int);
    assert(s.take(a.len() as int) =~= a);
    assert(s.skip(a.len() as int + 1) =~= b);
}

proof fn lemma_decimal_lacks(n: nat)
    ensures
        lacks(decimal(n), SPACE),
        lacks(decimal(n), NEWLINE),
        lacks(decimal(n), crate::text::TAB),
        decimal(n).len() > 0,
        decimal(n).last() != NEWLINE,
        number_field(decimal(n), u64::MAX as nat) == (if n <= u64::MAX {
            Some(n)
        } else {
            None::<nat>
        }),
        number_field(decimal(n), u32::MAX as nat) == (if n <= u32::MAX {
            Some(n)
        } else {
            None::<nat>
        }),
{
    lemma_decimal(n);
    assert(all_digits(decimal(n)));
    assert(crate::text::is_digit(decimal(n)[decimal(n).len() - 1]));
}

/// The five fields of a side's text.
pub open spec fn head_fields_text(h: HeadView) -> Seq<Seq<u8>> {
    seq![
        encode_utf8(h.chr),
        decimal(h.size as nat),
        seq![strand_byte(h.strand)],
        decimal(h.start as nat),
        decimal(h.end as nat),
    ]
}

proof fn lemma_head_of_fields_text(h: HeadView)
    requires
        h.wf(),
    ensures
        head_of_fields(head_fields_text(h)) == Some(h),
{
    lemma_decimal_lacks(h.size as nat);
    lemma_decimal_lacks(h.start as nat);
    lemma_decimal_lacks(h.end as nat);
    let st = seq![strand_byte(h.strand)];
    if h.strand == '+' {
        assert(st =~= seq![43u8]);
    } else {
        assert(st =~= seq![45u8]);
        assert(st[0] != seq![43u8][0]);
    }
    assert(strand_field(st) == Some(h.strand));
}

#[verifier::rlimit(60)]
proof fn lemma_head_text_fields(h: HeadView, rest: Seq<u8>)
    requires
        label_ok(h.chr),
    ensures
        fields(head_text(h) + seq![SPACE] + rest, SPACE) == head_fields_text(h) + fields(rest, SPACE),
{
    let c = encode_utf8(h.chr);
    let sz = decimal(h.size as nat);
    let st = seq![strand_byte(h.strand)];
    let a = decimal(h.start as nat);
    let b = decimal(h.end as nat);
    let sp = seq![SPACE];
    lemma_decimal_lacks(h.size as nat);
    lemma_decimal_lacks(h.start as nat);
    lemma_decimal_lacks(h.end as nat);
    assert(lacks(st, SPACE));
    assert(lacks(c, SPACE));
    lemma_fields_cons_by(b, rest, SPACE);
    lemma_fields_cons_by(a, b + sp + rest, SPACE);
    lemma_fields_cons_by(st, a + sp + (b + sp + rest), SPACE);
    lemma_fields_cons_by(sz, st + sp + (a + sp + (b + sp + rest)), SPACE);
    lemma_fields_cons_by(c, sz + sp + (st + sp + (a + sp + (b + sp + rest))), SPACE);
    assert(head_text(h) + sp + rest =~= c + sp + (sz + sp + (st + sp + (a + sp + (b + sp
        + rest)))));
    assert(fields(head_text(h) + sp + rest, SPACE) =~= head_fields_text(h) + fields(rest, SPACE));
}

/// The text of a chain's body from record `k` on.
pub open spec fn text_from(a: Seq<AlignmentRecord>, k: int) -> Seq<u8>
    decreases a.len() - k,
{
    if k < 0 || k >= a.len() {
        Seq::empty()
    } else {
        record_out(a, k) + text_from(a, k + 1)
    }
}

proof fn lemma_text_from(a: Seq<AlignmentRecord>, k: int)
    requires
        0 <= k <= a.len(),
    ensures
        records_prefix_text(a, k) + text_from(a, k) == alignment_text(a),
    decreases a.len() - k,
{
    if k < a.len() {
        lemma_text_from_step(a, k);
    }
    if k == a.len() {
        assert(records_prefix_text(a, k) + text_from(a, k) =~= records_prefix_text(a, k));
    } else {
        lemma_text_from(a, k + 1);
        assert(records_prefix_text(a, k + 1) == records_prefix_text(a, k) + record_out(a, k));
        assert(records_prefix_text(a, k) + text_from(a, k) =~= records_prefix_text(a, k + 1)
            + text_from(a, k + 1));
    }
}

proof fn lemma_text_from_step(a: Seq<AlignmentRecord>, k: int)
    requires
        0 <= k < a.len(),
    ensures
        text_from(a, k) == record_out(a, k) + text_from(a, k + 1),
{
}

/// The body fits the grammar of a chain: the terminal record last, alone,
/// with no gaps.
pub open spec fn terminal_last(a: Seq<AlignmentRecord>) -> bool {
    &&& a.len() > 0
    &&& a.last().is_last
    &&& a.last().dt == 0
    &&& a.last().dq == 0
    &&& forall|i: int| 0 <= i < a.len() - 1 ==> !(#[trigger] a[i]).is_last
}

proof fn lemma_not_blank(t: Seq<u8>, n: nat)
    requires
        t.len() >= decimal(n).len(),
        t.take(decimal(n).len() as int) == decimal(n),
    ensures
        !blank(t),
{
    lemma_decimal(n);
    assert(t[0] == decimal(n)[0]);
    assert(all_digits(decimal(n)));
}

#[verifier::rlimit(60)]
proof fn lemma_body_last(a: Seq<AlignmentRecord>)
    requires
        terminal_last(a),
    ensures
        body_records(text_from(a, a.len() - 1)) == Some(seq![a.last()]),
{
    let k = a.len() - 1;
    let r = a[k];
    let ds = decimal(r.size as nat);
    lemma_decimal_lacks(r.size as nat);
    let t = text_from(a, k);
    lemma_text_from_step(a, k);
    assert(text_from(a, k + 1) == Seq::<u8>::empty());
    assert(record_out(a, k) == ds + seq![NEWLINE, NEWLINE]);
    assert(t =~= ds + seq![NEWLINE, NEWLINE]);
    assert(t.take(ds.len() as int) =~= ds);
    lemma_not_blank(t, r.size as nat);
    assert(first_at(t, NEWLINE, ds.len() as int));
    lemma_first_index(t, NEWLINE, ds.len() as int);
    assert(line_of(t) =~= ds);
    assert(after_line(t) =~= seq![NEWLINE]);
    assert(blank(seq![NEWLINE]));
    assert(!has_byte(ds, crate::text::TAB)) by {
        if has_byte(ds, crate::text::TAB) {
            let i = first_index(ds, crate::text::TAB);
            assert(first_at(ds, crate::text::TAB, i));
        }
    }
}

#[verifier::rlimit(60)]
proof fn lemma_record_line_text(r: AlignmentRecord)
    requires
        !r.is_last,
    ensures
        lacks(record_text(r), NEWLINE),
        has_byte(record_text(r), crate::text::TAB),
        crate::align::record_line(record_text(r)) == Some(r),
{
    let tab = seq![crate::text::TAB];
    let ds = decimal(r.size as nat);
    let d2 = decimal(r.dt as nat);
    let d3 = decimal(r.dq as nat);
    lemma_decimal_lacks(r.size as nat);
    lemma_decimal_lacks(r.dt as nat);
    lemma_decimal_lacks(r.dq as nat);
    let line = record_text(r);
    assert(line =~= ds + tab + (d2 + tab + d3));
    lemma_fields_cons_by(d2, d3, crate::text::TAB);
    lemma_fields_cons_by(ds, d2 + tab + d3, crate::text::TAB);
    lemma_no_byte(d3, crate::text::TAB);
    assert(fields(line, crate::text::TAB) =~= seq![ds, d2, d3]);
    assert(first_at(line, crate::text::TAB, ds.len() as int));
}

#[verifier::rlimit(60)]
proof fn lemma_body_step(a: Seq<AlignmentRecord>, k: int)
    requires
        terminal_last(a),
        0 <= k < a.len() - 1,
    ensures
        body_records(text_from(a, k)) == match body_records(text_from(a, k + 1)) {
            Some(rest) => Some(seq![a[k]] + rest),
            None => None::<Seq<AlignmentRecord>>,
        },
{
    let r = a[k];
    lemma_record_line_text(r);
    let line = record_text(r);
    let t = text_from(a, k);
    let ds = decimal(r.size as nat);
    lemma_text_from_step(a, k);
    assert(record_out(a, k) == line + seq![NEWLINE]);
    assert(t =~= line + seq![NEWLINE] + text_from(a, k + 1));
    assert(t.take(ds.len() as int) =~= ds);
    lemma_not_blank(t, r.size as nat);
    assert(first_at(t, NEWLINE, line.len() as int));
    lemma_first_index(t, NEWLINE, line.len() as int);
    assert(line_of(t) =~= line);
    assert(after_line(t) =~= text_from(a, k + 1));
}

proof fn lemma_body_from(a: Seq<AlignmentRecord>, k: int)
    requires
        terminal_last(a),
        0 <= k < a.len(),
    ensures
        body_records(text_from(a, k)) == Some(a.skip(k)),
    decreases a.len() - k,
{
    if k == a.len() - 1 {
        lemma_body_last(a);
        assert(a.skip(k) =~= seq![a.last()]);
    } else {
        lemma_body_step(a, k);
        lemma_body_from(a, k + 1);
        assert(seq![a[k]] + a.skip(k + 1) =~= a.skip(k));
    }
}

#[verifier::rlimit(80)]
proof fn lemma_header_fields(score: u64, refs: HeadView, query: HeadView, id: u32)
    requires
        label_ok(refs.chr),
        label_ok(query.chr),
    ensures
        fields(header_text(score, refs, query, id), SPACE) == seq![
            chain_word(),
            decimal(score as nat),
        ] + head_fields_text(refs) + head_fields_text(query) + seq![decimal(id as nat)],
{
    let sp = seq![SPACE];
    let ds = decimal(score as nat);
    let di = decimal(id as nat);
    lemma_decimal_lacks(score as nat);
    lemma_decimal_lacks(id as nat);
    assert(lacks(chain_word(), SPACE));
    lemma_no_byte(di, SPACE);
    let tq = head_text(query) + sp + di;
    let tr = head_text(refs) + sp + tq;
    lemma_head_text_fields(query, di);
    lemma_head_text_fields(refs, tq);
    lemma_fields_cons_by(ds, tr, SPACE);
    lemma_fields_cons_by(chain_word(), ds + sp + tr, SPACE);
    assert(header_text(score, refs, query, id) =~= chain_word() + sp + (ds + sp + tr));
    assert(fields(header_text(score, refs, query, id), SPACE) =~= seq![chain_word(), ds]
        + head_fields_text(refs) + head_fields_text(query) + seq![di]);
}

#[verifier::rlimit(60)]
proof fn lemma_header_round_trip(score: u64, refs: HeadView, query: HeadView, id: u32)
    requires
        refs.wf(),
        query.wf(),
        label_ok(refs.chr),
        label_ok(query.chr),
    ensures
        crate::chain::header_of(header_text(score, refs, query, id)) == Some(
            crate::chain::HeaderView { score, refs, query, id },
        ),
{
    let h = header_text(score, refs, query, id);
    let di = decimal(id as nat);
    lemma_decimal_lacks(score as nat);
    lemma_decimal_lacks(id as nat);
    assert(h.last() == di.last());
    assert(crate::chain::strip_newline(h) == h);
    lemma_header_fields(score, refs, query, id);
    let t = fields(h, SPACE);
    assert(t.subrange(2, 7) =~= head_fields_text(refs));
    assert(t.subrange(7, 12) =~= head_fields_text(query));
    lemma_head_of_fields_text(refs);
    lemma_head_of_fields_text(query);
}

/// Reading back the text of a chain gives the chain: the header line and
/// body that a chain renders to parse to that chain, for every well-formed
/// chain whose labels are not empty and hold no space.
pub proof fn lemma_chain_round_trip(c: Chain)
    requires
        c.wf(),
        label_ok(c.refs@.chr),
        label_ok(c.query@.chr),
    ensures
        parse_chain(
            header_text(c.score, c.refs@, c.query@, c.id),
            alignment_text(c.alignment@),
        ) == Ok::<ChainView, crate::error::ErrorView>(c@),
{
    lemma_view_round_trip(c@);
}

/// A chain value that can be written and read back.
pub open spec fn chain_ok(v: ChainView) -> bool {
    &&& v.refs.wf()
    &&& v.query.wf()
    &&& records_fit(v.alignment, v.refs, v.query)
    &&& label_ok(v.refs.chr)
    &&& label_ok(v.query.chr)
}

proof fn lemma_view_round_trip(v: ChainView)
    requires
        chain_ok(v),
    ensures
        parse_chain(header_text(v.score, v.refs, v.query, v.id), alignment_text(v.alignment))
            == Ok::<ChainView, crate::error::ErrorView>(v),
{
    lemma_header_round_trip(v.score, v.refs, v.query, v.id);
    let a = v.alignment;
    lemma_text_from(a, 0);
    assert(records_prefix_text(a, 0) + text_from(a, 0) =~= text_from(a, 0));
    lemma_body_from(a, 0);
    assert(a.skip(0) =~= a);
}

/// The text of a chain value: header line, newline, body.
pub open spec fn view_text(v: ChainView) -> Seq<u8> {
    header_text(v.score, v.refs, v.query, v.id) + seq![NEWLINE] + alignment_text(v.alignment)
}

/// The texts of chains `i..` one after another.
pub open spec fn texts_from(cs: Seq<ChainView>, i: int) -> Seq<u8>
    decreases cs.len() - i,
{
    if i < 0 || i >= cs.len() {
        Seq::empty()
    } else {
        view_text(cs[i]) + texts_from(cs, i + 1)
    }
}

/// Where chain `i` starts in the file made of all of them.
pub open spec fn text_offset(cs: Seq<ChainView>, i: int) -> int {
    texts_from(cs, 0).len() - texts_from(cs, i).len()
}

/// The chains of `cs[..k]`, each added under its id.
pub open spec fn chains_map(cs: Seq<ChainView>, k: int) -> Map<u32, ChainView>
    decreases k,
{
    if k <= 0 {
        Map::empty()
    } else {
        chains_map(cs, k - 1).insert(cs[k - 1].id, cs[k - 1])
    }
}

/// A chain that can stand in a file: well formed, and its labels hold no
/// space and no newline.
pub open spec fn file_chain_ok(v: ChainView) -> bool {
    &&& chain_ok(v)
    &&& lacks(encode_utf8(v.refs.chr), NEWLINE)
    &&& lacks(encode_utf8(v.query.chr), NEWLINE)
}

/// A byte that a body's text holds: a digit, a tab or a newline.
pub open spec fn body_byte(b: u8) -> bool {
    crate::text::is_digit(b) || b == crate::text::TAB || b == NEWLINE
}

proof fn lemma_lacks_concat(a: Seq<u8>, b: Seq<u8>, c: u8)
    requires
        lacks(a, c),
        lacks(b, c),
    ensures
        lacks(a + b, c),
{
    assert forall|i: int| 0 <= i < (a + b).len() implies (a + b)[i] != c by {
        if i < a.len() {
            assert((a + b)[i] == a[i]);
        } else {
            assert((a + b)[i] == b[i - a.len()]);
        }
    }
}

proof fn lemma_body_text_bytes(a: Seq<AlignmentRecord>, k: int)
    ensures
        forall|i: int|
            0 <= i < records_prefix_text(a, k).len() ==> body_byte(
                #[trigger] records_prefix_text(a, k)[i],
            ),
    decreases k,
{
    if k > 0 {
        lemma_body_text_bytes(a, k - 1);
        let r = a[k - 1];
        lemma_decimal(r.size as nat);
        lemma_decimal(r.dt as nat);
        lemma_decimal(r.dq as nat);
        let p = records_prefix_text(a, k - 1);
        let o = record_out(a, k - 1);
        assert forall|i: int| 0 <= i < o.len() implies body_byte(#[trigger] o[i]) by {
            let ds = decimal(r.size as nat);
            if k - 1 == a.len() - 1 {
                if i < ds.len() {
                    assert(o[i] == ds[i]);
                }
            } else {
                let d2 = decimal(r.dt as nat);
                let d3 = decimal(r.dq as nat);
                let tab = seq![crate::text::TAB];
                assert(o =~= ds + tab + d2 + tab + d3 + seq![NEWLINE]);
                if i < ds.len() {
                    assert(o[i] == ds[i]);
                } else if ds.len() + 1 <= i < ds.len() + 1 + d2.len() {
                    assert(o[i] == d2[i - ds.len() - 1]);
                } else if ds.len() + 2 + d2.len() <= i < ds.len() + 2 + d2.len() + d3.len() {
                    assert(o[i] == d3[i - ds.len() - 2 - d2.len()]);
                }
            }
        }
        assert forall|i: int|
            0 <= i < records_prefix_text(a, k).len() implies body_byte(
            #[trigger] records_prefix_text(a, k)[i],
        ) by {
            if i < p.len() {
                assert(records_prefix_text(a, k)[i] == p[i]);
            } else {
                assert(records_prefix_text(a, k)[i] == o[i - p.len()]);
            }
        }
    }
}

proof fn lemma_body_text_end(a: Seq<AlignmentRecord>)
    requires
        a.len() > 0,
    ensures
        alignment_text(a).len() >= 3,
        alignment_text(a).last() == NEWLINE,
{
    let k = a.len() as int;
    lemma_decimal(a[k - 1].size as nat);
    assert(record_out(a, k - 1) == decimal(a[k - 1].size as nat) + seq![NEWLINE, NEWLINE]);
}

proof fn lemma_header_lacks_newline(v: ChainView)
    requires
        file_chain_ok(v),
    ensures
        lacks(header_text(v.score, v.refs, v.query, v.id), NEWLINE),
        header_text(v.score, v.refs, v.query, v.id)[0] == CHAIN_START,
{
    let sp = seq![SPACE];
    let h = header_text(v.score, v.refs, v.query, v.id);
    lemma_decimal_lacks(v.score as nat);
    lemma_decimal_lacks(v.id as nat);
    lemma_decimal_lacks(v.refs.size as nat);
    lemma_decimal_lacks(v.refs.start as nat);
    lemma_decimal_lacks(v.refs.end as nat);
    lemma_decimal_lacks(v.query.size as nat);
    lemma_decimal_lacks(v.query.start as nat);
    lemma_decimal_lacks(v.query.end as nat);
    assert(lacks(sp, NEWLINE));
    assert(lacks(seq![strand_byte(v.refs.strand)], NEWLINE));
    assert(lacks(seq![strand_byte(v.query.strand)], NEWLINE));
    assert(lacks(chain_word(), NEWLINE));
    assert forall|i: int| 0 <= i < h.len() implies h[i] != NEWLINE by {
        let hr = head_text(v.refs);
        let hq = head_text(v.query);
        assert forall|j: int| 0 <= j < hr.len() implies hr[j] != NEWLINE by {
            lemma_head_lacks(v.refs, j);
        }
        assert forall|j: int| 0 <= j < hq.len() implies hq[j] != NEWLINE by {
            lemma_head_lacks(v.query, j);
        }
        let parts = chain_word() + sp + decimal(v.score as nat) + sp + hr + sp + hq + sp + decimal(
            v.id as nat,
        );
        assert(h =~= parts);
        lemma_lacks_concat(chain_word(), sp, NEWLINE);
        lemma_lacks_concat(chain_word() + sp, decimal(v.score as nat), NEWLINE);
        lemma_lacks_concat(chain_word() + sp + decimal(v.score as nat), sp, NEWLINE);
        lemma_lacks_concat(chain_word() + sp + decimal(v.score as nat) + sp, hr, NEWLINE);
        lemma_lacks_concat(chain_word() + sp + decimal(v.score as nat) + sp + hr, sp, NEWLINE);
        lemma_lacks_concat(chain_word() + sp + decimal(v.score as nat) + sp + hr + sp, hq, NEWLINE);
        lemma_lacks_concat(
            chain_word() + sp + decimal(v.score as nat) + sp + hr + sp + hq,
            sp,
            NEWLINE,
        );
        lemma_lacks_concat(
            chain_word() + sp + decimal(v.score as nat) + sp + hr + sp + hq + sp,
            decimal(v.id as nat),
            NEWLINE,
        );
    }
}

proof fn lemma_head_lacks(h: HeadView, j: int)
    requires
        lacks(encode_utf8(h.chr), NEWLINE),
        0 <= j < head_text(h).len(),
    ensures
        head_text(h)[j] != NEWLINE,
{
    let sp = seq![SPACE];
    lemma_decimal_lacks(h.size as nat);
    lemma_decimal_lacks(h.start as nat);
    lemma_decimal_lacks(h.end as nat);
    let st = seq![strand_byte(h.strand)];
    assert(lacks(sp, NEWLINE));
    assert(lacks(st, NEWLINE));
    let c = encode_utf8(h.chr);
    lemma_lacks_concat(c, sp, NEWLINE);
    lemma_lacks_concat(c + sp, decimal(h.size as nat), NEWLINE);
    lemma_lacks_concat(c + sp + decimal(h.size as nat), sp, NEWLINE);
    lemma_lacks_concat(c + sp + decimal(h.size as nat) + sp, st, NEWLINE);
    lemma_lacks_concat(c + sp + decimal(h.size as nat) + sp + st, sp, NEWLINE);
    lemma_lacks_concat(c + sp + decimal(h.size as nat) + sp + st + sp, decimal(h.start as nat), NEWLINE);
    lemma_lacks_concat(
        c + sp + decimal(h.size as nat) + sp + st + sp + decimal(h.start as nat),
        sp,
        NEWLINE,
    );
    lemma_lacks_concat(
        c + sp + decimal(h.size as nat) + sp + st + sp + decimal(h.start as nat) + sp,
        decimal(h.end as nat),
        NEWLINE,
    );
}

/// Where chain `i` lies in the file made of the texts of `cs`.
pub open spec fn span_at(cs: Seq<ChainView>, i: int) -> Span {
    let f = texts_from(cs, 0);
    let o = text_offset(cs, i);
    let h = header_text(cs[i].score, cs[i].refs, cs[i].query, cs[i].id);
    Span {
        start: o,
        sep: o + h.len(),
        body_end: if i == cs.len() - 1 {
            f.len() as int
        } else {
            text_offset(cs, i + 1) - 1
        },
        next: if i == cs.len() - 1 {
            f.len() as int
        } else {
            text_offset(cs, i + 1)
        },
    }
}

proof fn lemma_texts_skip(cs: Seq<ChainView>, i: int)
    requires
        0 <= i <= cs.len(),
    ensures
        texts_from(cs, 0).skip(text_offset(cs, i)) == texts_from(cs, i),
        0 <= text_offset(cs, i) <= texts_from(cs, 0).len(),
    decreases i,
{
    if i == 0 {
        assert(texts_from(cs, 0).skip(0) =~= texts_from(cs, 0));
    } else {
        lemma_texts_skip(cs, i - 1);
        let t = texts_from(cs, i - 1);
        assert(t == view_text(cs[i - 1]) + texts_from(cs, i));
        assert(t.skip(view_text(cs[i - 1]).len() as int) =~= texts_from(cs, i));
        assert(texts_from(cs, 0).skip(text_offset(cs, i)) =~= t.skip(
            view_text(cs[i - 1]).len() as int,
        ));
    }
}

/// Where the splitter stops in `f` at `o`, when the text there is a header
/// `h`, a newline, a body `b` and then `tail`.
proof fn lemma_split_point(f: Seq<u8>, o: int, h: Seq<u8>, b: Seq<u8>, tail: Seq<u8>)
    requires
        0 <= o <= f.len(),
        f.skip(o) == h + seq![NEWLINE] + b + tail,
        lacks(h, NEWLINE),
        lacks(b, CHAIN_START),
        tail.len() == 0 || tail[0] == CHAIN_START,
    ensures
        has_byte(f.skip(o), NEWLINE),
        first_index(f.skip(o), NEWLINE) == h.len(),
        f.skip(o + h.len()) == seq![NEWLINE] + b + tail,
        tail.len() == 0 ==> !has_byte(f.skip(o + h.len()), CHAIN_START),
        tail.len() > 0 ==> has_byte(f.skip(o + h.len()), CHAIN_START) && first_index(
            f.skip(o + h.len()),
            CHAIN_START,
        ) == 1 + b.len(),
{
    let rest = f.skip(o);
    assert(rest.len() == f.len() - o);
    assert(first_at(rest, NEWLINE, h.len() as int));
    lemma_first_index(rest, NEWLINE, h.len() as int);
    let after = f.skip(o + h.len());
    assert forall|q: int| 0 <= q < after.len() implies after[q] == rest[h.len() + q] by {}
    assert(after =~= seq![NEWLINE] + b + tail);
    assert forall|q: int| 0 <= q < 1 + b.len() implies after[q] != CHAIN_START by {
        if q > 0 {
            assert(after[q] == b[q - 1]);
        }
    }
    if tail.len() == 0 {
        lemma_no_byte(after, CHAIN_START);
    } else {
        assert(after[1 + b.len() as int] == tail[0]);
        assert(first_at(after, CHAIN_START, 1 + b.len() as int));
        lemma_first_index(after, CHAIN_START, 1 + b.len() as int);
    }
}

/// The pieces of chain `i`'s text in the file.
proof fn lemma_text_pieces(cs: Seq<ChainView>, i: int)
    requires
        0 <= i < cs.len(),
        forall|j: int| 0 <= j < cs.len() ==> file_chain_ok(#[trigger] cs[j]),
    ensures
        ({
            let v = cs[i];
            let h = header_text(v.score, v.refs, v.query, v.id);
            let b = alignment_text(v.alignment);
            let tail = texts_from(cs, i + 1);
            &&& texts_from(cs, 0).skip(text_offset(cs, i)) == h + seq![NEWLINE] + b + tail
            &&& 0 <= text_offset(cs, i) <= texts_from(cs, 0).len()
            &&& text_offset(cs, i + 1) == text_offset(cs, i) + h.len() + 1 + b.len()
            &&& lacks(h, NEWLINE)
            &&& lacks(b, CHAIN_START)
            &&& b.len() >= 3
            &&& b.last() == NEWLINE
            &&& (tail.len() == 0 <==> i == cs.len() - 1)
            &&& (tail.len() == 0 || tail[0] == CHAIN_START)
        }),
{
    let v = cs[i];
    let b = alignment_text(v.alignment);
    assert(file_chain_ok(v));
    lemma_texts_skip(cs, i);
    lemma_texts_skip(cs, i + 1);
    lemma_header_lacks_newline(v);
    lemma_body_text_bytes(v.alignment, v.alignment.len() as int);
    assert forall|q: int| 0 <= q < b.len() implies b[q] != CHAIN_START by {
        assert(body_byte(b[q]));
    }
    lemma_body_text_end(v.alignment);
    if i < cs.len() - 1 {
        lemma_header_lacks_newline(cs[i + 1]);
    }
}

/// The spans that the splitter finds in a file made of chain texts are the
/// chains' own places.
#[verifier::rlimit(100)]
proof fn lemma_spans_of_texts(cs: Seq<ChainView>, i: int)
    requires
        0 <= i < cs.len(),
        forall|j: int| 0 <= j < cs.len() ==> file_chain_ok(#[trigger] cs[j]),
    ensures
        spans_from(texts_from(cs, 0), text_offset(cs, i)) == Some(
            Seq::new((cs.len() - i) as nat, |t: int| span_at(cs, i + t)),
        ),
    decreases cs.len() - i,
{
    let f = texts_from(cs, 0);
    let v = cs[i];
    let h = header_text(v.score, v.refs, v.query, v.id);
    let b = alignment_text(v.alignment);
    let tail = texts_from(cs, i + 1);
    lemma_text_pieces(cs, i);
    lemma_split_point(f, text_offset(cs, i), h, b, tail);
    if i == cs.len() - 1 {
        assert(Seq::new((cs.len() - i) as nat, |t: int| span_at(cs, i + t)) =~= seq![
            span_at(cs, i),
        ]);
    } else {
        lemma_spans_of_texts(cs, i + 1);
        assert(Seq::new((cs.len() - i) as nat, |t: int| span_at(cs, i + t)) =~= seq![
            span_at(cs, i),
        ] + Seq::new((cs.len() - (i + 1)) as nat, |t: int| span_at(cs, i + 1 + t)));
    }
}

proof fn lemma_piece_bytes(f: Seq<u8>, o: int, h: Seq<u8>, b: Seq<u8>, tail: Seq<u8>, sp: Span)
    requires
        0 <= o <= f.len(),
        f.skip(o) == h + seq![NEWLINE] + b + tail,
        sp.start == o,
        sp.sep == o + h.len(),
        sp.body_end == o + h.len() + 1 + b.len() - (if tail.len() == 0 {
            0int
        } else {
            1int
        }),
        b.len() >= 1,
    ensures
        header_bytes(f, sp) == h,
        tail.len() == 0 ==> body_bytes(f, sp) == b,
        tail.len() > 0 ==> body_bytes(f, sp) == b.drop_last(),
{
    let rest = f.skip(o);
    assert(rest.len() == f.len() - o);
    assert(header_bytes(f, sp) =~= rest.subrange(0, h.len() as int));
    assert(rest.subrange(0, h.len() as int) =~= h);
    if tail.len() == 0 {
        assert(body_bytes(f, sp) =~= rest.subrange(h.len() as int + 1, h.len() + 1 + b.len() as int));
        assert(rest.subrange(h.len() as int + 1, h.len() + 1 + b.len() as int) =~= b);
    } else {
        assert(body_bytes(f, sp) =~= rest.subrange(h.len() as int + 1, h.len() + b.len() as int));
        assert(rest.subrange(h.len() as int + 1, h.len() + b.len() as int) =~= b.drop_last());
    }
}

proof fn lemma_span_reads(cs: Seq<ChainView>, j: int)
    requires
        0 <= j < cs.len(),
        forall|i: int| 0 <= i < cs.len() ==> file_chain_ok(#[trigger] cs[i]),
    ensures
        parse_chain(
            header_bytes(texts_from(cs, 0), span_at(cs, j)),
            body_bytes(texts_from(cs, 0), span_at(cs, j)),
        ) == Ok::<ChainView, crate::error::ErrorView>(cs[j]),
{
    let f = texts_from(cs, 0);
    let v = cs[j];
    let h = header_text(v.score, v.refs, v.query, v.id);
    let b = alignment_text(v.alignment);
    let tail = texts_from(cs, j + 1);
    lemma_text_pieces(cs, j);
    lemma_piece_bytes(f, text_offset(cs, j), h, b, tail, span_at(cs, j));
    assert(file_chain_ok(v));
    lemma_view_round_trip(v);
    if j < cs.len() - 1 {
        assert(b.drop_last().push(NEWLINE) =~= b);
        lemma_body_newline(b.drop_last());
    }
}

proof fn lemma_chains_of_texts(cs: Seq<ChainView>, k: int)
    requires
        0 <= k <= cs.len(),
        forall|i: int| 0 <= i < cs.len() ==> file_chain_ok(#[trigger] cs[i]),
    ensures
        chains_upto(
            texts_from(cs, 0),
            Seq::new(cs.len() as nat, |t: int| span_at(cs, t)),
            k,
        ) == Ok::<Map<u32, ChainView>, crate::error::ErrorView>(chains_map(cs, k)),
    decreases k,
{
    if k > 0 {
        lemma_chains_of_texts(cs, k - 1);
        lemma_span_reads(cs, k - 1);
    }
}

/// A file made of the texts of well-formed chains, one after another, reads
/// back as exactly those chains, keyed by id; so writing each parsed chain
/// back out gives its block of the file again.
pub proof fn lemma_file_round_trip(cs: Seq<ChainView>)
    requires
        cs.len() > 0,
        forall|i: int| 0 <= i < cs.len() ==> file_chain_ok(#[trigger] cs[i]),
    ensures
        parse_file(texts_from(cs, 0)) == Ok::<Map<u32, ChainView>, crate::error::ErrorView>(
            chains_map(cs, cs.len() as int),
        ),
{
    lemma_spans_of_texts(cs, 0);
    assert(text_offset(cs, 0) == 0);
    assert(Seq::new(cs.len() as nat, |t: int| span_at(cs, 0 + t)) =~= Seq::new(
        cs.len() as nat,
        |t: int| span_at(cs, t),
    ));
    lemma_chains_of_texts(cs, cs.len() as int);
}

/// The last field of `h` is what follows its last space.
proof fn lemma_last_field(h: Seq<u8>)
    requires
        crate::reader::id_token(h) is Some,
    ensures
        fields(h, SPACE).len() >= 2,
        fields(h, SPACE).last() == crate::reader::id_token(h)->0,
    decreases h.len(),
{
    let l = crate::reader::last_index(h, SPACE);
    assert(crate::text::last_at(h, SPACE, l));
    crate::text::lemma_some_byte(h, SPACE, l);
    let f = first_index(h, SPACE);
    assert(first_at(h, SPACE, f));
    let rest = h.skip(f + 1);
    assert(fields(h, SPACE) == seq![h.take(f)] + fields(rest, SPACE));
    crate::text::lemma_fields_nonempty(rest, SPACE);
    assert((seq![h.take(f)] + fields(rest, SPACE)).last() == fields(rest, SPACE).last());
    if exists|i: int| crate::text::last_at(rest, SPACE, i) {
        let l2 = choose|i: int| crate::text::last_at(rest, SPACE, i);
        assert(crate::text::last_at(h, SPACE, f + 1 + l2)) by {
            assert forall|q: int| f + 1 + l2 < q < h.len() implies h[q] != SPACE by {
                assert(h[q] == rest[q - f - 1]);
            }
        }
        crate::reader::lemma_last_index_pub(h, SPACE, f + 1 + l2);
        crate::reader::lemma_last_index_pub(rest, SPACE, l2);
        lemma_last_field(rest);
        assert(rest.skip(l2 + 1) =~= h.skip(f + 1 + l2 + 1));
    } else {
        assert(crate::text::last_at(h, SPACE, f)) by {
            assert forall|q: int| f < q < h.len() implies h[q] != SPACE by {
                if h[q] == SPACE {
                    assert(rest[q - f - 1] == SPACE);
                    assert(crate::text::last_at(rest, SPACE, q - f - 1)) by {
                        if exists|q2: int| q - f - 1 < q2 < rest.len() && rest[q2] == SPACE {
                            let q2 = choose|q2: int| q - f - 1 < q2 < rest.len() && rest[q2] == SPACE;
                            lemma_last_space_exists(rest, q2);
                        }
                    }
                }
            }
        }
        crate::reader::lemma_last_index_pub(h, SPACE, f);
        assert forall|q: int| 0 <= q < rest.len() implies rest[q] != SPACE by {
            if rest[q] == SPACE {
                lemma_last_space_exists(rest, q);
            }
        }
        lemma_no_byte(rest, SPACE);
    }
}

/// A sequence with a space somewhere has a last space.
proof fn lemma_last_space_exists(s: Seq<u8>, j: int)
    requires
        0 <= j < s.len(),
        s[j] == SPACE,
    ensures
        exists|i: int| crate::text::last_at(s, SPACE, i),
    decreases s.len() - j,
{
    if exists|k: int| j < k < s.len() && s[k] == SPACE {
        let k = choose|k: int| j < k < s.len() && s[k] == SPACE;
        lemma_last_space_exists(s, k);
    } else {
        assert(crate::text::last_at(s, SPACE, j));
    }
}

/// Two reads that both give chains give chains of different ids.
pub open spec fn ids_differ(
    a: Result<ChainView, crate::error::ErrorView>,
    b: Result<ChainView, crate::error::ErrorView>,
) -> bool {
    match (a, b) {
        (Ok(w), Ok(v)) => w.id != v.id,
        _ => true,
    }
}

/// The chain read from span `i` is in the map under its id, when no later
/// span holds a chain with the same id.
proof fn lemma_map_holds(s: Seq<u8>, sp: Seq<Span>, k: int, i: int)
    requires
        0 <= i < k <= sp.len(),
        chains_upto(s, sp, k) is Ok,
        forall|i2: int|
            i < i2 < k ==> ids_differ(
                #[trigger] parse_chain(header_bytes(s, sp[i2]), body_bytes(s, sp[i2])),
                parse_chain(header_bytes(s, sp[i]), body_bytes(s, sp[i])),
            ),
    ensures
        parse_chain(header_bytes(s, sp[i]), body_bytes(s, sp[i])) matches Ok(v) && chains_upto(
            s,
            sp,
            k,
        )->Ok_0.contains_key(v.id) && chains_upto(s, sp, k)->Ok_0[v.id] == v,
    decreases k,
{
    if i < k - 1 {
        lemma_map_holds(s, sp, k - 1, i);
        let _ = parse_chain(header_bytes(s, sp[k - 1]), body_bytes(s, sp[k - 1]));
    }
}

/// Each entry of the index carries the id of the chain read from its span.
proof fn lemma_entry_id(s: Seq<u8>, i: int)
    requires
        file_index(s) is Some,
        0 <= i < file_spans(s)->0.len(),
        parse_chain(header_bytes(s, file_spans(s)->0[i]), body_bytes(s, file_spans(s)->0[i])) is Ok,
    ensures
        file_index(s)->0[i].0 == parse_chain(
            header_bytes(s, file_spans(s)->0[i]),
            body_bytes(s, file_spans(s)->0[i]),
        )->Ok_0.id,
{
    let sp = file_spans(s)->0;
    lemma_entries_spans(s, sp, sp.len() as int);
    let e = crate::index::entries_upto(s, sp, sp.len() as int)->0[i];
    assert(crate::index::entry_of(s, sp[i]) == Some(e));
    lemma_span_shape(s, 0, i);
    let h = header_bytes(s, sp[i]);
    assert(lacks(h, NEWLINE)) by {
        assert forall|q: int| 0 <= q < h.len() implies h[q] != NEWLINE by {
            assert(h[q] == s[sp[i].start + q]);
        }
    }
    assert(crate::chain::strip_newline(h) == h) by {
        if h.len() > 0 {
            assert(h.last() == h[h.len() - 1]);
        }
    }
    lemma_last_field(h);
}

/// Reading a chain through the offset index gives the very chain that the
/// full-file parse holds under that id, when chains are separated by a blank
/// line and the file's ids are distinct.
pub proof fn lemma_index_finds_chain(s: Seq<u8>, j: int)
    requires
        parse_file(s) is Ok,
        file_index(s) is Some,
        0 <= j < file_index(s)->0.len(),
        forall|i: int|
            #![trigger file_spans(s)->0[i]]
            0 <= i < file_spans(s)->0.len() && file_spans(s)->0[i].next < s.len() ==> s[file_spans(
                s,
            )->0[i].next - 1] == NEWLINE,
        forall|i: int|
            0 <= i < file_index(s)->0.len() && i != j ==> (#[trigger] file_index(s)->0[i]).0
                != file_index(s)->0[j].0,
    ensures
        ({
            let e = file_index(s)->0[j];
            let m = parse_file(s)->Ok_0;
            &&& e.0 <= u32::MAX
            &&& m.contains_key(e.0 as u32)
            &&& parse_range(s.subrange(e.1, e.2)) == Ok::<ChainView, crate::error::ErrorView>(
                m[e.0 as u32],
            )
        }),
{
    let sp = file_spans(s)->0;
    let n = sp.len() as int;
    lemma_entries_spans(s, sp, n);
    lemma_index_round_trip(s, j);
    assert forall|i: int| 0 <= i < n implies (#[trigger] parse_chain(
        header_bytes(s, sp[i]),
        body_bytes(s, sp[i]),
    )) is Ok by {
        lemma_map_holds_ok(s, sp, n, i);
    }
    assert forall|i2: int| j < i2 < n implies ids_differ(
        #[trigger] parse_chain(header_bytes(s, sp[i2]), body_bytes(s, sp[i2])),
        parse_chain(header_bytes(s, sp[j]), body_bytes(s, sp[j])),
    ) by {
        lemma_entry_id(s, i2);
        lemma_entry_id(s, j);
        assert(file_index(s)->0[i2].0 != file_index(s)->0[j].0);
    }
    lemma_map_holds(s, sp, n, j);
    lemma_entry_id(s, j);
}

/// Every span of a file that parses reads as a chain.
proof fn lemma_map_holds_ok(s: Seq<u8>, sp: Seq<Span>, k: int, i: int)
    requires
        0 <= i < k <= sp.len(),
        chains_upto(s, sp, k) is Ok,
    ensures
        parse_chain(header_bytes(s, sp[i]), body_bytes(s, sp[i])) is Ok,
    decreases k,
{
    if i < k - 1 {
        lemma_map_holds_ok(s, sp, k - 1, i);
    }
}

/// A side's text in canonical form: what some well-formed side whose label
/// holds no space renders to.
pub open spec fn canonical_head_line(s: Seq<u8>) -> bool {
    exists|h: HeadView| h.wf() && label_ok(h.chr) && head_text(h) == s
}

/// Rendering a parsed side gives back its text, for every side text in
/// canonical form (single spaces, decimal numbers without leading zeros,
/// strand `+` or `-`).
pub proof fn lemma_head_line_identity(s: Seq<u8>)
    requires
        canonical_head_line(s),
    ensures
        head_of_fields(fields(s, SPACE)) is Some,
        head_text(head_of_fields(fields(s, SPACE))->0) == s,
{
    let h = choose|h: HeadView| h.wf() && label_ok(h.chr) && head_text(h) == s;
    lemma_head_round_trip(h);
}

/// The text that `to_bytes` and `to_string` give for a chain is the text of
/// its value.
pub proof fn lemma_chain_text_view(c: Chain)
    ensures
        crate::render::chain_text(c) == view_text(c@),
{
}

proof fn lemma_chains_map_at(cs: Seq<ChainView>, k: int, i: int)
    requires
        0 <= i < k <= cs.len(),
        forall|a: int, b: int| 0 <= a < b < cs.len() ==> (#[trigger] cs[a]).id != (#[trigger] cs[b]).id,
    ensures
        chains_map(cs, k).contains_key(cs[i].id),
        chains_map(cs, k)[cs[i].id] == cs[i],
    decreases k,
{
    if i < k - 1 {
        lemma_chains_map_at(cs, k - 1, i);
    }
}

/// Reading a file made of the texts of chains with distinct ids, and
/// writing each chain read back out, gives each chain's block of the file:
/// the chain under the id of block `i` renders to block `i`, and there is no
/// other chain.
pub proof fn lemma_file_blocks_round_trip(cs: Seq<ChainView>, i: int)
    requires
        0 <= i < cs.len(),
        forall|j: int| 0 <= j < cs.len() ==> file_chain_ok(#[trigger] cs[j]),
        forall|a: int, b: int| 0 <= a < b < cs.len() ==> (#[trigger] cs[a]).id != (#[trigger] cs[b]).id,
    ensures
        parse_file(texts_from(cs, 0)) matches Ok(m) && m.contains_key(cs[i].id) && view_text(
            m[cs[i].id],
        ) == view_text(cs[i]) && m.dom().len() == cs.len(),
{
    lemma_file_round_trip(cs);
    lemma_chains_map_at(cs, cs.len() as int, i);
    lemma_chains_map_dom(cs, cs.len() as int);
}

proof fn lemma_chains_map_dom(cs: Seq<ChainView>, k: int)
    requires
        0 <= k <= cs.len(),
        forall|a: int, b: int| 0 <= a < b < cs.len() ==> (#[trigger] cs[a]).id != (#[trigger] cs[b]).id,
    ensures
        chains_map(cs, k).dom().finite(),
        chains_map(cs, k).dom().len() == k,
    decreases k,
{
    if k > 0 {
        lemma_chains_map_dom(cs, k - 1);
        assert(!chains_map(cs, k - 1).contains_key(cs[k - 1].id)) by {
            if chains_map(cs, k - 1).contains_key(cs[k - 1].id) {
                lemma_chains_map_key(cs, k - 1, cs[k - 1].id);
            }
        }
    }
}

proof fn lemma_chains_map_key(cs: Seq<ChainView>, k: int, id: u32)
    requires
        0 <= k <= cs.len(),
        chains_map(cs, k).contains_key(id),
    ensures
        exists|j: int| 0 <= j < k && cs[j].id == id,
    decreases k,
{
    if k > 0 && cs[k - 1].id != id {
        lemma_chains_map_key(cs, k - 1, id);
    }
}

/// The coverage of the parts `[p[j], p[j + 1])` for `j < k`, summed.
pub open spec fn coverage_of_parts(c: Chain, p: Seq<int>, k: int) -> int
    decreases k,
{
    if k <= 0 {
        0
    } else {
        coverage_of_parts(c, p, k - 1) + crate::coverage::coverage(c, p[k - 1], p[k])
    }
}

/// Coverage adds up over any partition of an interval into consecutive
/// parts: the parts' coverages sum to the coverage of the whole.
pub proof fn lemma_coverage_partition(c: Chain, p: Seq<int>)
    requires
        p.len() >= 2,
        forall|i: int, j: int| 0 <= i <= j < p.len() ==> #[trigger] p[i] <= #[trigger] p[j],
    ensures
        coverage_of_parts(c, p, p.len() - 1) == crate::coverage::coverage(c, p[0], p[p.len() - 1]),
{
    lemma_coverage_partition_upto(c, p, p.len() - 1);
}

proof fn lemma_coverage_partition_upto(c: Chain, p: Seq<int>, k: int)
    requires
        1 <= k < p.len(),
        forall|i: int, j: int| 0 <= i <= j < p.len() ==> #[trigger] p[i] <= #[trigger] p[j],
    ensures
        coverage_of_parts(c, p, k) == crate::coverage::coverage(c, p[0], p[k]),
        p[0] <= p[k],
    decreases k,
{
    if k > 1 {
        lemma_coverage_partition_upto(c, p, k - 1);
        assert(p[k - 1] <= p[k]);
        crate::coverage::lemma_coverage_additive(c, p[0], p[k - 1], p[k]);
    } else {
        assert(p[0] <= p[1]);
        assert(coverage_of_parts(c, p, 0) == 0);
    }
}

/// Where record `k`'s aligned block stands among a chain's blocks.
pub open spec fn aligned_pos(c: Chain, gaps: bool, k: int) -> int {
    blocks_prefix(c, gaps, k).len() as int
}

proof fn lemma_blocks_extend(c: Chain, gaps: bool, j: int, k: int)
    requires
        0 <= j <= k,
    ensures
        blocks_prefix(c, gaps, j).len() <= blocks_prefix(c, gaps, k).len(),
        blocks_prefix(c, gaps, k).take(blocks_prefix(c, gaps, j).len() as int) == blocks_prefix(
            c,
            gaps,
            j,
        ),
    decreases k - j,
{
    if j < k {
        lemma_blocks_extend(c, gaps, j, k - 1);
        let a = blocks_prefix(c, gaps, k - 1);
        let b = blocks_prefix(c, gaps, k);
        assert(b.take(a.len() as int) =~= a);
        assert(b.take(blocks_prefix(c, gaps, j).len() as int) =~= a.take(
            blocks_prefix(c, gaps, j).len() as int,
        ));
    } else {
        assert(blocks_prefix(c, gaps, k).take(blocks_prefix(c, gaps, k).len() as int)
            =~= blocks_prefix(c, gaps, k));
    }
}

/// The blocks of a chain, record by record: record `k`'s aligned block
/// stands at `aligned_pos(k)`, with id `k + 1` and equal spans of the
/// record's size on both sides; right after it stands its gap block, with
/// id `k+1_k+2`, when gaps are asked for and the record has one; record
/// `k + 1`'s block follows. So aligned ids run 1, 2, ..., n in order, every
/// gap block follows the aligned block it is named after, and nothing else
/// stands between.
pub proof fn lemma_block_positions(c: Chain, gaps: bool, k: int)
    requires
        c.wf(),
        0 <= k < c.alignment@.len(),
    ensures
        aligned_pos(c, gaps, k) < aligned_pos(c, gaps, k + 1) <= chain_blocks(c, gaps).len(),
        aligned_pos(c, gaps, c.alignment@.len() as int) == chain_blocks(c, gaps).len(),
        chain_blocks(c, gaps)[aligned_pos(c, gaps, k)] == (BlockView {
            id: aligned_id(k),
            r_start: al_r_lo(c, k),
            r_end: al_r_hi(c, k),
            q_start: al_q_lo(c, k),
            q_end: al_q_hi(c, k),
        }),
        al_r_hi(c, k) - al_r_lo(c, k) == c.alignment@[k].size,
        al_q_hi(c, k) - al_q_lo(c, k) == c.alignment@[k].size,
        gaps && has_gap(c.alignment@[k]) ==> aligned_pos(c, gaps, k + 1) == aligned_pos(c, gaps, k)
            + 2 && chain_blocks(c, gaps)[aligned_pos(c, gaps, k) + 1] == (BlockView {
            id: gap_id(k),
            r_start: al_r_hi(c, k),
            r_end: gap_r_hi(c, k),
            q_start: gap_q_lo(c, k),
            q_end: gap_q_hi(c, k),
        }),
        !(gaps && has_gap(c.alignment@[k])) ==> aligned_pos(c, gaps, k + 1) == aligned_pos(
            c,
            gaps,
            k,
        ) + 1,
{
    let n = c.alignment@.len() as int;
    lemma_blocks_extend(c, gaps, k + 1, n);
    let all = chain_blocks(c, gaps);
    let upto = blocks_prefix(c, gaps, k + 1);
    assert(all.take(upto.len() as int) == upto);
    let p = aligned_pos(c, gaps, k);
    assert(all[p] == upto[p]);
    if gaps && has_gap(c.alignment@[k]) {
        assert(all[p + 1] == upto[p + 1]);
    }
}

} // verus!
