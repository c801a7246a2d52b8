//! Alignment records: the `size dt dq` lines of a chain body.

use vstd::prelude::*;
use crate::error::{fails_with, ChainError, ErrorView};
use crate::text::{
    blank, bytes_to_vec, decimal, fields, find_byte, first_at, first_index, has_byte, lemma_first_index,
    lemma_fields_nonempty, lemma_no_byte, number_field, parse_u32, skip_blank, NEWLINE, TAB,
};

verus! {

/// One line of a chain body: `size` aligned bases, then `dt` bases that only
/// the reference has and `dq` bases that only the query has. The terminal
/// record (`is_last`) gives a size alone; its gaps are zero.
#[derive(Debug, Clone, Copy, PartialEq, Eq, Structural)]
pub struct AlignmentRecord {
    pub size: u32,
    pub dt: u32,
    pub dq: u32,
    pub is_last: bool,
}

/// The line at the front of `s`, without its newline.
pub open spec fn line_of(s: Seq<u8>) -> Seq<u8> {
    if has_byte(s, NEWLINE) {
        s.take(first_index(s, NEWLINE))
    } else {
        s
    }
}

/// What follows the line at the front of `s`.
pub open spec fn after_line(s: Seq<u8>) -> Seq<u8> {
    if has_byte(s, NEWLINE) {
        s.skip(first_index(s, NEWLINE) + 1)
    } else {
        Seq::empty()
    }
}

/// A line `size\tdt\tdq`.
pub open spec fn record_line(line: Seq<u8>) -> Option<AlignmentRecord> {
    let f = fields(line, TAB);
    if f.len() == 3 && number_field(f[0], u32::MAX as nat) is Some && number_field(
        f[1],
        u32::MAX as nat,
    ) is Some && number_field(f[2], u32::MAX as nat) is Some {
        Some(
            AlignmentRecord {
                size: number_field(f[0], u32::MAX as nat)->0 as u32,
                dt: number_field(f[1], u32::MAX as nat)->0 as u32,
                dq: number_field(f[2], u32::MAX as nat)->0 as u32,
                is_last: false,
            },
        )
    } else {
        None
    }
}

/// A line that holds the terminal size alone.
pub open spec fn terminal_line(line: Seq<u8>) -> Option<AlignmentRecord> {
    match number_field(line, u32::MAX as nat) {
        Some(v) => Some(AlignmentRecord { size: v as u32, dt: 0, dq: 0, is_last: true }),
        None => None,
    }
}

proof fn lemma_after_line_shorter(s: Seq<u8>)
    requires
        s.len() > 0,
    ensures
        after_line(s).len() < s.len(),
{
    if has_byte(s, NEWLINE) {
        let i = first_index(s, NEWLINE);
        assert(first_at(s, NEWLINE, i));
    }
}

/// The records that a chain body holds, line by line: lines of three fields,
/// then optionally one line of a size alone, after which only blank space
/// may follow. None where the body breaks that shape.
pub open spec fn body_records(s: Seq<u8>) -> Option<Seq<AlignmentRecord>>
    decreases s.len(),
{
    if blank(s) {
        Some(Seq::empty())
    } else if has_byte(line_of(s), TAB) {
        match record_line(line_of(s)) {
            Some(r) => {
                if after_line(s).len() < s.len() {
                    match body_records(after_line(s)) {
                        Some(rest) => Some(seq![r] + rest),
                        None => None,
                    }
                } else {
                    None
                }
            },
            None => None,
        }
    } else {
        match terminal_line(line_of(s)) {
            Some(r) => if blank(after_line(s)) {
                Some(seq![r])
            } else {
                None
            },
            None => None,
        }
    }
}

/// The text at which reading a body stops, where it fails: the first line
/// that is not a record, or, after the terminal record, what follows it.
pub open spec fn body_error(s: Seq<u8>) -> Seq<u8>
    decreases s.len(),
{
    if blank(s) {
        Seq::empty()
    } else if has_byte(line_of(s), TAB) {
        if record_line(line_of(s)) is Some {
            if after_line(s).len() < s.len() {
                body_error(after_line(s))
            } else {
                Seq::empty()
            }
        } else {
            line_of(s)
        }
    } else {
        if terminal_line(line_of(s)) is Some {
            after_line(s)
        } else {
            line_of(s)
        }
    }
}

/// The text of a record as its own line: `size\tdt\tdq`.
pub open spec fn record_text(r: AlignmentRecord) -> Seq<u8> {
    decimal(r.size as nat) + seq![TAB] + decimal(r.dt as nat) + seq![TAB] + decimal(
        r.dq as nat,
    )
}

/// Splits the line `line` (no newline in it, at least one tab) into its three
/// numeric fields.
fn parse_record_line(line: &[u8]) -> (r: Option<AlignmentRecord>)
    requires
        has_byte(line@, TAB),
    ensures
        r == record_line(line@),
{
    let n = line.len();
    let t1 = match find_byte(TAB, line) {
        Some(i) => i,
        None => {
            return None;
        },
    };
    proof {
        lemma_first_index(line@, TAB, t1 as int);
    }
    assert(t1 < line@.len());
    let rest1 = vstd::slice::slice_subrange(line, t1 + 1, line.len());
    assert(rest1@ =~= line@.skip(t1 as int + 1));
    let f0 = vstd::slice::slice_subrange(line, 0, t1);
    assert(f0@ =~= line@.take(t1 as int));
    let t2 = match find_byte(TAB, rest1) {
        Some(i) => i,
        None => {
            proof {
                lemma_no_byte(rest1@, TAB);
                assert(fields(rest1@, TAB) =~= seq![rest1@]);
                assert(fields(line@, TAB).len() == 2);
            }
            return None;
        },
    };
    proof {
        lemma_first_index(rest1@, TAB, t2 as int);
    }
    assert(t2 < rest1@.len());
    let n1 = rest1.len();
    let rest2 = vstd::slice::slice_subrange(rest1, t2 + 1, n1);
    assert(rest2@ =~= rest1@.skip(t2 as int + 1));
    let f1 = vstd::slice::slice_subrange(rest1, 0, t2);
    assert(f1@ =~= rest1@.take(t2 as int));
    match find_byte(TAB, rest2) {
        Some(t3) => {
            proof {
                lemma_first_index(rest2@, TAB, t3 as int);
                lemma_fields_nonempty(rest2@.skip(t3 as int + 1), TAB);
                assert(fields(rest2@, TAB).len() >= 2);
                assert(fields(rest1@, TAB).len() >= 3);
                assert(fields(line@, TAB).len() >= 4);
            }
            return None;
        },
        None => {
            proof {
                lemma_no_byte(rest2@, TAB);
            }
        },
    }
    assert(fields(rest2@, TAB) =~= seq![rest2@]);
    assert(fields(rest1@, TAB) =~= seq![f1@] + fields(rest2@, TAB));
    assert(fields(rest1@, TAB) =~= seq![f1@, rest2@]);
    assert(fields(line@, TAB) =~= seq![f0@] + fields(rest1@, TAB));
    assert(fields(line@, TAB) =~= seq![f0@, f1@, rest2@]);
    let size = parse_u32(f0);
    let dt = parse_u32(f1);
    let dq = parse_u32(rest2);
    match (size, dt, dq) {
        (Some(a), Some(b), Some(c)) => Some(AlignmentRecord { size: a, dt: b, dq: c, is_last: false }),
        _ => None,
    }
}

impl AlignmentRecord {
    /// Reads the records of a chain body, failing on the first line that is
    /// not a record.
    pub fn parse_body(align: &[u8]) -> (r: Result<Vec<AlignmentRecord>, ChainError>)
        ensures
            match body_records(align@) {
                Some(v) => r matches Ok(w) && w@ == v,
                None => fails_with(r, ErrorView::MalformedRecord(body_error(align@))),
            },
    {
        let mut acc: Vec<AlignmentRecord> = Vec::new();
        let mut pos: usize = 0;
        assert(align@.skip(0) =~= align@);
        proof {
            match body_records(align@) {
                Some(v) => {
                    assert(acc@ + v =~= v);
                },
                None => {},
            }
        }
        while pos <= align.len()
            invariant
                pos <= align@.len(),
                body_error(align@) == body_error(align@.skip(pos as int)),
                body_records(align@) == match body_records(align@.skip(pos as int)) {
                    Some(rest) => Some(acc@ + rest),
                    None => None::<Seq<AlignmentRecord>>,
                },
            decreases align@.len() - pos,
        {
            let ghost s = align@.skip(pos as int);
            let first = skip_blank(align, pos);
            if first == align.len() {
                assert(blank(s));
                assert(acc@ + Seq::<AlignmentRecord>::empty() =~= acc@);
                return Ok(acc);
            }
            assert(!blank(s));
            let rest = vstd::slice::slice_subrange(align, pos, align.len());
            assert(rest@ =~= s);
            let (line, next) = match find_byte(NEWLINE, rest) {
                Some(nl) => {
                    proof {
                        lemma_first_index(s, NEWLINE, nl as int);
                    }
                    (vstd::slice::slice_subrange(rest, 0, nl), pos + nl + 1)
                },
                None => {
                    proof {
                        lemma_no_byte(s, NEWLINE);
                    }
                    (rest, align.len())
                },
            };
            assert(line@ =~= line_of(s));
            assert(align@.skip(next as int) =~= after_line(s));
            proof {
                lemma_after_line_shorter(s);
            }
            match find_byte(TAB, line) {
                Some(t) => {
                    proof {
                        lemma_first_index(line@, TAB, t as int);
                    }
                    match parse_record_line(line) {
                        Some(rec) => {
                            let ghost old_acc = acc@;
                            acc.push(rec);
                            proof {
                                match body_records(after_line(s)) {
                                    Some(tail) => {
                                        assert(old_acc + (seq![rec] + tail) =~= acc@ + tail);
                                    },
                                    None => {},
                                }
                            }
                            pos = next;
                        },
                        None => {
                            return Err(ChainError::MalformedRecord { line: bytes_to_vec(line) });
                        },
                    }
                },
                None => {
                    proof {
                        lemma_no_byte(line@, TAB);
                    }
                    match parse_u32(line) {
                        Some(v) => {
                            let after = skip_blank(align, next);
                            if after == align.len() {
                                acc.push(AlignmentRecord { size: v, dt: 0, dq: 0, is_last: true });
                                return Ok(acc);
                            } else {
                                let rest_after = vstd::slice::slice_subrange(align, next, align.len());
                                assert(rest_after@ =~= after_line(s));
                                return Err(ChainError::MalformedRecord { line: bytes_to_vec(rest_after) });
                            }
                        },
                        None => {
                            return Err(ChainError::MalformedRecord { line: bytes_to_vec(line) });
                        },
                    }
                },
            }
        }
        Err(ChainError::MalformedRecord { line: Vec::new() })
    }
}

impl AlignmentRecord {
    /// The records of a well-formed chain body.
    pub fn parse(align: &[u8]) -> (r: Vec<AlignmentRecord>)
        requires
            body_records(align@) is Some,
        ensures
            r@ == body_records(align@)->0,
    {
        match AlignmentRecord::parse_body(align) {
            Ok(v) => v,
            Err(_) => Vec::new(),
        }
    }

    /// The first record of a well-formed chain body, where it has one.
    pub fn from(align: &[u8]) -> (r: Option<Self>)
        requires
            body_records(align@) is Some,
        ensures
            r == (if body_records(align@)->0.len() > 0 {
                Some(body_records(align@)->0[0])
            } else {
                None::<AlignmentRecord>
            }),
    {
        let v = AlignmentRecord::parse(align);
        if v.len() > 0 {
            Some(v[0])
        } else {
            None
        }
    }
}

} // verus!
