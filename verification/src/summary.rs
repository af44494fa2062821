//! Write summaries: which partitions a write touched and the sequence range
//! observed in each, encodable as an opaque resume token.

use vstd::prelude::*;

use crate::duration::dec_digits;
use crate::sequence::{RangeModel, SequenceNumber, SequenceNumberRange};

verus! {

/// The decimal text of a signed value.
pub open spec fn int_text(v: int) -> Seq<u8> {
    if v < 0 {
        seq![45u8] + dec_digits((-v) as nat)
    } else {
        dec_digits(v as nat)
    }
}

/// The text of one optional bound: its value, or `x` when absent.
pub open spec fn bound_text(b: Option<int>) -> Seq<u8> {
    match b {
        Some(v) => int_text(v),
        None => seq![120u8],
    }
}

/// The token text of a summary: one `partition.min.max;` group per entry.
pub open spec fn token_of(entries: Seq<(int, RangeModel)>) -> Seq<u8>
    decreases entries.len(),
{
    if entries.len() == 0 {
        Seq::empty()
    } else {
        token_of(entries.drop_last()) + int_text(entries.last().0) + seq![46u8] + bound_text(
            entries.last().1.min,
        ) + seq![46u8] + bound_text(entries.last().1.max) + seq![59u8]
    }
}

/// A per-request record of the partitions a write touched and the inclusive
/// sequence range observed in each.
#[derive(Debug)]
pub struct WriteSummary {
    entries: Vec<(i64, SequenceNumberRange)>,
}

impl WriteSummary {
    /// The model: partition identifiers with their range models, in order.
    pub closed spec fn model(&self) -> Seq<(int, RangeModel)> {
        self.entries@.map_values(|p: (i64, SequenceNumberRange)| (p.0 as int, p.1@))
    }

    /// All recorded ranges are well formed.
    pub closed spec fn wf(&self) -> bool {
        forall|i: int| 0 <= i < self.entries@.len() ==> (#[trigger] self.entries@[i]).1.wf()
    }

    /// An empty summary: no partitions touched.
    pub fn new() -> (r: Self)
        ensures
            r.wf(),
            r.model().len() == 0,
    {
        let r = WriteSummary { entries: Vec::new() };
        proof {
            assert(r.model() =~= Seq::<(int, RangeModel)>::empty());
        }
        r
    }

    /// Record the range observed for one partition.
    pub fn push(&mut self, partition_id: i64, range: SequenceNumberRange)
        requires
            old(self).wf(),
            range.wf(),
        ensures
            final(self).wf(),
            final(self).model() == old(self).model().push((partition_id as int, range@)),
    {
        self.entries.push((partition_id, range));
        proof {
            assert(self.model() =~= old(self).model().push((partition_id as int, range@)));
        }
    }

    /// Number of partitions recorded.
    pub fn len(&self) -> (r: usize)
        ensures
            r == self.model().len(),
    {
        self.entries.len()
    }

    /// The partition and range bounds at position `i`: the identifier, and
    /// the bounds (`None` for an empty range).
    pub fn get(&self, i: usize) -> (r: (i64, Option<SequenceNumber>, Option<SequenceNumber>))
        requires
            i < self.model().len(),
        ensures
            r.0 as int == self.model()[i as int].0,
            match r.1 {
                Some(v) => self.model()[i as int].1.min == Some(v@ as int),
                None => self.model()[i as int].1.min is None,
            },
            match r.2 {
                Some(v) => self.model()[i as int].1.max == Some(v@ as int),
                None => self.model()[i as int].1.max is None,
            },
    {
        let e = &self.entries[i];
        (e.0, e.1.inclusive_min(), e.1.inclusive_max())
    }

    /// Encode the summary as an opaque token: one `partition.min.max;` group
    /// per entry, integers in signed decimal, `x` for an absent bound.
    pub fn to_token(&self) -> (r: Vec<u8>)
        ensures
            r@ == token_of(self.model()),
    {
        let mut out: Vec<u8> = Vec::new();
        let n = self.entries.len();
        proof {
            assert(self.model().take(0) =~= Seq::<(int, RangeModel)>::empty());
        }
        let mut i: usize = 0;
        while i < n
            invariant
                0 <= i <= n,
                n == self.model().len(),
                out@ == token_of(self.model().take(i as int)),
            decreases n - i,
        {
            let e = &self.entries[i];
            push_i64(&mut out, e.0);
            out.push(46);  // .
            match e.1.inclusive_min() {
                Some(v) => push_i64(&mut out, v.get()),
                None => out.push(120),  // x
            }
            out.push(46);  // .
            match e.1.inclusive_max() {
                Some(v) => push_i64(&mut out, v.get()),
                None => out.push(120),  // x
            }
            out.push(59);  // ;
            proof {
                assert(self.model().take(i as int + 1).drop_last() =~= self.model().take(i as int));
                assert(self.model().take(i as int + 1).last() == self.model()[i as int]);
                assert(self.model()[i as int].0 == e.0 as int);
                assert(self.model()[i as int].1 == e.1@);
                assert(out@ =~= token_of(self.model().take(i as int + 1)));
            }
            i += 1;
        }
        proof {
            assert(self.model().take(n as int) =~= self.model());
        }
        out
    }
}

/// Append a signed decimal.
fn push_i64(out: &mut Vec<u8>, v: i64)
    ensures
        final(out)@ == old(out)@ + int_text(v as int),
{
    if v < 0 {
        out.push(45);  // -
        // Emit the magnitude digit by digit; the smallest value needs care.
        if v == i64::MIN {
            crate::duration::push_dec(out, 9223372036854775808u64);
        } else {
            crate::duration::push_dec(out, (-v) as u64);
        }
        proof {
            assert(final(out)@ =~= old(out)@ + int_text(v as int));
        }
    } else {
        crate::duration::push_dec(out, v as u64);
    }
}

} // verus!

verus! {

/// The signed decimal at the head of `s`: its value and the bytes consumed.
/// Values outside the signed 64-bit range do not parse.
pub open spec fn spec_int_prefix(s: Seq<u8>) -> Option<(int, int)> {
    if s.len() > 0 && s[0] == 45 {
        let dl = crate::duration::digit_prefix_len(s.skip(1));
        if dl == 0 {
            None
        } else {
            let v = crate::duration::dec_value(s.skip(1).take(dl as int));
            if -v < i64::MIN {
                None
            } else {
                Some((-v, dl + 1int))
            }
        }
    } else {
        let dl = crate::duration::digit_prefix_len(s);
        if dl == 0 {
            None
        } else {
            let v = crate::duration::dec_value(s.take(dl as int));
            if v > i64::MAX {
                None
            } else {
                Some((v, dl as int))
            }
        }
    }
}

/// The bound at the head of `s`: `x` for an absent bound, else an integer.
pub open spec fn spec_bound_prefix(s: Seq<u8>) -> Option<(Option<int>, int)> {
    if s.len() > 0 && s[0] == 120 {
        Some((None, 1))
    } else {
        match spec_int_prefix(s) {
            Some(p) => Some((Some(p.0), p.1)),
            None => None,
        }
    }
}

/// The entries a token encodes: `partition.min.max;` groups, with consistent
/// bounds (both present and ordered, or both absent).
pub open spec fn spec_parse_token(s: Seq<u8>) -> Option<Seq<(int, RangeModel)>>
    decreases s.len(),
{
    if s.len() == 0 {
        Some(Seq::empty())
    } else {
        match spec_int_prefix(s) {
            None => None,
            Some(p1) => {
                let pid = p1.0;
                let s1 = s.skip(p1.1);
                if p1.1 < 1 || s1.len() == 0 || s1[0] != 46 {
                    None
                } else {
                    match spec_bound_prefix(s1.skip(1)) {
                        None => None,
                        Some(p2) => {
                            let mn = p2.0;
                            let s2 = s1.skip(1 + p2.1);
                            if p2.1 < 1 || s2.len() == 0 || s2[0] != 46 {
                                None
                            } else {
                                match spec_bound_prefix(s2.skip(1)) {
                                    None => None,
                                    Some(p3) => {
                                        let mx = p3.0;
                                        let s3 = s2.skip(1 + p3.1);
                                        if p3.1 < 1 || s3.len() == 0 || s3[0] != 59 {
                                            None
                                        } else if (mn is Some) != (mx is Some) {
                                            None
                                        } else if mn matches Some(lo) && mx matches Some(hi) && lo
                                            > hi {
                                            None
                                        } else {
                                            let rest = s3.skip(1);
                                            if rest.len() >= s.len() {
                                                None
                                            } else {
                                                match spec_parse_token(rest) {
                                                    None => None,
                                                    Some(es) => Some(
                                                        seq![(pid, RangeModel { min: mn, max: mx })]
                                                            + es,
                                                    ),
                                                }
                                            }
                                        }
                                    },
                                }
                            }
                        },
                    }
                }
            },
        }
    }
}

} // verus!

verus! {

/// Parse the signed decimal at position `pos`: its value and the bytes it
/// spans.
fn int_prefix(s: &[u8], pos: usize) -> (r: Option<(i64, usize)>)
    requires
        pos <= s@.len(),
    ensures
        match r {
            Some(p) => spec_int_prefix(s@.skip(pos as int)) == Some((p.0 as int, p.1 as int))
                && 1 <= p.1 && pos + p.1 <= s@.len(),
            None => spec_int_prefix(s@.skip(pos as int)) is None,
        },
{
    let ghost t = s@.skip(pos as int);
    let n = s.len();
    if pos >= n {
        proof {
            assert(crate::duration::digit_prefix_len(t) == 0);
        }
        return None;
    }
    let neg = s[pos] == 45;
    let ds: usize = if neg {
        pos + 1
    } else {
        pos
    };
    let ghost td = if neg {
        t.skip(1)
    } else {
        t
    };
    proof {
        assert(td =~= s@.skip(ds as int));
    }
    // Scan the digit run.
    let mut e = ds;
    while e < n && 48 <= s[e] && s[e] <= 57
        invariant
            ds <= e <= n,
            n == s@.len(),
            td == s@.skip(ds as int),
            forall|j: int| ds <= j < e ==> crate::duration::is_digit(#[trigger] s@[j]),
            crate::duration::digit_prefix_len(td) == (e - ds)
                + crate::duration::digit_prefix_len(s@.skip(e as int)),
        decreases n - e,
    {
        proof {
            assert(s@.skip(e as int)[0] == s@[e as int]);
            assert(s@.skip(e as int).drop_first() =~= s@.skip(e as int + 1));
        }
        e += 1;
    }
    proof {
        if e < n {
            assert(s@.skip(e as int)[0] == s@[e as int]);
            assert(crate::duration::digit_prefix_len(s@.skip(e as int)) == 0);
        } else {
            assert(s@.skip(e as int).len() == 0);
        }
        assert(crate::duration::digit_prefix_len(td) == e - ds);
    }
    if e == ds {
        return None;
    }
    let cap: u64 = if neg {
        9223372036854775808
    } else {
        9223372036854775807
    };
    proof {
        assert(td.take((e - ds) as int) =~= s@.subrange(ds as int, e as int));
        assert(crate::lineproto::all_digits(s@, ds as int, e as int));
    }
    match crate::lineproto::parse_u64_digits(s, ds, e, cap) {
        Some(v) => {
            let value: i64 = if neg {
                if v == 9223372036854775808 {
                    i64::MIN
                } else {
                    -(v as i64)
                }
            } else {
                v as i64
            };
            Some((value, e - pos))
        },
        None => {
            proof {
                // The digits are all digits and non-empty, so the failure is
                // a value beyond the cap, which the spec also rejects.
                assert(crate::duration::dec_value(s@.subrange(ds as int, e as int)) > cap);
            }
            None
        },
    }
}

/// Parse the bound at position `pos`: `x` for an absent bound, else a value.
fn bound_prefix(s: &[u8], pos: usize) -> (r: Option<(Option<i64>, usize)>)
    requires
        pos <= s@.len(),
    ensures
        match r {
            Some(p) => spec_bound_prefix(s@.skip(pos as int)) == Some(
                (
                    match p.0 {
                        Some(v) => Some(v as int),
                        None => None,
                    },
                    p.1 as int,
                ),
            ) && 1 <= p.1 && pos + p.1 <= s@.len(),
            None => spec_bound_prefix(s@.skip(pos as int)) is None,
        },
{
    if pos < s.len() && s[pos] == 120 {
        proof {
            assert(s@.skip(pos as int)[0] == 120);
        }
        return Some((None, 1));
    }
    match int_prefix(s, pos) {
        Some(p) => Some((Some(p.0), p.1)),
        None => None,
    }
}

impl WriteSummary {
    /// Decode a token produced by [`Self::to_token`]: the partitions and
    /// ranges it encodes, or nothing for text that is not a well-formed
    /// token.
    #[verifier::rlimit(60)]
    #[verifier::spinoff_prover]
    pub fn from_token(tok: &[u8]) -> (r: Option<WriteSummary>)
        ensures
            match r {
                Some(ws) => spec_parse_token(tok@) == Some(ws.model()) && ws.wf(),
                None => spec_parse_token(tok@) is None,
            },
    {
        let n = tok.len();
        let mut ws = WriteSummary::new();
        let mut pos: usize = 0;
        proof {
            assert(tok@.skip(0) =~= tok@);
        }
        loop
            invariant
                pos <= n,
                n == tok@.len(),
                ws.wf(),
                match spec_parse_token(tok@.skip(pos as int)) {
                    Some(es) => spec_parse_token(tok@) == Some(ws.model() + es),
                    None => spec_parse_token(tok@) is None,
                },
            decreases n - pos,
        {
            let ghost t = tok@.skip(pos as int);
            if pos == n {
                proof {
                    assert(t.len() == 0);
                    assert(ws.model() + Seq::<(int, RangeModel)>::empty() =~= ws.model());
                }
                return Some(ws);
            }
            let (pid, c1) = match int_prefix(tok, pos) {
                Some(p) => p,
                None => {
                    return None;
                },
            };
            let p1 = pos + c1;
            proof {
                assert(t.skip(c1 as int) =~= tok@.skip(p1 as int));
            }
            if p1 >= n || tok[p1] != 46 {
                return None;
            }
            proof {
                assert(t.skip(c1 as int)[0] == tok@[p1 as int]);
                assert(t.skip(c1 as int).skip(1) =~= tok@.skip(p1 as int + 1));
            }
            let (mn, c2) = match bound_prefix(tok, p1 + 1) {
                Some(p) => p,
                None => {
                    return None;
                },
            };
            let p2 = p1 + 1 + c2;
            proof {
                assert(t.skip(c1 as int).skip(1 + c2 as int) =~= tok@.skip(p2 as int));
            }
            if p2 >= n || tok[p2] != 46 {
                return None;
            }
            proof {
                assert(t.skip(c1 as int).skip(1 + c2 as int)[0] == tok@[p2 as int]);
                assert(t.skip(c1 as int).skip(1 + c2 as int).skip(1) =~= tok@.skip(p2 as int + 1));
            }
            let (mx, c3) = match bound_prefix(tok, p2 + 1) {
                Some(p) => p,
                None => {
                    return None;
                },
            };
            let p3 = p2 + 1 + c3;
            proof {
                assert(t.skip(c1 as int).skip(1 + c2 as int).skip(1 + c3 as int) =~= tok@.skip(
                    p3 as int,
                ));
            }
            if p3 >= n || tok[p3] != 59 {
                return None;
            }
            proof {
                assert(t.skip(c1 as int).skip(1 + c2 as int).skip(1 + c3 as int)[0]
                    == tok@[p3 as int]);
            }
            let range = match (mn, mx) {
                (None, None) => SequenceNumberRange::new(),
                (Some(lo), Some(hi)) => {
                    if lo > hi {
                        return None;
                    }
                    SequenceNumberRange::with_bounds(lo, hi)
                },
                _ => {
                    return None;
                },
            };
            let ghost before = ws.model();
            ws.push(pid, range);
            proof {
                let rest = tok@.skip(p3 as int + 1);
                assert(t.skip(c1 as int).skip(1 + c2 as int).skip(1 + c3 as int).skip(1) =~= rest);
                assert(rest.len() < t.len());
                match spec_parse_token(rest) {
                    Some(es) => {
                        assert(spec_parse_token(t) == Some(seq![(pid as int, range@)] + es));
                        assert(before + (seq![(pid as int, range@)] + es) =~= ws.model() + es);
                    },
                    None => {
                        assert(spec_parse_token(t) is None);
                    },
                }
            }
            pos = p3 + 1;
        }
    }
}

} // verus!

verus! {

/// The token text of one entry.
pub open spec fn group_text(e: (int, RangeModel)) -> Seq<u8> {
    int_text(e.0) + seq![46u8] + bound_text(e.1.min) + seq![46u8] + bound_text(e.1.max)
        + seq![59u8]
}

/// A token decomposes at its first group.
proof fn lemma_token_of_first(es: Seq<(int, RangeModel)>)
    requires
        es.len() > 0,
    ensures
        token_of(es) == group_text(es[0]) + token_of(es.drop_first()),
    decreases es.len(),
{
    if es.len() == 1 {
        assert(es.drop_last() =~= Seq::<(int, RangeModel)>::empty());
        assert(es.drop_first() =~= Seq::<(int, RangeModel)>::empty());
        assert(token_of(es) =~= group_text(es[0]) + token_of(es.drop_first()));
    } else {
        lemma_token_of_first(es.drop_last());
        assert(es.drop_last()[0] == es[0]);
        assert(es.drop_last().drop_first() =~= es.drop_first().drop_last());
        assert(es.drop_first().last() == es.last());
        assert(token_of(es) == token_of(es.drop_last()) + group_text(es.last()));
        assert(token_of(es.drop_first()) == token_of(es.drop_first().drop_last()) + group_text(
            es.last(),
        ));
        assert(token_of(es) =~= group_text(es[0]) + token_of(es.drop_first()));
    }
}

/// A rendered integer followed by a non-digit, non-sign byte reads back as
/// itself.
proof fn lemma_int_prefix_of(v: int, rest: Seq<u8>)
    requires
        i64::MIN <= v <= i64::MAX,
        rest.len() > 0,
        !crate::duration::is_digit(rest[0]),
        rest[0] != 45,
    ensures
        spec_int_prefix(int_text(v) + rest) == Some((v, int_text(v).len() as int)),
        int_text(v).len() >= 1,
{
    let s = int_text(v) + rest;
    if v >= 0 {
        let d = dec_digits(v as nat);
        crate::duration::lemma_dec_digits_digits(v as nat);
        crate::duration::lemma_dec_digits_roundtrip(v as nat);
        assert(s =~= d + rest);
        crate::duration::lemma_digit_prefix_concat(d, rest);
        assert(s[0] == d[0]);
        assert(crate::duration::is_digit(s[0]));
        assert(s[0] != 45);
        assert(crate::duration::digit_prefix_len(s) == d.len());
        assert(s.take(d.len() as int) == d);
    } else {
        let d = dec_digits((-v) as nat);
        crate::duration::lemma_dec_digits_digits((-v) as nat);
        crate::duration::lemma_dec_digits_roundtrip((-v) as nat);
        assert(s[0] == 45);
        assert(s.skip(1) =~= d + rest);
        crate::duration::lemma_digit_prefix_concat(d, rest);
        assert(crate::duration::digit_prefix_len(s.skip(1)) == d.len());
        assert(s.skip(1).take(d.len() as int) == d);
        assert(int_text(v).len() == d.len() + 1);
    }
}

/// A rendered bound followed by a separator reads back as itself.
proof fn lemma_bound_prefix_of(b: Option<int>, rest: Seq<u8>)
    requires
        b matches Some(v) ==> i64::MIN <= v <= i64::MAX,
        rest.len() > 0,
        !crate::duration::is_digit(rest[0]),
        rest[0] != 45,
    ensures
        spec_bound_prefix(bound_text(b) + rest) == Some((b, bound_text(b).len() as int)),
        bound_text(b).len() >= 1,
{
    let s = bound_text(b) + rest;
    match b {
        None => {
            assert(s[0] == 120);
        },
        Some(v) => {
            lemma_int_prefix_of(v, rest);
            assert(s =~= int_text(v) + rest);
            // The head is a sign or digit, never the absent-bound marker.
            if v >= 0 {
                crate::duration::lemma_dec_digits_digits(v as nat);
                assert(s[0] == dec_digits(v as nat)[0]);
                assert(crate::duration::is_digit(s[0]));
            } else {
                assert(s[0] == 45);
            }
            assert(s[0] != 120);
        },
    }
}

/// Parsing a rendered group consumes exactly the group.
#[verifier::rlimit(100)]
#[verifier::spinoff_prover]
proof fn lemma_group_parse(e0: (int, RangeModel), restg: Seq<u8>)
    requires
        i64::MIN <= e0.0 <= i64::MAX,
        match (e0.1.min, e0.1.max) {
            (Some(lo), Some(hi)) => i64::MIN <= lo <= hi <= i64::MAX,
            (None, None) => true,
            _ => false,
        },
    ensures
        spec_parse_token(group_text(e0) + restg) == (match spec_parse_token(restg) {
            None => None::<Seq<(int, RangeModel)>>,
            Some(es) => Some(seq![(e0.0, e0.1)] + es),
        }),
{
    let s = group_text(e0) + restg;
    let tail1 = seq![46u8] + bound_text(e0.1.min) + seq![46u8] + bound_text(e0.1.max)
        + seq![59u8] + restg;
    assert(s =~= int_text(e0.0) + tail1);
    assert(tail1[0] == 46);
    lemma_int_prefix_of(e0.0, tail1);
    let c1 = int_text(e0.0).len() as int;
    assert(spec_int_prefix(s) == Some((e0.0, c1)));
    assert(s.skip(c1) =~= tail1);
    let tail2 = seq![46u8] + bound_text(e0.1.max) + seq![59u8] + restg;
    assert(tail1.skip(1) =~= bound_text(e0.1.min) + tail2);
    assert(tail2[0] == 46);
    lemma_bound_prefix_of(e0.1.min, tail2);
    let c2 = bound_text(e0.1.min).len() as int;
    assert(spec_bound_prefix(tail1.skip(1)) == Some((e0.1.min, c2)));
    assert(tail1.skip(1 + c2) =~= tail2);
    let tail3 = seq![59u8] + restg;
    assert(tail2.skip(1) =~= bound_text(e0.1.max) + tail3);
    assert(tail3[0] == 59);
    lemma_bound_prefix_of(e0.1.max, tail3);
    let c3 = bound_text(e0.1.max).len() as int;
    assert(spec_bound_prefix(tail2.skip(1)) == Some((e0.1.max, c3)));
    assert(tail2.skip(1 + c3) =~= tail3);
    assert(tail3.skip(1) =~= restg);
    assert(restg.len() < s.len());
    assert(e0.1 == RangeModel { min: e0.1.min, max: e0.1.max });
}

/// Decoding an encoded summary returns the summary: the token round trip,
/// for entries a summary can hold (bounds both present and ordered or both
/// absent, values in the signed 64-bit range).
pub proof fn lemma_token_round_trip(es: Seq<(int, RangeModel)>)
    requires
        forall|k: int|
            0 <= k < es.len() ==> {
                let e = #[trigger] es[k];
                &&& i64::MIN <= e.0 <= i64::MAX
                &&& match (e.1.min, e.1.max) {
                    (Some(lo), Some(hi)) => i64::MIN <= lo <= hi <= i64::MAX,
                    (None, None) => true,
                    _ => false,
                }
            },
    ensures
        spec_parse_token(token_of(es)) == Some(es),
    decreases es.len(),
{
    if es.len() == 0 {
        assert(token_of(es) =~= Seq::<u8>::empty());
    } else {
        lemma_token_of_first(es);
        assert forall|k: int| 0 <= k < es.drop_first().len() implies {
            let e = #[trigger] es.drop_first()[k];
            &&& i64::MIN <= e.0 <= i64::MAX
            &&& match (e.1.min, e.1.max) {
                (Some(lo), Some(hi)) => i64::MIN <= lo <= hi <= i64::MAX,
                (None, None) => true,
                _ => false,
            }
        } by {
            assert(es.drop_first()[k] == es[k + 1]);
        }
        lemma_token_round_trip(es.drop_first());
        lemma_group_parse(es[0], token_of(es.drop_first()));
        assert(es[0] == (es[0].0, es[0].1));
        assert(seq![(es[0].0, es[0].1)] + es.drop_first() =~= es);
    }
}

} // verus!
