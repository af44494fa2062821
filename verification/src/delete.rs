//! The delete front-end: parse the JSON envelope `{start, stop, predicate}`
//! of a delete request, the timestamp range, and the predicate's column
//! comparisons, extracting the table from a `_measurement` equality.

use vstd::prelude::*;

use crate::duration::{dec_value, is_digit};
use crate::http::{DeleteExpr, DeletePredicate};
use crate::lineproto::all_digits;

verus! {

/// The raw parts of a delete request body.
pub(crate) struct HttpDeleteRequest {
    /// The range start, as given (RFC3339 seconds or a nanosecond count).
    pub(crate) start_time: Vec<u8>,
    /// The range stop, as given.
    pub(crate) stop_time: Vec<u8>,
    /// The predicate text; may be empty.
    pub(crate) predicate: Vec<u8>,
}

// ---------------------------------------------------------------------------
// The envelope grammar
// ---------------------------------------------------------------------------

/// Whether a byte is JSON whitespace.
pub open spec fn is_json_ws(b: u8) -> bool {
    b == 32 || b == 9 || b == 10 || b == 13
}

/// The first non-whitespace position at or after `pos`.
pub open spec fn spec_skip_ws(s: Seq<u8>, pos: int) -> int
    decreases s.len() - pos,
{
    if pos < 0 || pos >= s.len() || !is_json_ws(s[pos]) {
        pos
    } else {
        spec_skip_ws(s, pos + 1)
    }
}

/// The unescaped content and end position of a JSON string scanned from `i`
/// with `acc` already unescaped. The standard single-byte escapes are
/// decoded; an unknown escape (including `\u`, which this parser does not
/// support) fails.
pub open spec fn spec_json_string_from(s: Seq<u8>, i: int, acc: Seq<u8>) -> Option<(Seq<u8>, int)>
    decreases s.len() - i,
{
    if i < 0 || i >= s.len() {
        None
    } else if s[i] == 92 {
        if i + 1 >= s.len() {
            None
        } else {
            let e = s[i + 1];
            if e == 34 || e == 92 || e == 47 {
                spec_json_string_from(s, i + 2, acc.push(e))
            } else if e == 110 {
                spec_json_string_from(s, i + 2, acc.push(10))
            } else if e == 116 {
                spec_json_string_from(s, i + 2, acc.push(9))
            } else if e == 114 {
                spec_json_string_from(s, i + 2, acc.push(13))
            } else if e == 98 {
                spec_json_string_from(s, i + 2, acc.push(8))
            } else if e == 102 {
                spec_json_string_from(s, i + 2, acc.push(12))
            } else {
                None
            }
        }
    } else if s[i] == 34 {
        Some((acc, i + 1))
    } else {
        spec_json_string_from(s, i + 1, acc.push(s[i]))
    }
}

/// The JSON string opening at `pos`: its content and end position.
pub open spec fn spec_json_string(s: Seq<u8>, pos: int) -> Option<(Seq<u8>, int)> {
    if 0 <= pos < s.len() && s[pos] == 34 {
        spec_json_string_from(s, pos + 1, Seq::empty())
    } else {
        None
    }
}

/// The name of the `start` member.
pub open spec fn start_name() -> Seq<u8> {
    seq![115u8, 116u8, 97u8, 114u8, 116u8]
}

/// The name of the `stop` member.
pub open spec fn stop_name() -> Seq<u8> {
    seq![115u8, 116u8, 111u8, 112u8]
}

/// The name of the `predicate` member.
pub open spec fn predicate_name() -> Seq<u8> {
    seq![112u8, 114u8, 101u8, 100u8, 105u8, 99u8, 97u8, 116u8, 101u8]
}

/// The members collected from `pos` on: string-valued `start`, `stop` and
/// `predicate` members, comma separated, up to the closing brace. Anything
/// else fails.
pub open spec fn spec_env_members(
    s: Seq<u8>,
    pos: int,
    st: Option<Seq<u8>>,
    sp: Option<Seq<u8>>,
    pr: Option<Seq<u8>>,
) -> Option<(Option<Seq<u8>>, Option<Seq<u8>>, Option<Seq<u8>>)>
    decreases s.len() - pos,
{
    if pos < 0 {
        None
    } else {
        let q = spec_skip_ws(s, pos);
        if q >= s.len() {
            None
        } else if s[q] == 125 {
            Some((st, sp, pr))
        } else {
            match spec_json_string(s, q) {
                None => None,
                Some(kp) => {
                    let key = kp.0;
                    let colon = spec_skip_ws(s, kp.1);
                    if colon >= s.len() || s[colon] != 58 {
                        None
                    } else {
                        let vstart = spec_skip_ws(s, colon + 1);
                        if vstart >= s.len() {
                            None
                        } else {
                            match spec_json_string(s, vstart) {
                                None => None,
                                Some(vp) => {
                                    let value = vp.0;
                                    let st2 = if key == start_name() {
                                        Some(value)
                                    } else {
                                        st
                                    };
                                    let sp2 = if key == stop_name() {
                                        Some(value)
                                    } else {
                                        sp
                                    };
                                    let pr2 = if key == predicate_name() {
                                        Some(value)
                                    } else {
                                        pr
                                    };
                                    if key != start_name() && key != stop_name() && key
                                        != predicate_name() {
                                        None
                                    } else {
                                        let sep = spec_skip_ws(s, vp.1);
                                        if sep < s.len() && s[sep] == 44 {
                                            if sep + 1 <= pos {
                                                None
                                            } else {
                                                spec_env_members(s, sep + 1, st2, sp2, pr2)
                                            }
                                        } else if sep < s.len() && s[sep] == 125 {
                                            Some((st2, sp2, pr2))
                                        } else {
                                            None
                                        }
                                    }
                                },
                            }
                        }
                    }
                },
            }
        }
    }
}

/// The envelope of a delete request: `{start, stop, predicate}` with string
/// values, the predicate defaulting to empty. `None` for anything else.
pub open spec fn spec_envelope(body: Seq<u8>) -> Option<(Seq<u8>, Seq<u8>, Seq<u8>)> {
    let pos = spec_skip_ws(body, 0);
    if pos >= body.len() || body[pos] != 123 {
        None
    } else {
        match spec_env_members(body, pos + 1, None, None, None) {
            None => None,
            Some(m) => match (m.0, m.1) {
                (Some(st), Some(sp)) => Some(
                    (
                        st,
                        sp,
                        match m.2 {
                            Some(p) => p,
                            None => Seq::empty(),
                        },
                    ),
                ),
                _ => None,
            },
        }
    }
}

// ---------------------------------------------------------------------------
// Exec envelope parsing
// ---------------------------------------------------------------------------

/// Skip whitespace from `pos`.
fn skip_ws(s: &[u8], pos: usize) -> (r: usize)
    requires
        pos <= s@.len(),
    ensures
        pos <= r <= s@.len(),
        r as int == spec_skip_ws(s@, pos as int),
        r < s@.len() ==> !is_json_ws(s@[r as int]),
{
    let n = s.len();
    let mut i = pos;
    while i < n
        invariant
            pos <= i <= n,
            n == s@.len(),
            spec_skip_ws(s@, pos as int) == spec_skip_ws(s@, i as int),
        decreases n - i,
    {
        let b = s[i];
        if b == 32 || b == 9 || b == 10 || b == 13 {
            i += 1;
        } else {
            return i;
        }
    }
    n
}

/// Scan a JSON string starting at the opening quote; returns the unescaped
/// bytes and the position after the closing quote. The standard single-byte
/// escapes are decoded; an unknown escape (including `\u`, which this parser
/// does not support) fails.
fn scan_json_string(s: &[u8], pos: usize) -> (r: Option<(Vec<u8>, usize)>)
    requires
        pos < s@.len(),
        s@[pos as int] == 34,
    ensures
        match r {
            Some(p) => pos < p.1 <= s@.len() && spec_json_string(s@, pos as int) == Some(
                (p.0@, p.1 as int),
            ),
            None => spec_json_string(s@, pos as int) is None,
        },
{
    let n = s.len();
    let mut out: Vec<u8> = Vec::new();
    let mut i = pos + 1;
    proof {
        assert(out@ =~= Seq::<u8>::empty());
    }
    while i < n
        invariant
            pos < i <= n,
            n == s@.len(),
            s@[pos as int] == 34,
            spec_json_string(s@, pos as int) == spec_json_string_from(s@, i as int, out@),
        decreases n - i,
    {
        let b = s[i];
        if b == 92 {
            if i + 1 >= n {
                return None;
            }
            let e = s[i + 1];
            if e == 34 || e == 92 || e == 47 {
                out.push(e);
            } else if e == 110 {
                out.push(10);  // \n
            } else if e == 116 {
                out.push(9);  // \t
            } else if e == 114 {
                out.push(13);  // \r
            } else if e == 98 {
                out.push(8);  // \b
            } else if e == 102 {
                out.push(12);  // \f
            } else {
                return None;
            }
            i += 2;
        } else if b == 34 {
            return Some((out, i + 1));
        } else {
            out.push(b);
            i += 1;
        }
    }
    None
}

/// Whether two byte strings are equal (case sensitive).
fn name_is(v: &Vec<u8>, expected: &[u8]) -> (r: bool)
    ensures
        r == (v@ =~= expected@),
{
    crate::bytes::bytes_eq(v.as_slice(), expected)
}

/// Parse the JSON envelope of a delete request, exactly as [`spec_envelope`]
/// reads it: an object with the string members `start`, `stop` and
/// `predicate` (the predicate may be absent, defaulting to empty). Anything
/// else fails.
pub(crate) fn parse_http_delete_request(body: &[u8]) -> (r: Result<HttpDeleteRequest, ()>)
    ensures
        match r {
            Ok(p) => spec_envelope(body@) == Some((p.start_time@, p.stop_time@, p.predicate@)),
            Err(_) => spec_envelope(body@) is None,
        },
{
    let n = body.len();
    let mut pos = skip_ws(body, 0);
    if pos >= n || body[pos] != 123 {
        return Err(());
    }
    pos = pos + 1;
    let mut start_time: Option<Vec<u8>> = None;
    let mut stop_time: Option<Vec<u8>> = None;
    let mut predicate: Option<Vec<u8>> = None;
    loop
        invariant_except_break
            spec_envelope(body@) == (match spec_env_members(
                body@,
                pos as int,
                match start_time {
                    Some(v) => Some(v@),
                    None => None,
                },
                match stop_time {
                    Some(v) => Some(v@),
                    None => None,
                },
                match predicate {
                    Some(v) => Some(v@),
                    None => None,
                },
            ) {
                None => None::<(Seq<u8>, Seq<u8>, Seq<u8>)>,
                Some(m) => match (m.0, m.1) {
                    (Some(st), Some(sp)) => Some(
                        (
                            st,
                            sp,
                            match m.2 {
                                Some(p) => p,
                                None => Seq::empty(),
                            },
                        ),
                    ),
                    _ => None,
                },
            }),
        invariant
            0 < pos <= n,
            n == body@.len(),
        ensures
            spec_envelope(body@) == (match (
                match start_time {
                    Some(v) => Some(v@),
                    None => None::<Seq<u8>>,
                },
                match stop_time {
                    Some(v) => Some(v@),
                    None => None::<Seq<u8>>,
                },
            ) {
                (Some(st), Some(sp)) => Some(
                    (
                        st,
                        sp,
                        match predicate {
                            Some(p) => p@,
                            None => Seq::<u8>::empty(),
                        },
                    ),
                ),
                _ => None::<(Seq<u8>, Seq<u8>, Seq<u8>)>,
            }),
        decreases n - pos,
    {
        let q = skip_ws(body, pos);
        if q >= n {
            return Err(());
        }
        if body[q] == 125 {
            // End of object.
            break ;
        }
        if body[q] != 34 {
            return Err(());
        }
        let (key, after_key) = match scan_json_string(body, q) {
            Some(p) => p,
            None => {
                return Err(());
            },
        };
        let colon = skip_ws(body, after_key);
        if colon >= n || body[colon] != 58 {
            return Err(());
        }
        let vstart = skip_ws(body, colon + 1);
        if vstart >= n {
            return Err(());
        }
        if body[vstart] != 34 {
            return Err(());
        }
        let (value, after_value) = match scan_json_string(body, vstart) {
            Some(p) => p,
            None => {
                return Err(());
            },
        };
        let mut start_key: Vec<u8> = Vec::new();
        start_key.push(115);
        start_key.push(116);
        start_key.push(97);
        start_key.push(114);
        start_key.push(116);
        let mut stop_key: Vec<u8> = Vec::new();
        stop_key.push(115);
        stop_key.push(116);
        stop_key.push(111);
        stop_key.push(112);
        let mut pred_key: Vec<u8> = Vec::new();
        pred_key.push(112);
        pred_key.push(114);
        pred_key.push(101);
        pred_key.push(100);
        pred_key.push(105);
        pred_key.push(99);
        pred_key.push(97);
        pred_key.push(116);
        pred_key.push(101);
        proof {
            assert(start_key@ =~= start_name());
            assert(stop_key@ =~= stop_name());
            assert(pred_key@ =~= predicate_name());
        }
        if name_is(&key, start_key.as_slice()) {
            start_time = Some(value);
        } else if name_is(&key, stop_key.as_slice()) {
            stop_time = Some(value);
        } else if name_is(&key, pred_key.as_slice()) {
            predicate = Some(value);
        } else {
            return Err(());
        }
        let sep = skip_ws(body, after_value);
        if sep < n && body[sep] == 44 {
            if sep + 1 <= pos {
                return Err(());
            }
            pos = sep + 1;
        } else if sep < n && body[sep] == 125 {
            break ;
        } else {
            return Err(());
        }
    }
    let start_time = match start_time {
        Some(v) => v,
        None => {
            return Err(());
        },
    };
    let stop_time = match stop_time {
        Some(v) => v,
        None => {
            return Err(());
        },
    };
    let predicate = match predicate {
        Some(v) => v,
        None => Vec::new(),
    };
    Ok(HttpDeleteRequest { start_time, stop_time, predicate })
}

} // verus!

verus! {

// ---------------------------------------------------------------------------
// Time bounds
// ---------------------------------------------------------------------------

/// Whether a year is a leap year.
pub open spec fn spec_leap(y: int) -> bool {
    (y % 4 == 0 && y % 100 != 0) || y % 400 == 0
}

/// Days in a month.
pub open spec fn spec_days_in_month(m: int, leap: bool) -> int {
    if m == 2 {
        if leap {
            29
        } else {
            28
        }
    } else if m == 4 || m == 6 || m == 9 || m == 11 {
        30
    } else {
        31
    }
}

/// Days in the whole years from 1970 up to (excluding) `y`.
pub open spec fn spec_year_days(y: int) -> int
    decreases y - 1970,
{
    if y <= 1970 {
        0
    } else {
        spec_year_days(y - 1) + if spec_leap(y - 1) {
            366int
        } else {
            365int
        }
    }
}

/// Days in the whole months of a year before month `m`.
pub open spec fn spec_month_days(m: int, leap: bool) -> int
    decreases m,
{
    if m <= 1 {
        0
    } else {
        spec_month_days(m - 1, leap) + spec_days_in_month(m - 1, leap)
    }
}

/// The nanosecond value of an RFC3339 second-resolution timestamp
/// `YYYY-MM-DDTHH:MM:SSZ` between 1970 and 2200.
pub open spec fn spec_rfc3339(s: Seq<u8>) -> Option<int> {
    if s.len() != 20 {
        None
    } else if s[4] != 45 || s[7] != 45 || s[10] != 84 || s[13] != 58 || s[16] != 58 || s[19]
        != 90 {
        None
    } else if !(all_digits(s, 0, 4) && all_digits(s, 5, 7) && all_digits(s, 8, 10) && all_digits(
        s,
        11,
        13,
    ) && all_digits(s, 14, 16) && all_digits(s, 17, 19)) {
        None
    } else {
        let year = dec_value(s.subrange(0, 4));
        let month = dec_value(s.subrange(5, 7));
        let day = dec_value(s.subrange(8, 10));
        let hour = dec_value(s.subrange(11, 13));
        let minute = dec_value(s.subrange(14, 16));
        let second = dec_value(s.subrange(17, 19));
        if year < 1970 || year > 2200 || month < 1 || month > 12 || day < 1 || hour > 23 || minute
            > 59 || second > 59 {
            None
        } else if day > spec_days_in_month(month, spec_leap(year)) {
            None
        } else {
            let days = spec_year_days(year) + spec_month_days(month, spec_leap(year)) + day - 1;
            let secs = days * 86400 + hour * 3600 + minute * 60 + second;
            if secs > 9223372036 {
                None
            } else {
                Some(secs * 1000000000)
            }
        }
    }
}

/// The nanosecond value of a time bound: a plain (possibly negative) count,
/// or an RFC3339 timestamp. Counts beyond the signed 64-bit range do not
/// parse.
pub open spec fn spec_time_bound(s: Seq<u8>) -> Option<int> {
    if s.len() == 0 {
        None
    } else {
        let neg = s[0] == 45;
        let ds: int = if neg {
            1
        } else {
            0
        };
        if ds < s.len() && all_digits(s, ds, s.len() as int) {
            let v = dec_value(s.subrange(ds, s.len() as int));
            if v > i64::MAX {
                None
            } else if neg {
                Some(-v)
            } else {
                Some(v)
            }
        } else {
            spec_rfc3339(s)
        }
    }
}

/// Powers of ten.
pub open spec fn p10(n: nat) -> int
    decreases n,
{
    if n == 0 {
        1
    } else {
        10 * p10((n - 1) as nat)
    }
}

/// A digit string's value is below ten to its length.
proof fn lemma_dec_value_p10(s: Seq<u8>)
    requires
        forall|j: int| 0 <= j < s.len() ==> is_digit(#[trigger] s[j]),
    ensures
        dec_value(s) < p10(s.len()),
        dec_value(s) >= 0,
    decreases s.len(),
{
    if s.len() == 0 {
    } else {
        assert forall|j: int| 0 <= j < s.drop_last().len() implies is_digit(
            #[trigger] s.drop_last()[j],
        ) by {
            assert(s.drop_last()[j] == s[j]);
        }
        lemma_dec_value_p10(s.drop_last());
    }
}

/// Parse a fixed run of digits as a number.
fn digits_at(s: &[u8], pos: usize, len: usize) -> (r: Option<u64>)
    requires
        pos + len <= s@.len(),
        len <= 8,
    ensures
        match r {
            Some(v) => all_digits(s@, pos as int, pos + len) && v as int == dec_value(
                s@.subrange(pos as int, pos + len),
            ) && v < 100000000,
            None => !all_digits(s@, pos as int, pos + len),
        },
{
    let n = s.len();
    let mut val: u64 = 0;
    let mut i: usize = 0;
    proof {
        assert(s@.subrange(pos as int, pos as int) =~= Seq::<u8>::empty());
    }
    while i < len
        invariant
            0 <= i <= len <= 8,
            n == s@.len(),
            pos + len <= n,
            val < 100000000,
            all_digits(s@, pos as int, pos + i),
            val as int == dec_value(s@.subrange(pos as int, pos + i)),
        decreases len - i,
    {
        let b = s[pos + i];
        proof {
            assert(s@.subrange(pos as int, pos + i + 1).drop_last() =~= s@.subrange(
                pos as int,
                pos + i,
            ));
            assert(s@.subrange(pos as int, pos + i + 1).last() == s@[pos + i]);
        }
        if b < 48 || b > 57 {
            return None;
        }
        proof {
            // At most seven digits precede this one, so the next value stays
            // below the invariant's bound.
            let pre = s@.subrange(pos as int, pos + i);
            lemma_dec_value_p10(pre);
            reveal_with_fuel(p10, 9);
            assert(dec_value(pre) < 10000000);
        }
        val = val * 10 + ((b - 48) as u64);
        i += 1;
    }
    proof {
        assert(val < 100000000);
    }
    Some(val)
}

/// Parse a time bound, exactly as [`spec_time_bound`] reads it.
pub(crate) fn parse_time_bound(s: &[u8]) -> (r: Option<i64>)
    ensures
        match r {
            Some(v) => spec_time_bound(s@) == Some(v as int),
            None => spec_time_bound(s@) is None,
        },
{
    let n = s.len();
    if n == 0 {
        return None;
    }
    // Plain integer nanoseconds.
    let neg = s[0] == 45;
    let ds: usize = if neg {
        1
    } else {
        0
    };
    let mut digits_ok = ds < n;
    let mut i = ds;
    while i < n
        invariant_except_break
            digits_ok == (ds < n && all_digits(s@, ds as int, i as int)),
        invariant
            ds <= i <= n,
            n == s@.len(),
        ensures
            digits_ok == (ds < n && all_digits(s@, ds as int, n as int)),
        decreases n - i,
    {
        if s[i] < 48 || s[i] > 57 {
            digits_ok = false;
            proof {
                assert(!is_digit(s@[i as int]));
                assert(!all_digits(s@, ds as int, n as int));
            }
            break ;
        }
        i += 1;
    }
    if digits_ok {
        let mut val: u64 = 0;
        let mut i = ds;
        proof {
            assert(s@.subrange(ds as int, ds as int) =~= Seq::<u8>::empty());
        }
        while i < n
            invariant
                ds <= i <= n,
                n == s@.len(),
                n > 0,
                neg == (s@[0] == 45),
                ds == if neg {
                    1int
                } else {
                    0int
                },
                ds < n,
                all_digits(s@, ds as int, n as int),
                val <= i64::MAX as u64,
                val as int == dec_value(s@.subrange(ds as int, i as int)),
            decreases n - i,
        {
            let b = s[i];
            proof {
                assert(s@.subrange(ds as int, i as int + 1).drop_last() =~= s@.subrange(
                    ds as int,
                    i as int,
                ));
                assert(s@.subrange(ds as int, i as int + 1).last() == s@[i as int]);
            }
            if b < 48 || b > 57 {
                proof {
                    assert(is_digit(s@[i as int]));
                    assert(false);
                }
                return None;
            }
            let d = (b - 48) as u64;
            if val > (i64::MAX as u64 - d) / 10 {
                proof {
                    assert(val * 10 + d > i64::MAX as u64) by (nonlinear_arith)
                        requires
                            0 <= d <= 9,
                            val >= 0,
                            val > (i64::MAX as u64 - d) / 10,
                    ;
                    crate::duration::lemma_dec_value_grows_full(s@, ds as int, i as int + 1, n as int);
                }
                return None;
            }
            proof {
                assert(val * 10 + d <= i64::MAX as u64) by (nonlinear_arith)
                    requires
                        0 <= d <= 9,
                        d <= i64::MAX as u64,
                        val <= (i64::MAX as u64 - d) / 10,
                ;
            }
            val = val * 10 + d;
            i += 1;
        }
        proof {
            assert(s@.subrange(ds as int, n as int) =~= s@.subrange(ds as int, s@.len() as int));
        }
        if neg {
            return Some(-(val as i64));
        }
        return Some(val as i64);
    }
    // RFC3339: YYYY-MM-DDTHH:MM:SSZ
    if n != 20 {
        return None;
    }
    if s[4] != 45 || s[7] != 45 || s[10] != 84 || s[13] != 58 || s[16] != 58 || s[19] != 90 {
        return None;
    }
    let year = match digits_at(s, 0, 4) {
        Some(v) => v,
        None => {
            return None;
        },
    };
    let month = match digits_at(s, 5, 2) {
        Some(v) => v,
        None => {
            return None;
        },
    };
    let day = match digits_at(s, 8, 2) {
        Some(v) => v,
        None => {
            return None;
        },
    };
    let hour = match digits_at(s, 11, 2) {
        Some(v) => v,
        None => {
            return None;
        },
    };
    let minute = match digits_at(s, 14, 2) {
        Some(v) => v,
        None => {
            return None;
        },
    };
    let second = match digits_at(s, 17, 2) {
        Some(v) => v,
        None => {
            return None;
        },
    };
    if year < 1970 || year > 2200 || month < 1 || month > 12 || day < 1 || hour > 23 || minute > 59
        || second > 59 {
        return None;
    }
    if day > days_in_month(month, is_leap(year)) {
        return None;
    }
    // Days since the epoch: whole years, then whole months, then days.
    let mut days: u64 = 0;
    let mut y: u64 = 1970;
    while y < year
        invariant
            1970 <= y <= year <= 2200,
            days as int == spec_year_days(y as int),
            days <= (y - 1970) * 366,
        decreases year - y,
    {
        proof {
            assert(days + 366 <= (y + 1 - 1970) * 366) by (nonlinear_arith)
                requires
                    days <= (y - 1970) * 366,
                    y >= 1970,
            ;
        }
        if is_leap(y) {
            days = days + 366;
        } else {
            days = days + 365;
        }
        y = y + 1;
    }
    let ghost ydays = days as int;
    let leap = is_leap(year);
    let mut m: u64 = 1;
    while m < month
        invariant
            1 <= m <= month <= 12,
            leap == spec_leap(year as int),
            days as int == ydays + spec_month_days(m as int, spec_leap(year as int)),
            ydays <= 231 * 366,
            days <= 231 * 366 + (m - 1) * 31,
        decreases month - m,
    {
        days = days + days_in_month(m, leap);
        m = m + 1;
    }
    days = days + (day - 1);
    // Seconds, then nanoseconds; the year cap keeps both in range.
    let secs: u64 = days * 86400 + hour * 3600 + minute * 60 + second;
    if secs > 9223372036 {
        return None;
    }
    Some((secs * 1000000000) as i64)
}

/// Days in each month of a non-leap year.
fn days_in_month(month: u64, leap: bool) -> (r: u64)
    requires
        1 <= month <= 12,
    ensures
        28 <= r <= 31,
        r as int == spec_days_in_month(month as int, leap),
{
    if month == 2 {
        if leap {
            29
        } else {
            28
        }
    } else if month == 4 || month == 6 || month == 9 || month == 11 {
        30
    } else {
        31
    }
}

/// Whether a year is a leap year.
fn is_leap(year: u64) -> (r: bool)
    ensures
        r == spec_leap(year as int),
{
    (year % 4 == 0 && year % 100 != 0) || year % 400 == 0
}

} // verus!

verus! {

// ---------------------------------------------------------------------------
// The predicate grammar
// ---------------------------------------------------------------------------

/// The position of the next ` and ` connective at or after `from`, or the
/// end of the text.
pub open spec fn spec_find_and(s: Seq<u8>, from: int) -> int
    decreases s.len() - from,
{
    if from < 0 || from >= s.len() {
        s.len() as int
    } else if s.len() - from > 4 && s[from] == 32 && s[from + 1] == 97 && s[from + 2] == 110
        && s[from + 3] == 100 && s[from + 4] == 32 {
        from
    } else {
        spec_find_and(s, from + 1)
    }
}

/// The position of the first `=` at or after `from`, or the end.
pub open spec fn spec_find_eq(s: Seq<u8>, from: int) -> int
    decreases s.len() - from,
{
    if from < 0 || from >= s.len() {
        s.len() as int
    } else if s[from] == 61 {
        from
    } else {
        spec_find_eq(s, from + 1)
    }
}

/// A token with leading spaces and double quotes removed.
pub open spec fn spec_trim_start(s: Seq<u8>) -> Seq<u8>
    decreases s.len(),
{
    if s.len() > 0 && (s[0] == 32 || s[0] == 34) {
        spec_trim_start(s.drop_first())
    } else {
        s
    }
}

/// A token with trailing spaces and double quotes removed.
pub open spec fn spec_trim_end(s: Seq<u8>) -> Seq<u8>
    decreases s.len(),
{
    if s.len() > 0 && (s.last() == 32 || s.last() == 34) {
        spec_trim_end(s.drop_last())
    } else {
        s
    }
}

/// A token with surrounding spaces and double quotes removed.
pub open spec fn spec_trim(s: Seq<u8>, from: int, to: int) -> Seq<u8> {
    spec_trim_end(spec_trim_start(s.subrange(from, to)))
}

/// The reserved column naming the table.
pub open spec fn measurement_name() -> Seq<u8> {
    seq![95u8, 109u8, 101u8, 97u8, 115u8, 117u8, 114u8, 101u8, 109u8, 101u8, 110u8, 116u8]
}

/// The comparisons collected from `pos` on: `column=value` joined by ` and `,
/// a `_measurement` comparison naming the table (the last one winning).
pub open spec fn spec_pred_loop(
    s: Seq<u8>,
    pos: int,
    table: Seq<u8>,
    exprs: Seq<(Seq<u8>, Seq<u8>)>,
) -> Option<(Seq<u8>, Seq<(Seq<u8>, Seq<u8>)>)>
    decreases s.len() - pos,
{
    if pos < 0 {
        None
    } else if pos >= s.len() {
        Some((table, exprs))
    } else {
        let eq = spec_find_eq(s, pos);
        if eq >= s.len() {
            None
        } else {
            let vend = spec_find_and(s, eq + 1);
            let column = spec_trim(s, pos, eq);
            let value = spec_trim(s, eq + 1, vend);
            if column.len() == 0 || value.len() == 0 {
                None
            } else {
                let table2 = if column == measurement_name() {
                    value
                } else {
                    table
                };
                let exprs2 = if column == measurement_name() {
                    exprs
                } else {
                    exprs.push((column, value))
                };
                if vend >= s.len() {
                    Some((table2, exprs2))
                } else if vend + 5 <= pos || vend + 5 > s.len() {
                    None
                } else {
                    spec_pred_loop(s, vend + 5, table2, exprs2)
                }
            }
        }
    }
}

/// What a delete request's fields mean: the time range, the table named by a
/// `_measurement` comparison (empty when none), and the other comparisons.
pub open spec fn spec_delete_predicate(start: Seq<u8>, stop: Seq<u8>, predicate: Seq<u8>) -> Option<
    (Seq<u8>, int, int, Seq<(Seq<u8>, Seq<u8>)>),
> {
    match (spec_time_bound(start), spec_time_bound(stop)) {
        (Some(start_ns), Some(stop_ns)) => {
            if start_ns > stop_ns {
                None
            } else {
                match spec_pred_loop(predicate, 0, Seq::empty(), Seq::empty()) {
                    None => None,
                    Some(p) => Some((p.0, start_ns, stop_ns, p.1)),
                }
            }
        },
        _ => None,
    }
}

/// The position of the next ` and ` connective at or after `from`, or the
/// end of the text.
fn find_and(s: &[u8], from: usize) -> (r: usize)
    requires
        from <= s@.len(),
    ensures
        from <= r <= s@.len(),
        r < s@.len() ==> r + 5 <= s@.len(),
        r as int == spec_find_and(s@, from as int),
{
    let n = s.len();
    let mut j = from;
    while j < n
        invariant
            from <= j <= n,
            n == s@.len(),
            spec_find_and(s@, from as int) == spec_find_and(s@, j as int),
        decreases n - j,
    {
        if n - j > 4 && s[j] == 32 && s[j + 1] == 97 && s[j + 2] == 110 && s[j + 3] == 100 && s[j
            + 4] == 32 {
            return j;
        }
        j += 1;
    }
    n
}

/// The position of the first `=` at or after `from`, or the end.
fn find_eq(s: &[u8], from: usize) -> (r: usize)
    requires
        from <= s@.len(),
    ensures
        from <= r <= s@.len(),
        r as int == spec_find_eq(s@, from as int),
{
    let n = s.len();
    let mut j = from;
    while j < n
        invariant
            from <= j <= n,
            n == s@.len(),
            spec_find_eq(s@, from as int) == spec_find_eq(s@, j as int),
        decreases n - j,
    {
        if s[j] == 61 {
            return j;
        }
        j += 1;
    }
    n
}

/// Copy `s[from..to]` with surrounding spaces and double quotes removed.
fn trim_token(s: &[u8], from: usize, to: usize) -> (r: Vec<u8>)
    requires
        from <= to <= s@.len(),
    ensures
        r@ == spec_trim(s@, from as int, to as int),
{
    let ghost whole = s@.subrange(from as int, to as int);
    let mut a = from;
    let mut b = to;
    while a < b && (s[a] == 32 || s[a] == 34)
        invariant
            from <= a <= b <= to <= s@.len(),
            b == to,
            spec_trim_start(whole) == spec_trim_start(s@.subrange(a as int, to as int)),
        decreases b - a,
    {
        proof {
            assert(s@.subrange(a as int, to as int)[0] == s@[a as int]);
            assert(s@.subrange(a as int, to as int).drop_first() =~= s@.subrange(
                a as int + 1,
                to as int,
            ));
        }
        a += 1;
    }
    proof {
        if a < to {
            assert(s@.subrange(a as int, to as int)[0] == s@[a as int]);
        }
        assert(spec_trim_start(whole) == s@.subrange(a as int, to as int));
    }
    let ghost started = s@.subrange(a as int, to as int);
    while b > a && (s[b - 1] == 32 || s[b - 1] == 34)
        invariant
            from <= a <= b <= to <= s@.len(),
            started == s@.subrange(a as int, to as int),
            spec_trim_end(started) == spec_trim_end(s@.subrange(a as int, b as int)),
        decreases b - a,
    {
        proof {
            assert(s@.subrange(a as int, b as int).last() == s@[b - 1]);
            assert(s@.subrange(a as int, b as int).drop_last() =~= s@.subrange(
                a as int,
                b as int - 1,
            ));
        }
        b -= 1;
    }
    proof {
        if b > a {
            assert(s@.subrange(a as int, b as int).last() == s@[b - 1]);
        }
        assert(spec_trim_end(started) == s@.subrange(a as int, b as int));
    }
    let mut out: Vec<u8> = Vec::new();
    let mut i = a;
    proof {
        assert(s@.subrange(a as int, a as int) =~= Seq::<u8>::empty());
    }
    while i < b
        invariant
            a <= i <= b <= s@.len(),
            out@ == s@.subrange(a as int, i as int),
        decreases b - i,
    {
        let ghost before = out@;
        out.push(s[i]);
        proof {
            assert(s@.subrange(a as int, i as int + 1) =~= before.push(s@[i as int]));
        }
        i += 1;
    }
    out
}

/// Parse a delete predicate, exactly as [`spec_delete_predicate`] reads it:
/// a conjunction of `column=value` comparisons joined by ` and `, with a
/// `_measurement` comparison naming the table. Returns the table (empty when
/// none was named) and the remaining comparisons with the time range.
pub(crate) fn parse_delete_predicate(start: &[u8], stop: &[u8], predicate: &[u8]) -> (r: Result<
    (Vec<u8>, DeletePredicate),
    (),
>)
    ensures
        match r {
            Ok(p) => spec_delete_predicate(start@, stop@, predicate@) == Some(
                (p.0@, p.1.start_ns as int, p.1.stop_ns as int, p.1.exprs_model()),
            ) && p.1.start_ns <= p.1.stop_ns,
            Err(_) => spec_delete_predicate(start@, stop@, predicate@) is None,
        },
{
    let start_ns = match parse_time_bound(start) {
        Some(v) => v,
        None => {
            return Err(());
        },
    };
    let stop_ns = match parse_time_bound(stop) {
        Some(v) => v,
        None => {
            return Err(());
        },
    };
    if start_ns > stop_ns {
        return Err(());
    }
    let mut table: Vec<u8> = Vec::new();
    let mut exprs: Vec<DeleteExpr> = Vec::new();
    let n = predicate.len();
    let mut pos: usize = 0;
    proof {
        assert(exprs@.map_values(|e: DeleteExpr| (e.column@, e.value@)) =~= Seq::<
            (Seq<u8>, Seq<u8>),
        >::empty());
        assert(table@ =~= Seq::<u8>::empty());
    }
    loop
        invariant_except_break
            spec_pred_loop(predicate@, 0, Seq::empty(), Seq::empty()) == spec_pred_loop(
                predicate@,
                pos as int,
                table@,
                exprs@.map_values(|e: DeleteExpr| (e.column@, e.value@)),
            ),
        invariant
            0 <= pos <= n,
            n == predicate@.len(),
        ensures
            spec_pred_loop(predicate@, 0, Seq::empty(), Seq::empty()) == Some(
                (table@, exprs@.map_values(|e: DeleteExpr| (e.column@, e.value@))),
            ),
        decreases n - pos,
    {
        if pos >= n {
            break ;
        }
        // One comparison: column '=' value, ended by ` and ` or the end.
        let eq = find_eq(predicate, pos);
        if eq >= n {
            return Err(());
        }
        // The value runs to ` and ` or the end of the text.
        let vend = find_and(predicate, eq + 1);
        let column = trim_token(predicate, pos, eq);
        let value = trim_token(predicate, eq + 1, vend);
        if column.len() == 0 || value.len() == 0 {
            return Err(());
        }
        let mut meas_key: Vec<u8> = Vec::new();
        meas_key.push(95);
        meas_key.push(109);
        meas_key.push(101);
        meas_key.push(97);
        meas_key.push(115);
        meas_key.push(117);
        meas_key.push(114);
        meas_key.push(101);
        meas_key.push(109);
        meas_key.push(101);
        meas_key.push(110);
        meas_key.push(116);
        proof {
            assert(meas_key@ =~= measurement_name());
        }
        let ghost exprs_before = exprs@.map_values(|e: DeleteExpr| (e.column@, e.value@));
        if crate::bytes::bytes_eq(column.as_slice(), meas_key.as_slice()) {
            table = value;
        } else {
            let ghost cm = column@;
            let ghost vm = value@;
            exprs.push(DeleteExpr { column, value });
            proof {
                assert(exprs@.map_values(|e: DeleteExpr| (e.column@, e.value@)) =~= exprs_before.push(
                    (cm, vm),
                ));
            }
        }
        if vend >= n {
            break ;
        }
        if vend + 5 <= pos {
            return Err(());
        }
        pos = vend + 5;
    }
    Ok((table, DeletePredicate { start_ns, stop_ns, exprs }))
}

} // verus!
