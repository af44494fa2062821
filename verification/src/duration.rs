//! InfluxQL duration values: nanosecond counts with a textual form made of
//! `<integer><unit>` fragments (`3h25m`), displayed greatest unit first.

use vstd::prelude::*;

verus! {

/// Nanoseconds in a microsecond.
pub const NANOS_PER_MICRO: i64 = 1000;

/// Nanoseconds in a millisecond.
pub const NANOS_PER_MILLI: i64 = 1000000;

/// Nanoseconds in a second.
pub const NANOS_PER_SEC: i64 = 1000000000;

/// Nanoseconds in a minute.
pub const NANOS_PER_MIN: i64 = 60000000000;

/// Nanoseconds in an hour.
pub const NANOS_PER_HOUR: i64 = 3600000000000;

/// Nanoseconds in a day.
pub const NANOS_PER_DAY: i64 = 86400000000000;

/// Nanoseconds in a week.
pub const NANOS_PER_WEEK: i64 = 604800000000000;

/// An InfluxQL duration, in nanoseconds.
#[derive(Clone, Copy, Debug, PartialEq, Eq, Hash, Structural)]
pub struct Duration(pub i64);

/// The unit multiplier at position `idx` of the display table, greatest
/// first.
pub open spec fn spec_divisor(idx: int) -> int {
    if idx == 0 {
        NANOS_PER_WEEK as int
    } else if idx == 1 {
        NANOS_PER_DAY as int
    } else if idx == 2 {
        NANOS_PER_HOUR as int
    } else if idx == 3 {
        NANOS_PER_MIN as int
    } else if idx == 4 {
        NANOS_PER_SEC as int
    } else if idx == 5 {
        NANOS_PER_MILLI as int
    } else if idx == 6 {
        NANOS_PER_MICRO as int
    } else {
        1
    }
}

/// The unit suffix at position `idx` of the display table.
pub open spec fn spec_unit(idx: int) -> Seq<u8> {
    if idx == 0 {
        seq![119u8]  // w
    } else if idx == 1 {
        seq![100u8]  // d
    } else if idx == 2 {
        seq![104u8]  // h
    } else if idx == 3 {
        seq![109u8]  // m
    } else if idx == 4 {
        seq![115u8]  // s
    } else if idx == 5 {
        seq![109u8, 115u8]  // ms
    } else if idx == 6 {
        seq![117u8, 115u8]  // us
    } else {
        seq![110u8, 115u8]  // ns
    }
}

/// The decimal digits of `n`, most significant first.
pub open spec fn dec_digits(n: nat) -> Seq<u8>
    decreases n,
{
    if n < 10 {
        seq![(48 + n) as u8]
    } else {
        dec_digits(n / 10).push((48 + n % 10) as u8)
    }
}

/// The display fragments for the units from `idx` on: a unit is printed when
/// the whole value reaches its multiplier and the remainder contributes at
/// least one of it.
pub open spec fn fmt_frags(v: int, rem: int, idx: int) -> Seq<u8>
    decreases 8 - idx,
{
    if idx < 0 || idx >= 8 {
        Seq::empty()
    } else {
        let div = spec_divisor(idx);
        if v >= div && rem / div > 0 {
            dec_digits((rem / div) as nat) + spec_unit(idx) + fmt_frags(v, rem % div, idx + 1)
        } else {
            fmt_frags(v, rem, idx + 1)
        }
    }
}

/// The display form of a duration: `0s` for zero, otherwise greatest-unit-
/// first fragments. A negative duration displays as the empty string.
pub open spec fn duration_text(v: int) -> Seq<u8> {
    if v == 0 {
        seq![48u8, 115u8]  // 0s
    } else {
        fmt_frags(v, v, 0)
    }
}

/// Whether a byte is a decimal digit.
pub open spec fn is_digit(b: u8) -> bool {
    48 <= b <= 57
}

/// The length of the leading run of digits.
pub open spec fn digit_prefix_len(s: Seq<u8>) -> nat
    decreases s.len(),
{
    if s.len() > 0 && is_digit(s[0]) {
        1 + digit_prefix_len(s.drop_first())
    } else {
        0
    }
}

/// The value of a digit string.
pub open spec fn dec_value(s: Seq<u8>) -> int
    decreases s.len(),
{
    if s.len() == 0 {
        0
    } else {
        dec_value(s.drop_last()) * 10 + (s.last() - 48)
    }
}

/// The unit at the head of `s`, tried in the same priority order as the
/// grammar: `ns`, `µs`, `us`, `ms`, `s`, `m`, `h`, `d`, `w`. Returns the
/// multiplier and the number of bytes consumed.
pub open spec fn match_unit(s: Seq<u8>) -> Option<(int, nat)> {
    if s.len() >= 2 && s[0] == 110 && s[1] == 115 {
        Some((1int, 2nat))  // ns
    } else if s.len() >= 3 && s[0] == 0xc2 && s[1] == 0xb5 && s[2] == 115 {
        Some((NANOS_PER_MICRO as int, 3nat))  // µs
    } else if s.len() >= 2 && s[0] == 117 && s[1] == 115 {
        Some((NANOS_PER_MICRO as int, 2nat))  // us
    } else if s.len() >= 2 && s[0] == 109 && s[1] == 115 {
        Some((NANOS_PER_MILLI as int, 2nat))  // ms
    } else if s.len() >= 1 && s[0] == 115 {
        Some((NANOS_PER_SEC as int, 1nat))  // s
    } else if s.len() >= 1 && s[0] == 109 {
        Some((NANOS_PER_MIN as int, 1nat))  // m
    } else if s.len() >= 1 && s[0] == 104 {
        Some((NANOS_PER_HOUR as int, 1nat))  // h
    } else if s.len() >= 1 && s[0] == 100 {
        Some((NANOS_PER_DAY as int, 1nat))  // d
    } else if s.len() >= 1 && s[0] == 119 {
        Some((NANOS_PER_WEEK as int, 1nat))  // w
    } else {
        None
    }
}

/// Parse one or more `<integer><unit>` fragments covering all of `s` and sum
/// their nanosecond values (unbounded: the runtime parser separately rejects
/// sums that do not fit).
pub open spec fn parse_frags(s: Seq<u8>) -> Option<int>
    decreases s.len(),
{
    let dl = digit_prefix_len(s);
    if dl == 0 {
        None
    } else {
        let v = dec_value(s.take(dl as int));
        match match_unit(s.skip(dl as int)) {
            None => None,
            Some((mult, ul)) => {
                if dl + ul > s.len() {
                    // Unreachable: a matched unit lies within the input.
                    None
                } else {
                    let rest = s.skip(dl + ul as int);
                    if rest.len() == 0 {
                        Some(v * mult)
                    } else {
                        match parse_frags(rest) {
                            None => None,
                            Some(acc) => Some(v * mult + acc),
                        }
                    }
                }
            },
        }
    }
}

/// The nanosecond value of a full duration string, if it is one.
pub open spec fn spec_parse_duration(s: Seq<u8>) -> Option<int> {
    parse_frags(s)
}

} // verus!

verus! {

/// Append the decimal digits of `n`.
pub(crate) fn push_dec(out: &mut Vec<u8>, n: u64)
    ensures
        final(out)@ == old(out)@ + dec_digits(n as nat),
    decreases n,
{
    if n < 10 {
        out.push(48 + n as u8);
        proof {
            assert(final(out)@ =~= old(out)@ + dec_digits(n as nat));
        }
    } else {
        push_dec(out, n / 10);
        out.push(48 + (n % 10) as u8);
        proof {
            assert((old(out)@ + dec_digits((n / 10) as nat)).push((48 + n % 10) as u8) =~= old(
                out,
            )@ + dec_digits(n as nat));
        }
    }
}

/// The display-table entry at `idx`: the multiplier and unit suffix.
fn divisor_entry(idx: usize) -> (r: (u64, Vec<u8>))
    requires
        idx < 8,
    ensures
        r.0 as int == spec_divisor(idx as int),
        r.1@ == spec_unit(idx as int),
        r.0 >= 1,
{
    let mut unit: Vec<u8> = Vec::new();
    let div: u64 = if idx == 0 {
        unit.push(119);
        604800000000000
    } else if idx == 1 {
        unit.push(100);
        86400000000000
    } else if idx == 2 {
        unit.push(104);
        3600000000000
    } else if idx == 3 {
        unit.push(109);
        60000000000
    } else if idx == 4 {
        unit.push(115);
        1000000000
    } else if idx == 5 {
        unit.push(109);
        unit.push(115);
        1000000
    } else if idx == 6 {
        unit.push(117);
        unit.push(115);
        1000
    } else {
        unit.push(110);
        unit.push(115);
        1
    };
    proof {
        assert(unit@ =~= spec_unit(idx as int));
    }
    (div, unit)
}

impl Duration {
    /// The display form: greatest-unit-first fragments; zero prints as `0s`.
    pub fn to_text(&self) -> (r: Vec<u8>)
        ensures
            r@ == duration_text(self.0 as int),
    {
        let mut out: Vec<u8> = Vec::new();
        if self.0 == 0 {
            out.push(48);
            out.push(115);
            proof {
                assert(out@ =~= duration_text(0));
            }
            return out;
        }
        let v = self.0;
        let vu: u64 = if v > 0 {
            v as u64
        } else {
            0
        };
        let mut rem: u64 = vu;
        let mut idx: usize = 0;
        proof {
            assert(out@ + fmt_frags(v as int, rem as int, 0) =~= fmt_frags(v as int, vu as int, 0));
        }
        while idx < 8
            invariant
                0 <= idx <= 8,
                v == self.0,
                v != 0,
                vu == if v > 0 {
                    v as u64
                } else {
                    0u64
                },
                rem <= vu,
                out@ + fmt_frags(v as int, rem as int, idx as int) == fmt_frags(
                    v as int,
                    vu as int,
                    0,
                ),
            decreases 8 - idx,
        {
            let (div, unit) = divisor_entry(idx);
            let units = rem / div;
            if v > 0 && (v as u64) >= div && units > 0 {
                push_dec(&mut out, units);
                let mut k: usize = 0;
                let ghost out_mid = out@;
                while k < unit.len()
                    invariant
                        0 <= k <= unit@.len(),
                        out@ == out_mid + unit@.take(k as int),
                    decreases unit@.len() - k,
                {
                    let ghost before = out@;
                    out.push(unit[k]);
                    proof {
                        assert(out_mid + unit@.take(k as int + 1) =~= before.push(unit@[k as int]));
                    }
                    k += 1;
                }
                proof {
                    assert(unit@.take(unit@.len() as int) =~= unit@);
                }
                rem = rem % div;
                proof {
                    assert(out@ + fmt_frags(v as int, rem as int, idx as int + 1) =~= fmt_frags(
                        v as int,
                        vu as int,
                        0,
                    ));
                }
            } else {
                proof {
                    if v > 0 {
                        assert(fmt_frags(v as int, rem as int, idx as int) == fmt_frags(
                            v as int,
                            rem as int,
                            idx as int + 1,
                        ));
                    } else {
                        assert(!(v as int >= spec_divisor(idx as int)));
                        assert(fmt_frags(v as int, rem as int, idx as int) == fmt_frags(
                            v as int,
                            rem as int,
                            idx as int + 1,
                        ));
                    }
                }
            }
            idx += 1;
        }
        proof {
            assert(fmt_frags(v as int, rem as int, 8) =~= Seq::<u8>::empty());
            assert(out@ + Seq::<u8>::empty() =~= out@);
            if v < 0 {
                lemma_fmt_frags_negative(v as int, v as int, 0);
                lemma_fmt_frags_negative(v as int, vu as int, 0);
            }
            assert(duration_text(v as int) == fmt_frags(v as int, vu as int, 0));
        }
        out
    }
}

/// A negative value prints no fragments: no unit's multiplier is below it.
proof fn lemma_fmt_frags_negative(v: int, rem: int, idx: int)
    requires
        v < 0,
    ensures
        fmt_frags(v, rem, idx) == Seq::<u8>::empty(),
    decreases 8 - idx,
{
    if 0 <= idx < 8 {
        lemma_fmt_frags_negative(v, rem, idx + 1);
    }
}

/// The digit run is no longer than the string.
pub(crate) proof fn lemma_digit_prefix_len_bound(t: Seq<u8>)
    ensures
        digit_prefix_len(t) <= t.len(),
    decreases t.len(),
{
    if t.len() > 0 && is_digit(t[0]) {
        lemma_digit_prefix_len_bound(t.drop_first());
    }
}

/// One fragment list parses to a non-negative value.
proof fn lemma_parse_frags_nonneg(t: Seq<u8>)
    ensures
        parse_frags(t) matches Some(p) ==> p >= 0,
    decreases t.len(),
{
    let dl = digit_prefix_len(t);
    lemma_digit_prefix_len_bound(t);
    if dl > 0 {
        lemma_digit_prefix_digits(t);
        assert forall|j: int| 0 <= j < t.take(dl as int).len() implies is_digit(
            #[trigger] t.take(dl as int)[j],
        ) by {
            assert(t.take(dl as int)[j] == t[j]);
        }
        lemma_dec_value_nonneg(t.take(dl as int));
        let v = dec_value(t.take(dl as int));
        match match_unit(t.skip(dl as int)) {
            Some((mult, ul)) => {
                if dl + ul <= t.len() {
                    let rest = t.skip(dl + ul as int);
                    if rest.len() != 0 {
                        lemma_parse_frags_nonneg(rest);
                    }
                    assert(mult >= 1);
                    assert(v * mult >= 0) by (nonlinear_arith)
                        requires
                            mult >= 1,
                            v >= 0,
                    ;
                }
            },
            None => {},
        }
    }
}

/// The leading digit run really is made of digits.
pub(crate) proof fn lemma_digit_prefix_digits(t: Seq<u8>)
    ensures
        forall|j: int| 0 <= j < digit_prefix_len(t) ==> is_digit(#[trigger] t[j]),
    decreases t.len(),
{
    if t.len() > 0 && is_digit(t[0]) {
        lemma_digit_prefix_digits(t.drop_first());
        lemma_digit_prefix_len_bound(t.drop_first());
        assert forall|j: int| 0 <= j < digit_prefix_len(t) implies is_digit(#[trigger] t[j]) by {
            if j > 0 {
                assert(0 <= j - 1 < digit_prefix_len(t.drop_first()));
                assert(t.drop_first()[j - 1] == t[j]);
                assert(is_digit(t.drop_first()[j - 1]));
            }
        }
    }
}

/// A digit string's value is non-negative.
pub(crate) proof fn lemma_dec_value_nonneg(s: Seq<u8>)
    requires
        forall|j: int| 0 <= j < s.len() ==> is_digit(#[trigger] s[j]),
    ensures
        dec_value(s) >= 0,
    decreases s.len(),
{
    if s.len() > 0 {
        assert forall|j: int| 0 <= j < s.drop_last().len() implies is_digit(
            #[trigger] s.drop_last()[j],
        ) by {
            assert(s.drop_last()[j] == s[j]);
        }
        lemma_dec_value_nonneg(s.drop_last());
    }
}

/// Longer digit strings carry values at least as large as their prefixes.
pub(crate) proof fn lemma_dec_value_grows(s: Seq<u8>, k: int)
    requires
        0 <= k <= s.len(),
        forall|j: int| 0 <= j < s.len() ==> is_digit(#[trigger] s[j]),
    ensures
        dec_value(s) >= dec_value(s.take(k)),
    decreases s.len() - k,
{
    if k == s.len() {
        assert(s.take(k) =~= s);
    } else {
        lemma_dec_value_grows(s, k + 1);
        assert(s.take(k + 1).drop_last() =~= s.take(k));
        assert(s.take(k + 1).last() == s[k]);
        assert forall|j: int| 0 <= j < s.take(k).len() implies is_digit(
            #[trigger] s.take(k)[j],
        ) by {
            assert(s.take(k)[j] == s[j]);
        }
        lemma_dec_value_nonneg(s.take(k));
        assert(dec_value(s.take(k + 1)) >= dec_value(s.take(k)));
    }
}

/// Parse the fragments of `s` from `pos` on: the runtime mirror of
/// [`parse_frags`], rejecting values beyond the signed 64-bit range.
fn parse_frags_exec(s: &[u8], pos: usize) -> (r: Option<u64>)
    requires
        pos <= s@.len(),
    ensures
        match r {
            Some(v) => parse_frags(s@.skip(pos as int)) == Some(v as int) && v <= i64::MAX as u64,
            None => parse_frags(s@.skip(pos as int)) is None || (parse_frags(s@.skip(pos as int))
                matches Some(p) && p > i64::MAX),
        },
    decreases s@.len() - pos,
{
    let ghost t = s@.skip(pos as int);
    let n = s.len();

    // Scan the fragment's digits.
    let mut e = pos;
    while e < n && 48 <= s[e] && s[e] <= 57
        invariant
            pos <= e <= n,
            n == s@.len(),
            t == s@.skip(pos as int),
            forall|j: int| pos <= j < e ==> is_digit(s@[j]),
            digit_prefix_len(t) == (e - pos) + digit_prefix_len(s@.skip(e as int)),
        decreases n - e,
    {
        proof {
            assert(s@.skip(e as int)[0] == s@[e as int]);
            assert(s@.skip(e as int).drop_first() =~= s@.skip(e as int + 1));
        }
        e += 1;
    }
    proof {
        if e < n {
            assert(s@.skip(e as int)[0] == s@[e as int]);
            assert(digit_prefix_len(s@.skip(e as int)) == 0);
        } else {
            assert(s@.skip(e as int).len() == 0);
        }
        assert(digit_prefix_len(t) == e - pos);
    }
    if e == pos {
        return None;
    }
    let ghost dl = (e - pos) as int;
    let ghost digits = t.take(dl);
    proof {
        assert(digits =~= s@.subrange(pos as int, e as int));
        lemma_parse_frags_nonneg(t);
    }

    // Evaluate the digits, rejecting values beyond the nanosecond range.
    let mut val: u64 = 0;
    let mut j = pos;
    proof {
        assert(s@.subrange(pos as int, pos as int) =~= Seq::<u8>::empty());
    }
    while j < e
        invariant
            pos <= j <= e <= n,
            n == s@.len(),
            t == s@.skip(pos as int),
            digits == t.take((e - pos) as int),
            digits =~= s@.subrange(pos as int, e as int),
            digit_prefix_len(t) == e - pos,
            val <= i64::MAX as u64,
            forall|j2: int| pos <= j2 < e ==> is_digit(s@[j2]),
            val as int == dec_value(s@.subrange(pos as int, j as int)),
        decreases e - j,
    {
        let d = s[j];
        proof {
            assert(s@.subrange(pos as int, j as int + 1).drop_last() =~= s@.subrange(
                pos as int,
                j as int,
            ));
            assert(s@.subrange(pos as int, j as int + 1).last() == s@[j as int]);
        }
        if val > (i64::MAX as u64 - (d - 48) as u64) / 10 {
            proof {
                // The digit string's value exceeds the range, so any parse of
                // this fragment list does too.
                assert(val * 10 + (d - 48) > i64::MAX) by (nonlinear_arith)
                    requires
                        48 <= d <= 57,
                        0 <= val,
                        val > (i64::MAX as u64 - (d - 48) as u64) / 10,
                ;
                assert(dec_value(s@.subrange(pos as int, j as int + 1)) > i64::MAX);
                lemma_dec_value_grows_full(s@, pos as int, j as int + 1, e as int);
                assert(dec_value(digits) > i64::MAX);
                lemma_frag_value_lower_bound(t);
            }
            return None;
        }
        val = val * 10 + (d - 48) as u64;
        j += 1;
    }
    proof {
        assert(val as int == dec_value(digits));
    }

    // Match the unit suffix.
    let rem_len = n - e;
    let (mult, ul): (u64, usize) = if rem_len >= 2 && s[e] == 110 && s[e + 1] == 115 {
        (1, 2)
    } else if rem_len >= 3 && s[e] == 0xc2 && s[e + 1] == 0xb5 && s[e + 2] == 115 {
        (1000, 3)
    } else if rem_len >= 2 && s[e] == 117 && s[e + 1] == 115 {
        (1000, 2)
    } else if rem_len >= 2 && s[e] == 109 && s[e + 1] == 115 {
        (1000000, 2)
    } else if rem_len >= 1 && s[e] == 115 {
        (1000000000, 1)
    } else if rem_len >= 1 && s[e] == 109 {
        (60000000000, 1)
    } else if rem_len >= 1 && s[e] == 104 {
        (3600000000000, 1)
    } else if rem_len >= 1 && s[e] == 100 {
        (86400000000000, 1)
    } else if rem_len >= 1 && s[e] == 119 {
        (604800000000000, 1)
    } else {
        proof {
            let after = t.skip(dl);
            assert(after =~= s@.skip(e as int));
            assert(match_unit(after) is None);
        }
        return None;
    };
    proof {
        let after = t.skip(dl);
        assert(after =~= s@.skip(e as int));
        assert(forall|j2: int| 0 <= j2 < after.len() ==> after[j2] == s@[e + j2]);
        assert(match_unit(after) == Some((mult as int, ul as nat)));
    }

    // This fragment's value, rejecting products beyond the range.
    if val > (i64::MAX as u64) / mult {
        proof {
            assert(dec_value(digits) * (mult as int) > i64::MAX) by (nonlinear_arith)
                requires
                    val as int == dec_value(digits),
                    mult >= 1,
                    val > (i64::MAX as u64) / mult,
                    val <= i64::MAX as u64,
            ;
            lemma_parse_frags_nonneg(t.skip(dl + ul as int));
            assert(parse_frags(t) matches Some(p) ==> p > i64::MAX);
        }
        return None;
    }
    proof {
        assert(val * mult <= i64::MAX) by (nonlinear_arith)
            requires
                val <= (i64::MAX as u64) / mult,
                mult >= 1,
        ;
    }
    let frag = val * mult;
    proof {
        assert(frag as int == dec_value(digits) * (mult as int)) by (nonlinear_arith)
            requires
                val as int == dec_value(digits),
                val <= (i64::MAX as u64) / mult,
                mult >= 1,
                frag == val * mult,
        ;
    }

    let pos2 = e + ul;
    let ghost rest = t.skip(dl + ul as int);
    proof {
        assert(rest =~= s@.skip(pos2 as int));
    }
    if pos2 == n {
        proof {
            assert(rest.len() == 0);
            assert(parse_frags(t) == Some(frag as int));
        }
        return Some(frag);
    }
    match parse_frags_exec(s, pos2) {
        Some(p2) => {
            if frag > i64::MAX as u64 - p2 {
                proof {
                    assert(parse_frags(t) == Some(frag + p2 as int));
                }
                return None;
            }
            proof {
                assert(parse_frags(t) == Some((frag + p2) as int));
            }
            Some(frag + p2)
        },
        None => {
            proof {
                match parse_frags(rest) {
                    Some(p) => {
                        assert(parse_frags(t) == Some(frag + p));
                    },
                    None => {},
                }
            }
            None
        },
    }
}

/// A fragment list's value is at least its first fragment's digit value.
proof fn lemma_frag_value_lower_bound(t: Seq<u8>)
    requires
        digit_prefix_len(t) > 0,
    ensures
        parse_frags(t) matches Some(p) ==> p >= dec_value(t.take(digit_prefix_len(t) as int)),
{
    let dl = digit_prefix_len(t);
    lemma_digit_prefix_len_bound(t);
    let v = dec_value(t.take(dl as int));
    lemma_digit_prefix_digits(t);
    assert forall|j: int| 0 <= j < t.take(dl as int).len() implies is_digit(
        #[trigger] t.take(dl as int)[j],
    ) by {
        assert(t.take(dl as int)[j] == t[j]);
    }
    lemma_dec_value_nonneg(t.take(dl as int));
    match match_unit(t.skip(dl as int)) {
        Some((mult, ul)) => {
            if dl + ul <= t.len() {
                let rest = t.skip(dl + ul as int);
                assert(mult >= 1);
                assert(v * mult >= v) by (nonlinear_arith)
                    requires
                        mult >= 1,
                        v >= 0,
                ;
                if rest.len() != 0 {
                    lemma_parse_frags_nonneg(rest);
                }
            }
        },
        None => {},
    }
}

/// When a prefix of a digit string exceeds a bound, the whole string does.
pub(crate) proof fn lemma_dec_value_grows_full(s: Seq<u8>, start: int, mid: int, end: int)
    requires
        0 <= start <= mid <= end <= s.len(),
        forall|j: int| start <= j < end ==> is_digit(#[trigger] s[j]),
    ensures
        dec_value(s.subrange(start, end)) >= dec_value(s.subrange(start, mid)),
{
    assert forall|j: int| 0 <= j < s.subrange(start, end).len() implies is_digit(
        #[trigger] s.subrange(start, end)[j],
    ) by {
        assert(s.subrange(start, end)[j] == s[j + start]);
    }
    lemma_dec_value_grows(s.subrange(start, end), mid - start);
    assert(s.subrange(start, end).take(mid - start) =~= s.subrange(start, mid));
}

/// Parse a duration: one or more `<integer><unit>` fragments covering the
/// whole input, summed in nanoseconds. `None` for text that is not a
/// duration, and for values that do not fit a signed 64-bit count.
pub fn parse_duration(s: &[u8]) -> (r: Option<Duration>)
    ensures
        match r {
            Some(d) => spec_parse_duration(s@) == Some(d.0 as int),
            None => spec_parse_duration(s@) is None || (spec_parse_duration(s@) matches Some(v)
                && v > i64::MAX),
        },
{
    proof {
        assert(s@.skip(0) =~= s@);
    }
    match parse_frags_exec(s, 0) {
        Some(v) => Some(Duration(v as i64)),
        None => None,
    }
}

} // verus!

verus! {

/// Decimal digit strings are made of digits and never empty.
pub(crate) proof fn lemma_dec_digits_digits(n: nat)
    ensures
        dec_digits(n).len() >= 1,
        forall|j: int| 0 <= j < dec_digits(n).len() ==> is_digit(#[trigger] dec_digits(n)[j]),
    decreases n,
{
    if n < 10 {
        assert(dec_digits(n)[0] == (48 + n) as u8);
    } else {
        lemma_dec_digits_digits(n / 10);
        assert forall|j: int| 0 <= j < dec_digits(n).len() implies is_digit(
            #[trigger] dec_digits(n)[j],
        ) by {
            if j < dec_digits(n / 10).len() {
                assert(dec_digits(n)[j] == dec_digits(n / 10)[j]);
            } else {
                assert(dec_digits(n)[j] == (48 + n % 10) as u8);
            }
        }
    }
}

/// Rendering a number and reading it back gives the number.
pub(crate) proof fn lemma_dec_digits_roundtrip(n: nat)
    ensures
        dec_value(dec_digits(n)) == n,
    decreases n,
{
    if n < 10 {
        assert(dec_digits(n) =~= seq![(48 + n) as u8]);
        assert(dec_digits(n).drop_last() =~= Seq::<u8>::empty());
        assert(dec_value(Seq::<u8>::empty()) == 0);
        assert(dec_digits(n).last() == (48 + n) as u8);
        assert(((48 + n) as u8) as int == 48 + n);
        assert(dec_value(dec_digits(n)) == 0 * 10 + ((48 + n) as u8 - 48));
    } else {
        lemma_dec_digits_roundtrip(n / 10);
        assert(dec_digits(n).drop_last() =~= dec_digits(n / 10));
        assert(dec_digits(n).last() == (48 + n % 10) as u8);
        assert(dec_value(dec_digits(n)) == (n / 10) * 10 + n % 10);
        assert((n / 10) * 10 + n % 10 == n) by (nonlinear_arith);
    }
}

/// A digit run followed by a non-digit splits exactly at the boundary.
pub(crate) proof fn lemma_digit_prefix_concat(d: Seq<u8>, rest: Seq<u8>)
    requires
        d.len() >= 1,
        forall|j: int| 0 <= j < d.len() ==> is_digit(#[trigger] d[j]),
        rest.len() == 0 || !is_digit(rest[0]),
    ensures
        digit_prefix_len(d + rest) == d.len(),
        (d + rest).take(d.len() as int) == d,
        (d + rest).skip(d.len() as int) == rest,
    decreases d.len(),
{
    let s = d + rest;
    assert(s.take(d.len() as int) =~= d);
    assert(s.skip(d.len() as int) =~= rest);
    if d.len() == 1 {
        assert(s[0] == d[0]);
        assert(is_digit(s[0]));
        assert(s.drop_first() =~= rest);
        if rest.len() > 0 {
            assert(digit_prefix_len(rest) == 0);
        } else {
            assert(digit_prefix_len(rest) == 0);
        }
        assert(digit_prefix_len(s) == 1 + digit_prefix_len(s.drop_first()));
    } else {
        assert forall|j: int| 0 <= j < d.drop_first().len() implies is_digit(
            #[trigger] d.drop_first()[j],
        ) by {
            assert(d.drop_first()[j] == d[j + 1]);
        }
        lemma_digit_prefix_concat(d.drop_first(), rest);
        assert(s[0] == d[0]);
        assert(is_digit(s[0]));
        assert(s.drop_first() =~= d.drop_first() + rest);
        assert(digit_prefix_len(s.drop_first()) == d.drop_first().len());
        assert(digit_prefix_len(s) == 1 + digit_prefix_len(s.drop_first()));
    }
}

/// A unit suffix followed by a digit (or the end of input) reads back as
/// itself: no longer unit can swallow the following fragment.
proof fn lemma_match_unit_concat(idx: int, suffix: Seq<u8>)
    requires
        0 <= idx < 8,
        suffix.len() == 0 || is_digit(suffix[0]),
    ensures
        match_unit(spec_unit(idx) + suffix) == Some(
            (spec_divisor(idx), spec_unit(idx).len()),
        ),
{
    let t = spec_unit(idx) + suffix;
    assert(t[0] == spec_unit(idx)[0]);
    if spec_unit(idx).len() >= 2 {
        assert(t[1] == spec_unit(idx)[1]);
    } else {
        if t.len() >= 2 {
            assert(t[1] == suffix[0]);
        }
    }
    if idx == 5 || idx == 6 || idx == 7 {
        if t.len() >= 3 {
            assert(t[2] == suffix[0]);
        }
    }
}

/// Formatted fragments read back as the remainder they encode.
proof fn lemma_fmt_parse(v: int, rem: int, idx: int)
    requires
        1 <= v,
        0 <= rem <= v,
        0 <= idx <= 8,
        idx == 8 ==> rem == 0,
    ensures
        rem == 0 ==> fmt_frags(v, rem, idx) == Seq::<u8>::empty(),
        rem > 0 ==> parse_frags(fmt_frags(v, rem, idx)) == Some(rem) && fmt_frags(
            v,
            rem,
            idx,
        ).len() > 0 && is_digit(fmt_frags(v, rem, idx)[0]),
    decreases 8 - idx,
{
    if idx == 8 {
        return ;
    }
    let div = spec_divisor(idx);
    assert(div >= 1);
    if v >= div && rem / div > 0 {
        let q = rem / div;
        let rem2 = rem % div;
        vstd::arithmetic::div_mod::lemma_fundamental_div_mod(rem, div);
        assert(rem == div * q + rem2);
        assert(0 <= rem2 < div);
        if idx == 7 {
            assert(div == 1);
            assert(rem2 == 0);
        }
        lemma_fmt_parse(v, rem2, idx + 1);
        let digits = dec_digits(q as nat);
        let unit = spec_unit(idx);
        let s2 = fmt_frags(v, rem2, idx + 1);
        let s = fmt_frags(v, rem, idx);
        assert(s == digits + unit + s2);
        lemma_dec_digits_digits(q as nat);
        lemma_dec_digits_roundtrip(q as nat);
        // The digit run of `s` is exactly `digits`.
        assert(digits + unit + s2 =~= digits + (unit + s2));
        assert((unit + s2)[0] == unit[0]);
        assert(!is_digit(unit[0]));
        lemma_digit_prefix_concat(digits, unit + s2);
        assert(digit_prefix_len(s) == digits.len());
        assert(s.take(digits.len() as int) == digits);
        assert(dec_value(s.take(digit_prefix_len(s) as int)) == q);
        // The unit of `s` is exactly `unit`.
        if s2.len() > 0 {
            assert(is_digit(s2[0]));
        }
        lemma_match_unit_concat(idx, s2);
        assert(s.skip(digits.len() as int) == unit + s2);
        assert(match_unit(s.skip(digit_prefix_len(s) as int)) == Some((div, unit.len())));
        // The rest of `s` is exactly the following fragments.
        assert(s.skip((digits.len() + unit.len()) as int) =~= s2);
        assert(digit_prefix_len(s) + unit.len() <= s.len());
        if s2.len() == 0 {
            assert(parse_frags(s) == Some(q * div));
            assert(q * div == rem - rem2) by (nonlinear_arith)
                requires
                    rem == div * q + rem2,
            ;
            assert(rem2 == 0);
        } else {
            assert(parse_frags(s2) == Some(rem2));
            assert(parse_frags(s) == Some(q * div + rem2));
            assert(q * div + rem2 == rem) by (nonlinear_arith)
                requires
                    rem == div * q + rem2,
            ;
        }
        assert(s[0] == digits[0]);
    } else {
        if idx == 7 && rem > 0 {
            assert(div == 1);
            assert(rem / 1 == rem);
            assert(false);
        }
        lemma_fmt_parse(v, rem, idx + 1);
        assert(fmt_frags(v, rem, idx) == fmt_frags(v, rem, idx + 1));
    }
}

/// Displaying a non-negative duration and parsing the text returns the same
/// duration.
pub proof fn lemma_duration_display_round_trip(v: int)
    requires
        0 <= v <= i64::MAX,
    ensures
        spec_parse_duration(duration_text(v)) == Some(v),
{
    if v == 0 {
        let s = duration_text(0);
        assert(s =~= seq![48u8, 115u8]);
        assert(is_digit(s[0]));
        assert(s.drop_first() =~= seq![115u8]);
        assert(!is_digit(s.drop_first()[0]));
        assert(digit_prefix_len(s.drop_first()) == 0);
        assert(digit_prefix_len(s) == 1);
        assert(s.take(1) =~= seq![48u8]);
        assert(s.take(1).drop_last() =~= Seq::<u8>::empty());
        assert(dec_value(Seq::<u8>::empty()) == 0);
        assert(s.take(1).last() == 48u8);
        assert(dec_value(s.take(1)) == 0);
        let u = s.skip(1);
        assert(u =~= seq![115u8]);
        assert(u.len() == 1);
        assert(u[0] == 115u8);
        assert(match_unit(u) == Some((NANOS_PER_SEC as int, 1nat)));
        assert(s.skip(2) =~= Seq::<u8>::empty());
        assert(parse_frags(s) == Some(0 * (NANOS_PER_SEC as int)));
    } else {
        lemma_fmt_parse(v, v, 0);
    }
}

} // verus!
