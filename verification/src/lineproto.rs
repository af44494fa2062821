//! The line-protocol front-end: parse textual lines
//! (`measurement,tag=v field=v timestamp`) into per-table mutable batches,
//! scaling timestamps by the requested precision.
//!
//! Floating-point field values are carried as scaled decimals packed into an
//! opaque 64-bit code; nothing downstream interprets them.

use vstd::prelude::*;

use crate::batch::{BatchError, BatchModel, FieldValue, MutableBatch, RowEntry, Val, clone_bytes, line_entries, row_written, time_name, unique_names};
use crate::bytes::bytes_eq;

verus! {

/// Why a line-protocol payload was rejected.
#[derive(Clone, Copy, Debug, PartialEq, Eq, Structural)]
pub enum LpError {
    /// The payload holds no lines at all.
    EmptyPayload,
    /// A line is not well-formed line protocol.
    Malformed,
    /// The same tag key appears twice on one line.
    DuplicateTag,
    /// The same field key appears twice on one line with different types.
    ConflictedFieldTypes,
    /// An identifier is used both as a tag and as a field, or a written
    /// column collides with an existing column (including `time`).
    TypeMismatch,
    /// Scaling a timestamp by the precision base overflowed.
    TimestampOverflow,
    /// A decimal field value does not fit the packed representation.
    ValueOutOfRange,
}

/// One parsed line: a table name, tag pairs, field pairs (duplicates already
/// resolved, last value winning), and a timestamp in nanoseconds.
pub struct ParsedLine {
    /// The measurement: the table written.
    pub table: Vec<u8>,
    /// Tag keys and values, in line order.
    pub tags: Vec<(Vec<u8>, Vec<u8>)>,
    /// Field keys and values, in line order, duplicates resolved.
    pub fields: Vec<(Vec<u8>, FieldValue)>,
    /// The line's timestamp, scaled to nanoseconds.
    pub time: i64,
}

/// The model of a parsed line.
pub struct LineModel {
    /// The table name.
    pub table: Seq<u8>,
    /// Tag pairs.
    pub tags: Seq<(Seq<u8>, Seq<u8>)>,
    /// Field pairs.
    pub fields: Seq<(Seq<u8>, Val)>,
    /// The timestamp in nanoseconds.
    pub time: int,
}

impl ParsedLine {
    /// The model of this line.
    pub open spec fn model(&self) -> LineModel {
        LineModel {
            table: self.table@,
            tags: self.tags@.map_values(|p: (Vec<u8>, Vec<u8>)| (p.0@, p.1@)),
            fields: self.fields@.map_values(|p: (Vec<u8>, FieldValue)| (p.0@, p.1.view())),
            time: self.time as int,
        }
    }
}

/// Whether a byte ends an unquoted token (separator or terminator).
pub open spec fn is_sep(b: u8) -> bool {
    b == 44 || b == 32 || b == 61  // , space =
}

/// A packed scaled decimal: sign, mantissa and decimal scale folded into one
/// opaque code, recoverable by division and remainder.
pub open spec fn decimal_code(neg: bool, mantissa: nat, scale: int) -> int {
    ((mantissa * 256) + (scale + 128)) * 2 + (if neg {
        1int
    } else {
        0int
    })
}

/// Pack a scaled decimal into its code: `mantissa * 10^scale`, negated when
/// `neg`. The mantissa is capped so the code fits 64 bits.
pub fn pack_decimal(neg: bool, mantissa: u64, scale: i32) -> (r: Option<u64>)
    ensures
        match r {
            Some(c) => mantissa < 0x20000000000000 && -128 <= scale < 128 && c as int
                == decimal_code(neg, mantissa as nat, scale as int),
            None => mantissa >= 0x20000000000000 || !(-128 <= scale < 128),
        },
{
    if mantissa >= 0x20000000000000 {
        return None;
    }
    if scale < -128 || scale >= 128 {
        return None;
    }
    let code = ((mantissa * 256) + ((scale + 128) as u64)) * 2 + (if neg {
        1u64
    } else {
        0u64
    });
    Some(code)
}

} // verus!

verus! {

/// The first position at or after `pos` holding a separator, or the end.
pub open spec fn spec_token_end(s: Seq<u8>, pos: int) -> int
    decreases s.len() - pos,
{
    if pos < 0 || pos >= s.len() || is_sep(s[pos]) {
        pos
    } else {
        spec_token_end(s, pos + 1)
    }
}

/// The first position at or after `pos` holding a separator, or the end.
fn token_end(s: &[u8], pos: usize) -> (r: usize)
    requires
        pos <= s@.len(),
    ensures
        pos <= r <= s@.len(),
        forall|j: int| pos <= j < r ==> !is_sep(s@[j]),
        r < s@.len() ==> is_sep(s@[r as int]),
        r == spec_token_end(s@, pos as int),
{
    let n = s.len();
    let mut i = pos;
    while i < n
        invariant
            pos <= i <= n,
            n == s@.len(),
            forall|j: int| pos <= j < i ==> !is_sep(s@[j]),
            spec_token_end(s@, pos as int) == spec_token_end(s@, i as int),
        decreases n - i,
    {
        let b = s[i];
        if b == 44 || b == 32 || b == 61 {
            return i;
        }
        i += 1;
    }
    n
}

/// Copy `s[from..to]`.
fn slice_bytes(s: &[u8], from: usize, to: usize) -> (r: Vec<u8>)
    requires
        from <= to <= s@.len(),
    ensures
        r@ == s@.subrange(from as int, to as int),
{
    let mut r: Vec<u8> = Vec::new();
    let mut i = from;
    while i < to
        invariant
            from <= i <= to <= s@.len(),
            r@ == s@.subrange(from as int, i as int),
        decreases to - i,
    {
        let ghost before = r@;
        r.push(s[i]);
        proof {
            assert(s@.subrange(from as int, i as int + 1) =~= before.push(s@[i as int]));
        }
        i += 1;
    }
    r
}

/// Whether every byte of `s[from..to)` is a decimal digit.
pub open spec fn all_digits(s: Seq<u8>, from: int, to: int) -> bool {
    forall|j: int| from <= j < to ==> crate::duration::is_digit(#[trigger] s[j])
}

/// What parsing an unsigned decimal run yields: the run's value, if the run
/// is non-empty, all digits, and within `max`.
pub open spec fn spec_u64_digits(s: Seq<u8>, from: int, to: int, max: int) -> Option<int> {
    if from < to && all_digits(s, from, to) && crate::duration::dec_value(
        s.subrange(from, to),
    ) <= max {
        Some(crate::duration::dec_value(s.subrange(from, to)))
    } else {
        None
    }
}

/// Parse an unsigned decimal run `s[from..to]` into a value, failing on
/// overflow past `max`.
pub(crate) fn parse_u64_digits(s: &[u8], from: usize, to: usize, max: u64) -> (r: Option<u64>)
    requires
        from <= to <= s@.len(),
    ensures
        match r {
            Some(v) => spec_u64_digits(s@, from as int, to as int, max as int) == Some(v as int)
                && v <= max,
            None => spec_u64_digits(s@, from as int, to as int, max as int) is None,
        },
{
    if from == to {
        return None;
    }
    let mut val: u64 = 0;
    let mut i = from;
    proof {
        assert(s@.subrange(from as int, from as int) =~= Seq::<u8>::empty());
    }
    while i < to
        invariant
            from <= i <= to <= s@.len(),
            val <= max,
            all_digits(s@, from as int, i as int),
            val as int == crate::duration::dec_value(s@.subrange(from as int, i as int)),
        decreases to - i,
    {
        let b = s[i];
        proof {
            assert(s@.subrange(from as int, i as int + 1).drop_last() =~= s@.subrange(
                from as int,
                i as int,
            ));
            assert(s@.subrange(from as int, i as int + 1).last() == s@[i as int]);
        }
        if b < 48 || b > 57 {
            return None;
        }
        let d = (b - 48) as u64;
        if d > max || val > (max - d) / 10 {
            proof {
                assert(val * 10 + d > max) by (nonlinear_arith)
                    requires
                        0 <= d <= 9,
                        val >= 0,
                        d > max || val > (max as u64 - d) / 10,
                ;
                assert(crate::duration::dec_value(s@.subrange(from as int, i as int + 1)) > max);
                if all_digits(s@, from as int, to as int) {
                    crate::duration::lemma_dec_value_grows_full(
                        s@,
                        from as int,
                        i as int + 1,
                        to as int,
                    );
                }
            }
            return None;
        }
        proof {
            assert(val * 10 + d <= max) by (nonlinear_arith)
                requires
                    0 <= d <= max,
                    val <= (max - d) / 10,
            ;
        }
        val = val * 10 + d;
        i += 1;
    }
    Some(val)
}

/// The `true` tokens: `t`, `T`, `true`, `TRUE`.
pub open spec fn is_true_token(tok: Seq<u8>) -> bool {
    ||| tok == seq![116u8]
    ||| tok == seq![84u8]
    ||| tok == seq![116u8, 114u8, 117u8, 101u8]
    ||| tok == seq![84u8, 82u8, 85u8, 69u8]
}

/// The `false` tokens: `f`, `F`, `false`, `FALSE`.
pub open spec fn is_false_token(tok: Seq<u8>) -> bool {
    ||| tok == seq![102u8]
    ||| tok == seq![70u8]
    ||| tok == seq![102u8, 97u8, 108u8, 115u8, 101u8]
    ||| tok == seq![70u8, 65u8, 76u8, 83u8, 69u8]
}

/// The largest mantissa the packed decimal representation carries.
pub open spec fn mantissa_cap() -> int {
    0x20000000000000
}

/// The value of a decimal token scanned from `i` with the state accumulated
/// so far: digits grow the mantissa, at most one point starts the fractional
/// scale, anything else is malformed, and a mantissa or scale beyond the
/// packed representation is out of range.
pub open spec fn spec_decimal(
    tok: Seq<u8>,
    i: int,
    mantissa: int,
    scale: int,
    seen_point: bool,
    seen_digit: bool,
    neg: bool,
) -> Result<Val, LpError>
    decreases tok.len() - i,
{
    if i < 0 || i >= tok.len() {
        if !seen_digit {
            Err(LpError::Malformed)
        } else {
            Ok(Val::F64(decimal_code(neg, mantissa as nat, scale) as u64))
        }
    } else if tok[i] == 46 {
        if seen_point {
            Err(LpError::Malformed)
        } else {
            spec_decimal(tok, i + 1, mantissa, scale, true, seen_digit, neg)
        }
    } else if 48 <= tok[i] <= 57 {
        let d = tok[i] - 48;
        if mantissa > (mantissa_cap() - 1 - d) / 10 {
            Err(LpError::ValueOutOfRange)
        } else if seen_point && scale <= -127 {
            Err(LpError::ValueOutOfRange)
        } else {
            spec_decimal(
                tok,
                i + 1,
                mantissa * 10 + d,
                if seen_point {
                    scale - 1
                } else {
                    scale
                },
                seen_point,
                true,
                neg,
            )
        }
    } else {
        Err(LpError::Malformed)
    }
}

/// The value an unquoted field token denotes: a boolean keyword, a signed or
/// unsigned integer by its trailing marker, or a scaled decimal.
pub open spec fn spec_classify(tok: Seq<u8>) -> Result<Val, LpError> {
    if tok.len() == 0 {
        Err(LpError::Malformed)
    } else if is_true_token(tok) {
        Ok(Val::Bool(true))
    } else if is_false_token(tok) {
        Ok(Val::Bool(false))
    } else {
        let neg = tok[0] == 45;
        let start: int = if neg {
            1
        } else {
            0
        };
        if start >= tok.len() {
            Err(LpError::Malformed)
        } else if tok.last() == 105 {
            match spec_u64_digits(tok, start, tok.len() - 1, i64::MAX as int) {
                Some(v) => Ok(
                    Val::I64(
                        (if neg {
                            -v
                        } else {
                            v
                        }) as i64,
                    ),
                ),
                None => Err(LpError::Malformed),
            }
        } else if tok.last() == 117 {
            if neg {
                Err(LpError::Malformed)
            } else {
                match spec_u64_digits(tok, 0, tok.len() - 1, u64::MAX as int) {
                    Some(v) => Ok(Val::U64(v as u64)),
                    None => Err(LpError::Malformed),
                }
            }
        } else {
            spec_decimal(tok, start, 0, 0, false, false, neg)
        }
    }
}

/// Classify an unquoted field value token.
fn classify_value(tok: &[u8]) -> (r: Result<FieldValue, LpError>)
    ensures
        match r {
            Ok(v) => spec_classify(tok@) == Ok::<Val, LpError>(v.view()),
            Err(e) => spec_classify(tok@) == Err::<Val, LpError>(e),
        },
{
    let n = tok.len();
    if n == 0 {
        return Err(LpError::Malformed);
    }
    // Booleans.
    if (n == 1 && (tok[0] == 116 || tok[0] == 84)) || (n == 4 && tok[0] == 116 && tok[1] == 114
        && tok[2] == 117 && tok[3] == 101) || (n == 4 && tok[0] == 84 && tok[1] == 82 && tok[2]
        == 85 && tok[3] == 69) {
        proof {
            if n == 1 {
                assert(tok@ =~= seq![tok@[0]]);
            } else {
                assert(tok@ =~= seq![tok@[0], tok@[1], tok@[2], tok@[3]]);
            }
        }
        return Ok(FieldValue::Bool(true));
    }
    if (n == 1 && (tok[0] == 102 || tok[0] == 70)) || (n == 5 && tok[0] == 102 && tok[1] == 97
        && tok[2] == 108 && tok[3] == 115 && tok[4] == 101) || (n == 5 && tok[0] == 70 && tok[1]
        == 65 && tok[2] == 76 && tok[3] == 83 && tok[4] == 69) {
        proof {
            if n == 1 {
                assert(tok@ =~= seq![tok@[0]]);
            } else {
                assert(tok@ =~= seq![tok@[0], tok@[1], tok@[2], tok@[3], tok@[4]]);
            }
        }
        return Ok(FieldValue::Bool(false));
    }
    proof {
        // The token matched no boolean keyword.
        assert(!is_true_token(tok@) && !is_false_token(tok@)) by {
            if tok@ == seq![116u8] || tok@ == seq![84u8] || tok@ == seq![102u8] || tok@
                == seq![70u8] {
                assert(n == 1 && (tok@[0] == 116 || tok@[0] == 84 || tok@[0] == 102 || tok@[0]
                    == 70));
            }
            if tok@ == seq![116u8, 114u8, 117u8, 101u8] || tok@ == seq![84u8, 82u8, 85u8, 69u8] {
                assert(n == 4);
            }
            if tok@ == seq![102u8, 97u8, 108u8, 115u8, 101u8] || tok@ == seq![
                70u8,
                65u8,
                76u8,
                83u8,
                69u8,
            ] {
                assert(n == 5);
            }
        }
    }
    let neg = tok[0] == 45;
    let start: usize = if neg {
        1
    } else {
        0
    };
    if start >= n {
        return Err(LpError::Malformed);
    }
    // Trailing type marker: `i` for signed, `u` for unsigned.
    let lastb = tok[n - 1];
    proof {
        assert(tok@.last() == tok@[n - 1]);
    }
    if lastb == 105 {
        // signed integer
        match parse_u64_digits(tok, start, n - 1, i64::MAX as u64) {
            Some(v) => {
                if neg {
                    return Ok(FieldValue::I64(-(v as i64)));
                }
                return Ok(FieldValue::I64(v as i64));
            },
            None => {
                return Err(LpError::Malformed);
            },
        }
    }
    if lastb == 117 {
        // unsigned integer
        if neg {
            return Err(LpError::Malformed);
        }
        match parse_u64_digits(tok, 0, n - 1, u64::MAX) {
            Some(v) => {
                return Ok(FieldValue::U64(v));
            },
            None => {
                return Err(LpError::Malformed);
            },
        }
    }
    // Scaled decimal: digits with one optional point.
    let mut mantissa: u64 = 0;
    let mut scale: i32 = 0;
    let mut seen_point = false;
    let mut seen_digit = false;
    let mut i = start;
    while i < n
        invariant
            start <= i <= n,
            n == tok@.len(),
            mantissa < 0x20000000000000,
            -128 < scale <= 0,
            neg == (tok@[0] == 45),
            spec_classify(tok@) == spec_decimal(
                tok@,
                i as int,
                mantissa as int,
                scale as int,
                seen_point,
                seen_digit,
                neg,
            ),
        decreases n - i,
    {
        let b = tok[i];
        if b == 46 {
            if seen_point {
                return Err(LpError::Malformed);
            }
            seen_point = true;
        } else if 48 <= b && b <= 57 {
            let d = (b - 48) as u64;
            if mantissa > (0x20000000000000u64 - 1 - d) / 10 {
                return Err(LpError::ValueOutOfRange);
            }
            if seen_point && scale <= -127 {
                return Err(LpError::ValueOutOfRange);
            }
            proof {
                assert(mantissa * 10 + d <= 0x20000000000000 - 1) by (nonlinear_arith)
                    requires
                        0 <= d <= 9,
                        mantissa <= (0x20000000000000u64 - 1 - d) / 10,
                ;
            }
            mantissa = mantissa * 10 + d;
            if seen_point {
                scale = scale - 1;
            }
            seen_digit = true;
        } else {
            return Err(LpError::Malformed);
        }
        i += 1;
    }
    if !seen_digit {
        return Err(LpError::Malformed);
    }
    match pack_decimal(neg, mantissa, scale) {
        Some(code) => Ok(FieldValue::F64(code)),
        None => {
            proof {
                assert(false);
            }
            Err(LpError::ValueOutOfRange)
        },
    }
}

} // verus!

verus! {

/// The unescaped content and end position of a quoted string scanned from
/// position `i` with `acc` already unescaped: an escape takes the next byte
/// literally, a bare quote closes the string.
pub open spec fn spec_quoted_from(s: Seq<u8>, i: int, acc: Seq<u8>) -> Option<(Seq<u8>, int)>
    decreases s.len() - i,
{
    if i < 0 || i >= s.len() {
        None
    } else if s[i] == 92 {
        if i + 1 >= s.len() {
            None
        } else {
            spec_quoted_from(s, i + 2, acc.push(s[i + 1]))
        }
    } else if s[i] == 34 {
        Some((acc, i + 1))
    } else {
        spec_quoted_from(s, i + 1, acc.push(s[i]))
    }
}

/// The unescaped content of a quoted string opening at `pos`.
pub open spec fn spec_quoted(s: Seq<u8>, pos: int) -> Option<(Seq<u8>, int)> {
    if 0 <= pos < s.len() && s[pos] == 34 {
        spec_quoted_from(s, pos + 1, Seq::empty())
    } else {
        None
    }
}

/// Scan a quoted string value starting at the opening quote `pos`; returns
/// the unescaped bytes and the position after the closing quote.
fn scan_quoted(line: &[u8], pos: usize) -> (r: Result<(Vec<u8>, usize), LpError>)
    requires
        pos < line@.len(),
        line@[pos as int] == 34,
    ensures
        match r {
            Ok(p) => pos < p.1 <= line@.len() && spec_quoted(line@, pos as int) == Some(
                (p.0@, p.1 as int),
            ),
            Err(e) => spec_quoted(line@, pos as int) is None && e == LpError::Malformed,
        },
{
    let n = line.len();
    let mut out: Vec<u8> = Vec::new();
    let mut i = pos + 1;
    proof {
        assert(out@ =~= Seq::<u8>::empty());
    }
    while i < n
        invariant
            pos < i <= n,
            n == line@.len(),
            line@[pos as int] == 34,
            spec_quoted(line@, pos as int) == spec_quoted_from(line@, i as int, out@),
        decreases n - i,
    {
        let b = line[i];
        if b == 92 {
            // escape: take the next byte literally
            if i + 1 >= n {
                return Err(LpError::Malformed);
            }
            out.push(line[i + 1]);
            i += 2;
        } else if b == 34 {
            return Ok((out, i + 1));
        } else {
            out.push(b);
            i += 1;
        }
    }
    Err(LpError::Malformed)
}

/// The models of exec tag pairs.
pub open spec fn pairs_model(v: Seq<(Vec<u8>, Vec<u8>)>) -> Seq<(Seq<u8>, Seq<u8>)> {
    v.map_values(|p: (Vec<u8>, Vec<u8>)| (p.0@, p.1@))
}

/// The models of exec field pairs.
pub open spec fn fields_model(v: Seq<(Vec<u8>, FieldValue)>) -> Seq<(Seq<u8>, Val)> {
    v.map_values(|p: (Vec<u8>, FieldValue)| (p.0@, p.1.view()))
}

/// Whether a key appears among tag pairs.
pub open spec fn tag_key_in(acc: Seq<(Seq<u8>, Seq<u8>)>, key: Seq<u8>) -> bool {
    exists|j: int| 0 <= j < acc.len() && (#[trigger] acc[j]).0 == key
}

/// The first position of a key among field pairs, or `-1`.
pub open spec fn spec_field_pos(acc: Seq<(Seq<u8>, Val)>, key: Seq<u8>) -> int
    decreases acc.len(),
{
    if acc.len() == 0 {
        -1
    } else if acc[0].0 == key {
        0
    } else {
        let r = spec_field_pos(acc.drop_first(), key);
        if r < 0 {
            -1
        } else {
            r + 1
        }
    }
}

/// The column type a cell value demands when written as a field.
pub open spec fn val_typ(v: Val) -> crate::batch::ColType {
    match v {
        Val::F64(_) => crate::batch::ColType::F64,
        Val::I64(_) => crate::batch::ColType::I64,
        Val::U64(_) => crate::batch::ColType::U64,
        Val::Bool(_) => crate::batch::ColType::Bool,
        Val::Str(_) => crate::batch::ColType::Str,
    }
}

/// Parse the tag set from `pos` (each `,key=value`), rejecting duplicate tag
/// keys and the reserved `time` key, and requiring something to follow.
pub open spec fn spec_tags(line: Seq<u8>, pos: int, acc: Seq<(Seq<u8>, Seq<u8>)>) -> Result<
    (Seq<(Seq<u8>, Seq<u8>)>, int),
    LpError,
>
    decreases line.len() - pos,
{
    if pos < 0 || pos >= line.len() || line[pos] != 44 {
        Ok((acc, pos))
    } else {
        let ks = pos + 1;
        if ks >= line.len() {
            Err(LpError::Malformed)
        } else {
            let ke = spec_token_end(line, ks);
            if ke == ks || ke >= line.len() || line[ke] != 61 {
                Err(LpError::Malformed)
            } else {
                let vs = ke + 1;
                let ve = spec_token_end(line, vs);
                if ve == vs {
                    Err(LpError::Malformed)
                } else {
                    let key = line.subrange(ks, ke);
                    let value = line.subrange(vs, ve);
                    if tag_key_in(acc, key) {
                        Err(LpError::DuplicateTag)
                    } else if key == crate::batch::time_name() {
                        Err(LpError::TypeMismatch)
                    } else if ve >= line.len() {
                        Err(LpError::Malformed)
                    } else if ve <= pos {
                        // Unreachable: token ends advance.
                        Err(LpError::Malformed)
                    } else {
                        spec_tags(line, ve, acc.push((key, value)))
                    }
                }
            }
        }
    }
}

/// Parse the field set from `pos` (`key=value`, comma separated): the
/// reserved `time` key and a key doubling as a tag are type mismatches, a
/// repeated key of the same type is overwritten in place (the last value
/// wins) and of a different type is a conflict.
pub open spec fn spec_fields(
    line: Seq<u8>,
    pos: int,
    acc: Seq<(Seq<u8>, Val)>,
    tags: Seq<(Seq<u8>, Seq<u8>)>,
) -> Result<(Seq<(Seq<u8>, Val)>, int), LpError>
    decreases line.len() - pos,
{
    if pos < 0 || pos >= line.len() {
        Err(LpError::Malformed)
    } else {
        let ke = spec_token_end(line, pos);
        if ke == pos || ke >= line.len() || line[ke] != 61 {
            Err(LpError::Malformed)
        } else {
            let key = line.subrange(pos, ke);
            let vs = ke + 1;
            let vres: Result<(Val, int), LpError> = if vs < line.len() && line[vs] == 34 {
                match spec_quoted(line, vs) {
                    Some(p) => Ok((Val::Str(p.0), p.1)),
                    None => Err(LpError::Malformed),
                }
            } else {
                let ve = spec_token_end(line, vs);
                if ve == vs {
                    Err(LpError::Malformed)
                } else {
                    match spec_classify(line.subrange(vs, ve)) {
                        Ok(v) => Ok((v, ve)),
                        Err(e) => Err(e),
                    }
                }
            };
            match vres {
                Err(e) => Err(e),
                Ok(p) => {
                    let value = p.0;
                    let vend = p.1;
                    if key == crate::batch::time_name() {
                        Err(LpError::TypeMismatch)
                    } else if tag_key_in(tags, key) {
                        Err(LpError::TypeMismatch)
                    } else {
                        let j = spec_field_pos(acc, key);
                        if j >= 0 && val_typ(acc[j].1) != val_typ(value) {
                            Err(LpError::ConflictedFieldTypes)
                        } else {
                            let acc2 = if j >= 0 {
                                acc.update(j, (key, value))
                            } else {
                                acc.push((key, value))
                            };
                            if vend < line.len() && line[vend] == 44 {
                                if vend + 1 <= pos {
                                    // Unreachable: values advance.
                                    Err(LpError::Malformed)
                                } else {
                                    spec_fields(line, vend + 1, acc2, tags)
                                }
                            } else {
                                Ok((acc2, vend))
                            }
                        }
                    }
                },
            }
        }
    }
}

/// Parse one line: a non-empty measurement, tags, one space, fields, and an
/// optional timestamp scaled by `base` (a missing one takes `default_time`).
/// The empty line parses to nothing.
pub open spec fn spec_parse_line(line: Seq<u8>, default_time: int, base: int) -> Result<
    Option<LineModel>,
    LpError,
> {
    if line.len() == 0 {
        Ok(None)
    } else {
        let m_end = spec_token_end(line, 0);
        if m_end == 0 || m_end >= line.len() || line[m_end] == 61 {
            Err(LpError::Malformed)
        } else {
            match spec_tags(line, m_end, Seq::empty()) {
                Err(e) => Err(e),
                Ok(tp) => {
                    let tags = tp.0;
                    let pos = tp.1;
                    if pos >= line.len() || line[pos] != 32 {
                        Err(LpError::Malformed)
                    } else {
                        match spec_fields(line, pos + 1, Seq::empty(), tags) {
                            Err(e) => Err(e),
                            Ok(fp) => {
                                let fields = fp.0;
                                let pos2 = fp.1;
                                let table = line.subrange(0, m_end);
                                if pos2 >= line.len() {
                                    Ok(
                                        Some(
                                            LineModel { table, tags, fields, time: default_time },
                                        ),
                                    )
                                } else if line[pos2] != 32 {
                                    Err(LpError::Malformed)
                                } else {
                                    let ts = pos2 + 1;
                                    if ts >= line.len() {
                                        Err(LpError::Malformed)
                                    } else {
                                        let neg = line[ts] == 45;
                                        let ds = if neg {
                                            ts + 1
                                        } else {
                                            ts
                                        };
                                        match spec_u64_digits(
                                            line,
                                            ds,
                                            line.len() as int,
                                            i64::MAX as int,
                                        ) {
                                            None => Err(LpError::Malformed),
                                            Some(v) => {
                                                let t = if neg {
                                                    -v
                                                } else {
                                                    v
                                                };
                                                if t > i64::MAX as int / base || t < -(
                                                i64::MAX as int / base) {
                                                    Err(LpError::TimestampOverflow)
                                                } else {
                                                    Ok(
                                                        Some(
                                                            LineModel {
                                                                table,
                                                                tags,
                                                                fields,
                                                                time: t * base,
                                                            },
                                                        ),
                                                    )
                                                }
                                            },
                                        }
                                    }
                                }
                            },
                        }
                    }
                },
            }
        }
    }
}

/// A found-first exec index is the spec's field position.
proof fn lemma_field_pos_first(acc: Seq<(Seq<u8>, Val)>, key: Seq<u8>, j: int)
    requires
        0 <= j < acc.len(),
        acc[j].0 == key,
        forall|k: int| 0 <= k < j ==> (#[trigger] acc[k]).0 != key,
    ensures
        spec_field_pos(acc, key) == j,
    decreases acc.len(),
{
    if j > 0 {
        assert forall|k: int| 0 <= k < j - 1 implies (#[trigger] acc.drop_first()[k]).0 != key by {
            assert(acc.drop_first()[k] == acc[k + 1]);
        }
        assert(acc.drop_first()[j - 1] == acc[j]);
        lemma_field_pos_first(acc.drop_first(), key, j - 1);
    }
}

/// An absent key has no spec field position.
proof fn lemma_field_pos_none(acc: Seq<(Seq<u8>, Val)>, key: Seq<u8>)
    requires
        forall|k: int| 0 <= k < acc.len() ==> (#[trigger] acc[k]).0 != key,
    ensures
        spec_field_pos(acc, key) < 0,
    decreases acc.len(),
{
    if acc.len() > 0 {
        assert forall|k: int| 0 <= k < acc.drop_first().len() implies (
        #[trigger] acc.drop_first()[k]).0 != key by {
            assert(acc.drop_first()[k] == acc[k + 1]);
        }
        lemma_field_pos_none(acc.drop_first(), key);
    }
}

/// Whether `key` equals some earlier key in `list`.
fn key_present(list: &Vec<(Vec<u8>, Vec<u8>)>, key: &[u8]) -> (r: bool)
    ensures
        r == exists|j: int| 0 <= j < list@.len() && (#[trigger] list@[j]).0@ == key@,
{
    let n = list.len();
    let mut j: usize = 0;
    while j < n
        invariant
            0 <= j <= n,
            n == list@.len(),
            forall|j2: int| 0 <= j2 < j ==> (#[trigger] list@[j2]).0@ != key@,
        decreases n - j,
    {
        if bytes_eq(list[j].0.as_slice(), key) {
            return true;
        }
        j += 1;
    }
    false
}

/// The position of `key` among the field pairs, if present.
fn field_position(list: &Vec<(Vec<u8>, FieldValue)>, key: &[u8]) -> (r: Option<usize>)
    ensures
        match r {
            Some(j) => j < list@.len() && list@[j as int].0@ == key@,
            None => forall|j: int| 0 <= j < list@.len() ==> (#[trigger] list@[j]).0@ != key@,
        },
{
    let n = list.len();
    let mut j: usize = 0;
    while j < n
        invariant
            0 <= j <= n,
            n == list@.len(),
            forall|j2: int| 0 <= j2 < j ==> (#[trigger] list@[j2]).0@ != key@,
        decreases n - j,
    {
        if bytes_eq(list[j].0.as_slice(), key) {
            return Some(j);
        }
        j += 1;
    }
    None
}

/// Parse one line, exactly as [`spec_parse_line`] reads it. `Ok(None)` for a
/// blank line. A returned line's entries carry pairwise distinct names, none
/// of them the reserved `time`, so a batch write of the line is well defined.
pub fn parse_line(line: &[u8], default_time: i64, base: i64) -> (r: Result<
    Option<ParsedLine>,
    LpError,
>)
    requires
        1 <= base <= 1000000000,
    ensures
        match r {
            Ok(opt) => match opt {
                None => line@.len() == 0 && spec_parse_line(
                    line@,
                    default_time as int,
                    base as int,
                ) == Ok::<Option<LineModel>, LpError>(None),
                Some(pl) => {
                    &&& spec_parse_line(line@, default_time as int, base as int) == Ok::<
                        Option<LineModel>,
                        LpError,
                    >(Some(pl.model()))
                    &&& pl.table@.len() > 0
                    &&& pl.fields@.len() > 0
                    &&& unique_names(line_entries(pl.tags@, pl.fields@, pl.time))
                },
            },
            Err(e) => spec_parse_line(line@, default_time as int, base as int) == Err::<
                Option<LineModel>,
                LpError,
            >(e),
        },
{
    let n = line.len();
    if n == 0 {
        return Ok(None);
    }
    let tname = crate::batch::time_name_vec();

    // Measurement.
    let m_end = token_end(line, 0);
    if m_end == 0 {
        return Err(LpError::Malformed);
    }
    if m_end >= n || line[m_end] == 61 {
        return Err(LpError::Malformed);
    }
    let table = slice_bytes(line, 0, m_end);

    // Tags.
    let mut tags: Vec<(Vec<u8>, Vec<u8>)> = Vec::new();
    let mut pos = m_end;
    proof {
        assert(pairs_model(tags@) =~= Seq::<(Seq<u8>, Seq<u8>)>::empty());
    }
    while pos < n && line[pos] == 44
        invariant
            0 < pos <= n,
            n == line@.len(),
            tname@ == time_name(),
            1 <= base <= 1000000000,
            m_end == spec_token_end(line@, 0),
            0 < m_end < n,
            line@[m_end as int] != 61,
            spec_tags(line@, m_end as int, Seq::empty()) == spec_tags(
                line@,
                pos as int,
                pairs_model(tags@),
            ),
            forall|i: int, j: int| 0 <= i < j < tags@.len() ==> (#[trigger] tags@[i]).0@ != (
            #[trigger] tags@[j]).0@,
            forall|i: int| 0 <= i < tags@.len() ==> (#[trigger] tags@[i]).0@ != time_name(),
        decreases n - pos,
    {
        let ks = pos + 1;
        if ks >= n {
            return Err(LpError::Malformed);
        }
        let ke = token_end(line, ks);
        if ke == ks || ke >= n || line[ke] != 61 {
            return Err(LpError::Malformed);
        }
        let vs = ke + 1;
        let ve = token_end(line, vs);
        if ve == vs {
            return Err(LpError::Malformed);
        }
        let key = slice_bytes(line, ks, ke);
        let value = slice_bytes(line, vs, ve);
        proof {
            // The spec's duplicate test agrees with the runtime scan.
            assert(tag_key_in(pairs_model(tags@), key@) == exists|j: int|
                0 <= j < tags@.len() && (#[trigger] tags@[j]).0@ == key@) by {
                if tag_key_in(pairs_model(tags@), key@) {
                    let w = choose|w: int|
                        0 <= w < pairs_model(tags@).len() && (#[trigger] pairs_model(tags@)[w]).0
                            == key@;
                    assert(tags@[w].0@ == key@);
                }
                if exists|j: int| 0 <= j < tags@.len() && (#[trigger] tags@[j]).0@ == key@ {
                    let w = choose|w: int| 0 <= w < tags@.len() && (#[trigger] tags@[w]).0@ == key@;
                    assert(pairs_model(tags@)[w].0 == key@);
                }
            }
        }
        if key_present(&tags, key.as_slice()) {
            return Err(LpError::DuplicateTag);
        }
        if bytes_eq(key.as_slice(), tname.as_slice()) {
            return Err(LpError::TypeMismatch);
        }
        if ve >= n {
            return Err(LpError::Malformed);
        }
        let ghost before = tags@;
        tags.push((key, value));
        proof {
            assert(forall|i: int| 0 <= i < before.len() ==> tags@[i] == before[i]);
            assert(pairs_model(tags@) =~= pairs_model(before).push(
                (line@.subrange(ks as int, ke as int), line@.subrange(vs as int, ve as int)),
            ));
        }
        pos = ve;
    }

    // The separating space before the fields.
    if pos >= n || line[pos] != 32 {
        return Err(LpError::Malformed);
    }
    let ghost tagsm = pairs_model(tags@);
    let ghost space_pos = pos as int;
    proof {
        assert(spec_tags(line@, m_end as int, Seq::empty()) == Ok::<
            (Seq<(Seq<u8>, Seq<u8>)>, int),
            LpError,
        >((tagsm, space_pos)));
    }
    pos = pos + 1;
    let ghost fstart = pos as int;

    // Fields.
    let mut fields: Vec<(Vec<u8>, FieldValue)> = Vec::new();
    proof {
        assert(fields_model(fields@) =~= Seq::<(Seq<u8>, Val)>::empty());
    }
    loop
        invariant_except_break
            spec_fields(line@, fstart, Seq::empty(), tagsm) == spec_fields(
                line@,
                pos as int,
                fields_model(fields@),
                tagsm,
            ),
        invariant
            0 < pos <= n,
            n == line@.len(),
            tname@ == time_name(),
            1 <= base <= 1000000000,
            m_end == spec_token_end(line@, 0),
            0 < m_end < n,
            line@[m_end as int] != 61,
            spec_tags(line@, m_end as int, Seq::empty()) == Ok::<
                (Seq<(Seq<u8>, Seq<u8>)>, int),
                LpError,
            >((tagsm, space_pos)),
            tagsm == pairs_model(tags@),
            0 <= space_pos < n,
            line@[space_pos] == 32,
            fstart == space_pos + 1,
            forall|i: int, j: int| 0 <= i < j < tags@.len() ==> (#[trigger] tags@[i]).0@ != (
            #[trigger] tags@[j]).0@,
            forall|i: int| 0 <= i < tags@.len() ==> (#[trigger] tags@[i]).0@ != time_name(),
            forall|i: int, j: int| 0 <= i < j < fields@.len() ==> (#[trigger] fields@[i]).0@ != (
            #[trigger] fields@[j]).0@,
            forall|i: int| 0 <= i < fields@.len() ==> (#[trigger] fields@[i]).0@ != time_name(),
            forall|i: int, j: int|
                0 <= i < fields@.len() && 0 <= j < tags@.len() ==> (#[trigger] fields@[i]).0@ != (
                #[trigger] tags@[j]).0@,
        ensures
            fields@.len() > 0,
            pos <= n,
            spec_fields(line@, fstart, Seq::empty(), tagsm) == Ok::<
                (Seq<(Seq<u8>, Val)>, int),
                LpError,
            >((fields_model(fields@), pos as int)),
        decreases n - pos,
    {
        if pos >= n {
            return Err(LpError::Malformed);
        }
        let ke = token_end(line, pos);
        if ke == pos || ke >= n || line[ke] != 61 {
            return Err(LpError::Malformed);
        }
        let key = slice_bytes(line, pos, ke);
        let vs = ke + 1;
        let (value, vend): (FieldValue, usize) = if vs < n && line[vs] == 34 {
            match scan_quoted(line, vs) {
                Ok((bytes, after)) => (FieldValue::Str(bytes), after),
                Err(e) => {
                    return Err(e);
                },
            }
        } else {
            let ve = token_end(line, vs);
            if ve == vs {
                return Err(LpError::Malformed);
            }
            let tok = slice_bytes(line, vs, ve);
            match classify_value(tok.as_slice()) {
                Ok(v) => (v, ve),
                Err(e) => {
                    return Err(e);
                },
            }
        };
        if bytes_eq(key.as_slice(), tname.as_slice()) {
            return Err(LpError::TypeMismatch);
        }
        proof {
            // The spec's tag-collision test agrees with the runtime scan.
            assert(tag_key_in(tagsm, key@) == exists|j: int|
                0 <= j < tags@.len() && (#[trigger] tags@[j]).0@ == key@) by {
                if tag_key_in(tagsm, key@) {
                    let w = choose|w: int|
                        0 <= w < tagsm.len() && (#[trigger] tagsm[w]).0 == key@;
                    assert(tags@[w].0@ == key@);
                }
                if exists|j: int| 0 <= j < tags@.len() && (#[trigger] tags@[j]).0@ == key@ {
                    let w = choose|w: int| 0 <= w < tags@.len() && (#[trigger] tags@[w]).0@ == key@;
                    assert(tagsm[w].0 == key@);
                }
            }
        }
        if key_present(&tags, key.as_slice()) {
            return Err(LpError::TypeMismatch);
        }
        match field_position(&fields, key.as_slice()) {
            Some(j) => {
                // A repeated field key: the same type overwrites (the last
                // value wins); a different type is a conflict.
                proof {
                    lemma_field_pos_first(fields_model(fields@), key@, j as int);
                    assert(fields_model(fields@)[j as int].1 == fields@[j as int].1.view());
                    lemma_val_typ(fields@[j as int].1);
                    lemma_val_typ(value);
                }
                let existing = fields[j].1.typ();
                let incoming = value.typ();
                if existing != incoming {
                    return Err(LpError::ConflictedFieldTypes);
                }
                let ghost before = fields@;
                fields[j] = (key, value);
                proof {
                    assert(fields@ =~= before.update(j as int, fields@[j as int]));
                    assert(fields@[j as int].0@ == before[j as int].0@);
                    assert(forall|i: int|
                        0 <= i < fields@.len() && i != j ==> fields@[i] == before[i]);
                    assert(fields_model(fields@) =~= fields_model(before).update(
                        j as int,
                        (key@, value.view()),
                    ));
                }
            },
            None => {
                proof {
                    lemma_field_pos_none(fields_model(fields@), key@);
                }
                let ghost before = fields@;
                fields.push((key, value));
                proof {
                    assert(forall|i: int| 0 <= i < before.len() ==> fields@[i] == before[i]);
                    assert(fields_model(fields@) =~= fields_model(before).push(
                        (key@, value.view()),
                    ));
                }
            },
        }
        if vend < n && line[vend] == 44 {
            if vend + 1 <= pos {
                return Err(LpError::Malformed);
            }
            pos = vend + 1;
        } else {
            pos = vend;
            break ;
        }
    }

    // Optional timestamp.
    let time: i64 = if pos >= n {
        default_time
    } else {
        if line[pos] != 32 {
            return Err(LpError::Malformed);
        }
        let ts = pos + 1;
        if ts >= n {
            return Err(LpError::Malformed);
        }
        let neg = line[ts] == 45;
        let ds: usize = if neg {
            ts + 1
        } else {
            ts
        };
        match parse_u64_digits(line, ds, n, i64::MAX as u64) {
            Some(v) => {
                let t: i64 = if neg {
                    -(v as i64)
                } else {
                    v as i64
                };
                // Scale by the precision base, rejecting overflow.
                let limit = i64::MAX / base;
                if t > limit || t < -limit {
                    return Err(LpError::TimestampOverflow);
                }
                proof {
                    assert(t * base <= i64::MAX && t * base >= -i64::MAX) by (nonlinear_arith)
                        requires
                            1 <= base <= 1000000000,
                            -(i64::MAX / base) <= t <= i64::MAX / base,
                    ;
                }
                t * base
            },
            None => {
                return Err(LpError::Malformed);
            },
        }
    };

    let pl = ParsedLine { table, tags, fields, time };
    proof {
        assert(spec_parse_line(line@, default_time as int, base as int) == Ok::<
            Option<LineModel>,
            LpError,
        >(Some(pl.model())));
        let es = line_entries(pl.tags@, pl.fields@, pl.time);
        let nt = pl.tags@.len() as int;
        let nf = pl.fields@.len() as int;
        assert forall|i: int, j: int| 0 <= i < j < es.len() implies es[i].name != es[j].name by {
            if i < nt {
                assert(es[i] == crate::batch::tag_entries(pl.tags@)[i]);
            } else if i < nt + nf {
                assert(es[i] == crate::batch::field_entries(pl.fields@)[i - nt]);
            }
            if j < nt {
                assert(es[j] == crate::batch::tag_entries(pl.tags@)[j]);
            } else if j < nt + nf {
                assert(es[j] == crate::batch::field_entries(pl.fields@)[j - nt]);
            } else {
                assert(es[j].name == time_name());
            }
        }
        assert(unique_names(es));
    }
    Ok(Some(pl))
}

/// An exec cell value's declared type is its mathematical value's type.
proof fn lemma_val_typ(fv: FieldValue)
    ensures
        val_typ(fv.view()) == fv.spec_typ(),
{
}

} // verus!

verus! {

/// The model of a produced per-table batch list.
pub open spec fn tables_model(v: Seq<(Vec<u8>, MutableBatch)>) -> Seq<(Seq<u8>, BatchModel)> {
    v.map_values(|p: (Vec<u8>, MutableBatch)| (p.0@, p.1.model()))
}

/// The first position of a table among the batches, or `-1`.
pub open spec fn spec_table_pos(ts: Seq<(Seq<u8>, BatchModel)>, name: Seq<u8>) -> int
    decreases ts.len(),
{
    if ts.len() == 0 {
        -1
    } else if ts[0].0 == name {
        0
    } else {
        let r = spec_table_pos(ts.drop_first(), name);
        if r < 0 {
            -1
        } else {
            r + 1
        }
    }
}

/// A found-first exec index is the spec's table position.
proof fn lemma_table_pos_first(ts: Seq<(Seq<u8>, BatchModel)>, name: Seq<u8>, j: int)
    requires
        0 <= j < ts.len(),
        ts[j].0 == name,
        forall|k: int| 0 <= k < j ==> (#[trigger] ts[k]).0 != name,
    ensures
        spec_table_pos(ts, name) == j,
    decreases ts.len(),
{
    if j > 0 {
        assert forall|k: int| 0 <= k < j - 1 implies (#[trigger] ts.drop_first()[k]).0 != name by {
            assert(ts.drop_first()[k] == ts[k + 1]);
        }
        assert(ts.drop_first()[j - 1] == ts[j]);
        lemma_table_pos_first(ts.drop_first(), name, j - 1);
    }
}

/// An absent table has no spec position.
proof fn lemma_table_pos_none(ts: Seq<(Seq<u8>, BatchModel)>, name: Seq<u8>)
    requires
        forall|k: int| 0 <= k < ts.len() ==> (#[trigger] ts[k]).0 != name,
    ensures
        spec_table_pos(ts, name) < 0,
    decreases ts.len(),
{
    if ts.len() > 0 {
        assert forall|k: int| 0 <= k < ts.drop_first().len() implies (
        #[trigger] ts.drop_first()[k]).0 != name by {
            assert(ts.drop_first()[k] == ts[k + 1]);
        }
        lemma_table_pos_none(ts.drop_first(), name);
    }
}

/// The row entries a parsed line writes, at the model level: tags, then
/// fields, then the timestamp.
pub open spec fn model_entries(pl: LineModel) -> Seq<RowEntry> {
    pl.tags.map_values(
        |p: (Seq<u8>, Seq<u8>)| RowEntry {
            name: p.0,
            typ: crate::batch::ColType::Tag,
            val: Val::Str(p.1),
        },
    ) + pl.fields.map_values(
        |p: (Seq<u8>, Val)| RowEntry { name: p.0, typ: val_typ(p.1), val: p.1 },
    ) + seq![
        RowEntry {
            name: time_name(),
            typ: crate::batch::ColType::Time,
            val: Val::I64(pl.time as i64),
        },
    ]
}

/// An exec line's entries match its model's entries.
proof fn lemma_model_entries(pl: ParsedLine)
    ensures
        model_entries(pl.model()) == line_entries(pl.tags@, pl.fields@, pl.time),
{
    let a = model_entries(pl.model());
    let b = line_entries(pl.tags@, pl.fields@, pl.time);
    assert forall|k: int| 0 <= k < a.len() implies a[k] == b[k] by {
        let nt = pl.tags@.len() as int;
        let nf = pl.fields@.len() as int;
        if k < nt {
            assert(b[k] == crate::batch::tag_entries(pl.tags@)[k]);
        } else if k < nt + nf {
            assert(b[k] == crate::batch::field_entries(pl.fields@)[k - nt]);
            lemma_val_typ(pl.fields@[k - nt].1);
        }
    }
    assert(a =~= b);
}

/// The per-table batches after one line: the line's table gains a row (the
/// table joining the list if new), failing on a schema conflict or on a
/// batch at the size limit.
pub open spec fn spec_write_line(ts: Seq<(Seq<u8>, BatchModel)>, pl: LineModel) -> Result<
    Seq<(Seq<u8>, BatchModel)>,
    LpError,
> {
    let j = spec_table_pos(ts, pl.table);
    let ts1 = if j >= 0 {
        ts
    } else {
        ts.push((pl.table, crate::compact::empty_batch()))
    };
    let j1 = if j >= 0 {
        j
    } else {
        ts.len() as int
    };
    if ts1[j1].1.rows >= usize::MAX - 1 {
        Err(LpError::ValueOutOfRange)
    } else {
        match row_written(ts1[j1].1, model_entries(pl)) {
            None => Err(LpError::TypeMismatch),
            Some(m2) => Ok(ts1.update(j1, (pl.table, m2))),
        }
    }
}

/// One saturating count step: add `d`, or stand still at the limit.
pub open spec fn sat_count(x: int, d: int) -> int {
    if x + d <= usize::MAX {
        x + d
    } else {
        x
    }
}

/// The converter state after consuming `body` from cursor `pos` (the current
/// line beginning at `start`): tables, converted-line count and field count.
pub open spec fn spec_write_lp(
    ts: Seq<(Seq<u8>, BatchModel)>,
    nl: int,
    nf: int,
    body: Seq<u8>,
    start: int,
    pos: int,
    default_time: int,
    base: int,
) -> Result<(Seq<(Seq<u8>, BatchModel)>, int, int), LpError>
    decreases body.len() - pos,
{
    if pos < 0 || pos > body.len() || start > pos || start < 0 {
        Err(LpError::Malformed)
    } else if pos == body.len() || body[pos] == 10 {
        let end = if pos > start && body[pos - 1] == 13 {
            pos - 1
        } else {
            pos
        };
        let line = body.subrange(start, end);
        let step: Result<(Seq<(Seq<u8>, BatchModel)>, int, int), LpError> = match spec_parse_line(
            line,
            default_time,
            base,
        ) {
            Err(e) => Err(e),
            Ok(opt) => match opt {
                None => Ok((ts, nl, nf)),
                Some(pl) => match spec_write_line(ts, pl) {
                    Err(e) => Err(e),
                    Ok(ts2) => Ok(
                        (ts2, sat_count(nl, 1), sat_count(nf, pl.fields.len() as int)),
                    ),
                },
            },
        };
        match step {
            Err(e) => Err(e),
            Ok(p) => {
                if pos == body.len() {
                    Ok(p)
                } else {
                    spec_write_lp(p.0, p.1, p.2, body, pos + 1, pos + 1, default_time, base)
                }
            },
        }
    } else {
        spec_write_lp(ts, nl, nf, body, start, pos + 1, default_time, base)
    }
}

/// What a full conversion yields: the folded per-table batches and counts,
/// `EmptyPayload` when no line carried content.
pub open spec fn spec_lines_to_batches(body: Seq<u8>, default_time: int, base: int) -> Result<
    (Seq<(Seq<u8>, BatchModel)>, int, int),
    LpError,
> {
    match spec_write_lp(Seq::empty(), 0, 0, body, 0, 0, default_time, base) {
        Err(e) => Err(e),
        Ok(p) => {
            if p.0.len() == 0 {
                Err(LpError::EmptyPayload)
            } else {
                Ok(p)
            }
        },
    }
}

/// Counts of what a conversion consumed.
#[derive(Clone, Copy, Debug, PartialEq, Eq, Structural)]
pub struct LineStats {
    /// Lines successfully converted.
    pub num_lines: usize,
    /// Field values successfully converted.
    pub num_fields: usize,
}

/// Converts line-protocol text into per-table mutable batches, assigning a
/// configurable default timestamp to points without one and scaling provided
/// timestamps by the precision base.
pub struct LinesConverter {
    batches: Vec<(Vec<u8>, MutableBatch)>,
    stats: LineStats,
    default_time: i64,
    base: i64,
}

impl LinesConverter {
    /// The converter's batches are well formed and keyed by distinct tables.
    pub closed spec fn wf(&self) -> bool {
        &&& 1 <= self.base <= 1000000000
        &&& forall|i: int| 0 <= i < self.batches@.len() ==> (#[trigger] self.batches@[i]).1.wf()
        &&& forall|i: int, j: int|
            0 <= i < j < self.batches@.len() ==> (#[trigger] self.batches@[i]).0@ != (
            #[trigger] self.batches@[j]).0@
    }

    /// The tables converted so far, with their batch models.
    pub closed spec fn tables(&self) -> Seq<(Seq<u8>, BatchModel)> {
        tables_model(self.batches@)
    }

    /// The default timestamp assigned to points without one.
    pub closed spec fn spec_default_time(&self) -> int {
        self.default_time as int
    }

    /// The multiplier applied to provided timestamps.
    pub closed spec fn spec_base(&self) -> int {
        self.base as int
    }

    /// The consumption counts so far: converted lines and fields.
    pub closed spec fn spec_stats(&self) -> (int, int) {
        (self.stats.num_lines as int, self.stats.num_fields as int)
    }

    /// A fresh converter: no batches, nanosecond precision, the given
    /// default timestamp.
    pub fn new(default_time: i64) -> (r: Self)
        ensures
            r.wf(),
            r.tables().len() == 0,
            r.spec_default_time() == default_time,
            r.spec_base() == 1,
            r.spec_stats() == (0int, 0int),
    {
        let r = LinesConverter {
            batches: Vec::new(),
            stats: LineStats { num_lines: 0, num_fields: 0 },
            default_time,
            base: 1,
        };
        proof {
            assert(r.tables() =~= Seq::<(Seq<u8>, BatchModel)>::empty());
        }
        r
    }

    /// Set the timestamp base: provided timestamps are multiplied by it.
    pub fn set_timestamp_base(&mut self, base: i64)
        requires
            old(self).wf(),
            1 <= base <= 1000000000,
        ensures
            final(self).wf(),
            final(self).tables() == old(self).tables(),
            final(self).spec_default_time() == old(self).spec_default_time(),
            final(self).spec_base() == base,
            final(self).spec_stats() == old(self).spec_stats(),
    {
        self.base = base;
    }

    /// Convert one parsed line into its table's batch, exactly as
    /// [`spec_write_line`] folds it.
    fn write_parsed(&mut self, pl: &ParsedLine) -> (r: Result<(), LpError>)
        requires
            old(self).wf(),
            unique_names(line_entries(pl.tags@, pl.fields@, pl.time)),
        ensures
            final(self).wf(),
            final(self).spec_default_time() == old(self).spec_default_time(),
            final(self).spec_base() == old(self).spec_base(),
            final(self).spec_stats() == old(self).spec_stats(),
            match r {
                Ok(()) => spec_write_line(old(self).tables(), pl.model()) == Ok::<
                    Seq<(Seq<u8>, BatchModel)>,
                    LpError,
                >(final(self).tables()),
                Err(e) => spec_write_line(old(self).tables(), pl.model()) == Err::<
                    Seq<(Seq<u8>, BatchModel)>,
                    LpError,
                >(e),
            },
    {
        let ghost ts0 = self.tables();
        proof {
            lemma_model_entries(*pl);
        }
        // Find or create the table's batch.
        let np = self.batches.len();
        let mut bi: usize = np;
        let mut k: usize = 0;
        while k < np
            invariant
                0 <= k <= np,
                np == self.batches@.len(),
                bi == np || (bi < np && self.batches@[bi as int].0@ == pl.table@),
                bi == np ==> forall|j: int|
                    0 <= j < k ==> (#[trigger] self.batches@[j]).0@ != pl.table@,
                bi < np ==> forall|j: int|
                    0 <= j < bi ==> (#[trigger] self.batches@[j]).0@ != pl.table@,
            decreases np - k,
        {
            if bi == np && bytes_eq(self.batches[k].0.as_slice(), pl.table.as_slice()) {
                bi = k;
            }
            k += 1;
        }
        proof {
            if bi < np {
                assert forall|j: int| 0 <= j < bi implies (#[trigger] ts0[j]).0 != pl.table@ by {
                    assert(ts0[j].0 == self.batches@[j].0@);
                }
                assert(ts0[bi as int].0 == pl.table@);
                lemma_table_pos_first(ts0, pl.table@, bi as int);
            } else {
                assert forall|j: int| 0 <= j < ts0.len() implies (#[trigger] ts0[j]).0
                    != pl.table@ by {
                    assert(ts0[j].0 == self.batches@[j].0@);
                }
                lemma_table_pos_none(ts0, pl.table@);
            }
        }
        if bi == np {
            self.batches.push((clone_bytes(&pl.table), MutableBatch::new()));
            proof {
                assert(self.batches@[np as int].0@ == pl.table@);
                assert(forall|i: int| 0 <= i < np ==> self.batches@[i] == old(self).batches@[i]);
                assert(self.batches@[np as int].1.model().cols =~= Seq::<
                    crate::batch::ColModel,
                >::empty());
                assert(self.tables() =~= ts0.push((pl.table@, crate::compact::empty_batch())));
            }
        }
        let ghost ts1 = self.tables();
        let ghost pre = self.batches@;
        // Take the batch out, write the row, and put it back in place.
        let mut entry = self.batches.remove(bi);
        if entry.1.rows() >= usize::MAX - 1 {
            self.batches.insert(bi, entry);
            proof {
                assert(self.batches@ =~= pre);
                assert(self.tables() == ts1);
            }
            return Err(LpError::ValueOutOfRange);
        }
        let res = entry.1.write_row(&pl.tags, &pl.fields, pl.time);
        self.batches.insert(bi, entry);
        proof {
            assert(self.batches@ =~= pre.update(bi as int, self.batches@[bi as int]));
            assert(self.batches@[bi as int].0@ == pl.table@);
            assert(self.tables() =~= ts1.update(
                bi as int,
                (pl.table@, self.batches@[bi as int].1.model()),
            ));
        }
        match res {
            Ok(()) => {
                proof {
                    assert(self.tables() == spec_write_line(ts0, pl.model()).unwrap());
                }
                Ok(())
            },
            Err(_) => {
                proof {
                    // The failed write left the batch unchanged, so the
                    // tables are as before.
                    assert(self.tables() =~= ts1);
                }
                Err(LpError::TypeMismatch)
            },
        }
    }
}

} // verus!

verus! {

impl LinesConverter {
    /// Convert a chunk of line-protocol text: any number of lines separated
    /// by newlines, folded exactly as [`spec_write_lp`] reads them. The first
    /// error is returned and poisons the conversion.
    pub fn write_lp(&mut self, body: &[u8]) -> (r: Result<(), LpError>)
        requires
            old(self).wf(),
        ensures
            final(self).wf(),
            final(self).spec_default_time() == old(self).spec_default_time(),
            final(self).spec_base() == old(self).spec_base(),
            match r {
                Ok(()) => spec_write_lp(
                    old(self).tables(),
                    old(self).spec_stats().0,
                    old(self).spec_stats().1,
                    body@,
                    0,
                    0,
                    old(self).spec_default_time(),
                    old(self).spec_base(),
                ) == Ok::<(Seq<(Seq<u8>, BatchModel)>, int, int), LpError>(
                    (final(self).tables(), final(self).spec_stats().0, final(self).spec_stats().1),
                ),
                Err(e) => spec_write_lp(
                    old(self).tables(),
                    old(self).spec_stats().0,
                    old(self).spec_stats().1,
                    body@,
                    0,
                    0,
                    old(self).spec_default_time(),
                    old(self).spec_base(),
                ) == Err::<(Seq<(Seq<u8>, BatchModel)>, int, int), LpError>(e),
            },
    {
        let ghost ts0 = self.tables();
        let ghost nl0 = self.spec_stats().0;
        let ghost nf0 = self.spec_stats().1;
        let ghost dt = self.spec_default_time();
        let ghost bs = self.spec_base();
        let n = body.len();
        let mut start: usize = 0;
        let mut pos: usize = 0;
        loop
            invariant_except_break
                spec_write_lp(ts0, nl0, nf0, body@, 0, 0, dt, bs) == spec_write_lp(
                    self.tables(),
                    self.spec_stats().0,
                    self.spec_stats().1,
                    body@,
                    start as int,
                    pos as int,
                    dt,
                    bs,
                ),
            invariant
                self.wf(),
                start <= pos <= n,
                n == body@.len(),
                dt == self.spec_default_time(),
                bs == self.spec_base(),
                ts0 == old(self).tables(),
                nl0 == old(self).spec_stats().0,
                nf0 == old(self).spec_stats().1,
                dt == old(self).spec_default_time(),
                bs == old(self).spec_base(),
            ensures
                self.wf(),
                dt == self.spec_default_time(),
                bs == self.spec_base(),
                spec_write_lp(ts0, nl0, nf0, body@, 0, 0, dt, bs) == Ok::<
                    (Seq<(Seq<u8>, BatchModel)>, int, int),
                    LpError,
                >((self.tables(), self.spec_stats().0, self.spec_stats().1)),
            decreases n - pos,
        {
            if pos == n || body[pos] == 10 {
                // One line: [start, pos), trimming one trailing CR.
                let end = if pos > start && body[pos - 1] == 13 {
                    pos - 1
                } else {
                    pos
                };
                let line = slice_bytes(body, start, end);
                match parse_line(line.as_slice(), self.default_time, self.base) {
                    Ok(Some(pl)) => {
                        match self.write_parsed(&pl) {
                            Ok(()) => {},
                            Err(e) => {
                                return Err(e);
                            },
                        }
                        if self.stats.num_lines < usize::MAX {
                            self.stats.num_lines = self.stats.num_lines + 1;
                        }
                        let nf = pl.fields.len();
                        if self.stats.num_fields <= usize::MAX - nf {
                            self.stats.num_fields = self.stats.num_fields + nf;
                        }
                        proof {
                            assert(pl.model().fields.len() == nf as int);
                        }
                    },
                    Ok(None) => {},
                    Err(e) => {
                        return Err(e);
                    },
                }
                if pos == n {
                    break ;
                }
                start = pos + 1;
            }
            if pos == n {
                break ;
            }
            pos += 1;
        }
        Ok(())
    }

    /// Finish the conversion: the per-table batches and the consumption
    /// counts, or `EmptyPayload` when nothing was written.
    pub fn finish(self) -> (r: Result<(Vec<(Vec<u8>, MutableBatch)>, LineStats), LpError>)
        requires
            self.wf(),
        ensures
            match r {
                Ok(p) => {
                    &&& p.0@.len() > 0
                    &&& tables_model(p.0@) == self.tables()
                    &&& p.1.num_lines as int == self.spec_stats().0
                    &&& p.1.num_fields as int == self.spec_stats().1
                    &&& forall|i: int| 0 <= i < p.0@.len() ==> (#[trigger] p.0@[i]).1.wf()
                    &&& forall|i: int, j: int|
                        0 <= i < j < p.0@.len() ==> (#[trigger] p.0@[i]).0@ != (
                        #[trigger] p.0@[j]).0@
                },
                Err(e) => e == LpError::EmptyPayload && self.tables().len() == 0,
            },
    {
        if self.batches.len() == 0 {
            return Err(LpError::EmptyPayload);
        }
        let LinesConverter { batches, stats, .. } = self;
        Ok((batches, stats))
    }
}

/// Convert a full line-protocol payload in one call, exactly as
/// [`spec_lines_to_batches`] reads it: parse every line with the given
/// default timestamp and precision base, and group the rows into per-table
/// batches.
pub fn lines_to_batches(body: &[u8], default_time: i64, timestamp_base: i64) -> (r: Result<
    (Vec<(Vec<u8>, MutableBatch)>, LineStats),
    LpError,
>)
    requires
        1 <= timestamp_base <= 1000000000,
    ensures
        match r {
            Ok(p) => {
                &&& spec_lines_to_batches(body@, default_time as int, timestamp_base as int)
                    == Ok::<(Seq<(Seq<u8>, BatchModel)>, int, int), LpError>(
                    (tables_model(p.0@), p.1.num_lines as int, p.1.num_fields as int),
                )
                &&& p.0@.len() > 0
                &&& forall|i: int| 0 <= i < p.0@.len() ==> (#[trigger] p.0@[i]).1.wf()
                &&& forall|i: int, j: int|
                    0 <= i < j < p.0@.len() ==> (#[trigger] p.0@[i]).0@ != (#[trigger] p.0@[j]).0@
            },
            Err(e) => spec_lines_to_batches(body@, default_time as int, timestamp_base as int)
                == Err::<(Seq<(Seq<u8>, BatchModel)>, int, int), LpError>(e),
        },
{
    let mut conv = LinesConverter::new(default_time);
    conv.set_timestamp_base(timestamp_base);
    proof {
        assert(conv.tables() =~= Seq::<(Seq<u8>, BatchModel)>::empty());
    }
    match conv.write_lp(body) {
        Ok(()) => conv.finish(),
        Err(e) => Err(e),
    }
}

} // verus!
