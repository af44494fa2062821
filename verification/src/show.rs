//! The `SHOW FIELD KEYS` statement: its parsed form, renderer, and parser
//! (starting from the `FIELD` token, as the statement dispatcher hands it
//! over).

use vstd::prelude::*;

use crate::duration::dec_digits;

verus! {

/// One measurement selection of a FROM clause.
pub enum FromItem {
    /// A bare identifier.
    Name(Vec<u8>),
    /// A double-quoted identifier.
    Quoted(Vec<u8>),
    /// A regular expression `/…/`.
    Regex(Vec<u8>),
    /// A database-qualified name `db..name`.
    Qualified(Vec<u8>, Vec<u8>),
}

/// A `SHOW FIELD KEYS` InfluxQL statement.
pub struct ShowFieldKeysStatement {
    /// The database to query (`ON db`), if given.
    pub database: Option<Vec<u8>>,
    /// The measurement selections (`FROM …`), if given.
    pub from: Option<Vec<FromItem>>,
    /// A cap on the number of field keys returned (`LIMIT n`), if given.
    pub limit: Option<u64>,
    /// An offset into the field keys returned (`OFFSET n`), if given.
    pub offset: Option<u64>,
}

/// The model of one FROM item.
pub enum FromItemM {
    /// A bare identifier.
    Name(Seq<u8>),
    /// A double-quoted identifier.
    Quoted(Seq<u8>),
    /// A regular expression.
    Regex(Seq<u8>),
    /// A database-qualified name.
    Qualified(Seq<u8>, Seq<u8>),
}

impl FromItem {
    /// The model of this item.
    pub open spec fn view(&self) -> FromItemM {
        match self {
            FromItem::Name(n) => FromItemM::Name(n@),
            FromItem::Quoted(n) => FromItemM::Quoted(n@),
            FromItem::Regex(r) => FromItemM::Regex(r@),
            FromItem::Qualified(db, n) => FromItemM::Qualified(db@, n@),
        }
    }
}

/// The model of a statement.
pub struct StatementModel {
    /// The database, if given.
    pub database: Option<Seq<u8>>,
    /// The measurement selections, if given.
    pub from: Option<Seq<FromItemM>>,
    /// The LIMIT value, if given.
    pub limit: Option<int>,
    /// The OFFSET value, if given.
    pub offset: Option<int>,
}

impl ShowFieldKeysStatement {
    /// The model of this statement.
    pub open spec fn model(&self) -> StatementModel {
        StatementModel {
            database: match self.database {
                Some(db) => Some(db@),
                None => None,
            },
            from: match self.from {
                Some(items) => Some(items@.map_values(|it: FromItem| it.view())),
                None => None,
            },
            limit: match self.limit {
                Some(v) => Some(v as int),
                None => None,
            },
            offset: match self.offset {
                Some(v) => Some(v as int),
                None => None,
            },
        }
    }
}

/// Why a statement failed to parse.
#[derive(Clone, Copy, Debug, PartialEq, Eq, Structural)]
pub enum ShowError {
    /// `FIELD` was not followed by `KEYS`.
    ExpectedKeys,
    /// The statement is otherwise malformed.
    Malformed,
}

/// The rendering of one FROM item.
pub open spec fn from_item_text(it: FromItem) -> Seq<u8> {
    match it {
        FromItem::Name(n) => n@,
        FromItem::Quoted(n) => seq![34u8] + n@ + seq![34u8],
        FromItem::Regex(r) => seq![47u8] + r@ + seq![47u8],
        FromItem::Qualified(db, n) => db@ + seq![46u8, 46u8] + n@,
    }
}

/// The rendering of a FROM list, comma separated.
pub open spec fn from_list_text(items: Seq<FromItem>) -> Seq<u8>
    decreases items.len(),
{
    if items.len() == 0 {
        Seq::empty()
    } else if items.len() == 1 {
        from_item_text(items[0])
    } else {
        from_list_text(items.drop_last()) + seq![44u8, 32u8] + from_item_text(items.last())
    }
}

/// The fixed statement head.
pub open spec fn head_text() -> Seq<u8> {
    seq![83u8, 72u8, 79u8, 87u8, 32u8, 70u8, 73u8, 69u8, 76u8, 68u8, 32u8, 75u8, 69u8, 89u8, 83u8]
}

/// The rendering of the ON clause, if any.
pub open spec fn on_text(s: ShowFieldKeysStatement) -> Seq<u8> {
    match s.database {
        Some(db) => seq![32u8, 79u8, 78u8, 32u8] + db@,
        None => Seq::<u8>::empty(),
    }
}

/// The rendering of the FROM clause, if any.
pub open spec fn from_text(s: ShowFieldKeysStatement) -> Seq<u8> {
    match s.from {
        Some(items) => seq![32u8, 70u8, 82u8, 79u8, 77u8, 32u8] + from_list_text(items@),
        None => Seq::<u8>::empty(),
    }
}

/// The rendering of the LIMIT clause, if any.
pub open spec fn limit_text(s: ShowFieldKeysStatement) -> Seq<u8> {
    match s.limit {
        Some(v) => seq![32u8, 76u8, 73u8, 77u8, 73u8, 84u8, 32u8] + dec_digits(v as nat),
        None => Seq::<u8>::empty(),
    }
}

/// The rendering of the OFFSET clause, if any.
pub open spec fn offset_text(s: ShowFieldKeysStatement) -> Seq<u8> {
    match s.offset {
        Some(v) => seq![32u8, 79u8, 70u8, 70u8, 83u8, 69u8, 84u8, 32u8] + dec_digits(v as nat),
        None => Seq::<u8>::empty(),
    }
}

/// The canonical rendering of a statement:
/// `SHOW FIELD KEYS [ON db] [FROM …] [LIMIT n] [OFFSET n]`.
pub open spec fn statement_text(s: ShowFieldKeysStatement) -> Seq<u8> {
    head_text() + on_text(s) + from_text(s) + limit_text(s) + offset_text(s)
}

/// Append every byte of `v`.
fn push_all(out: &mut Vec<u8>, v: &[u8])
    ensures
        final(out)@ == old(out)@ + v@,
{
    let n = v.len();
    let mut i: usize = 0;
    proof {
        assert(old(out)@ + v@.take(0) =~= old(out)@);
    }
    while i < n
        invariant
            0 <= i <= n,
            n == v@.len(),
            out@ == old(out)@ + v@.take(i as int),
        decreases n - i,
    {
        let ghost before = out@;
        out.push(v[i]);
        proof {
            assert(old(out)@ + v@.take(i as int + 1) =~= before.push(v@[i as int]));
        }
        i += 1;
    }
    proof {
        assert(v@.take(n as int) =~= v@);
    }
}

/// Append the rendering of one FROM item.
fn render_from_item(out: &mut Vec<u8>, item: &FromItem)
    ensures
        final(out)@ == old(out)@ + from_item_text(*item),
{
    match item {
        FromItem::Name(n) => push_all(out, n.as_slice()),
        FromItem::Quoted(n) => {
            out.push(34);
            push_all(out, n.as_slice());
            out.push(34);
            proof {
                assert(final(out)@ =~= old(out)@ + from_item_text(*item));
            }
        },
        FromItem::Regex(rx) => {
            out.push(47);
            push_all(out, rx.as_slice());
            out.push(47);
            proof {
                assert(final(out)@ =~= old(out)@ + from_item_text(*item));
            }
        },
        FromItem::Qualified(db, n) => {
            push_all(out, db.as_slice());
            out.push(46);
            out.push(46);
            push_all(out, n.as_slice());
            proof {
                assert(final(out)@ =~= old(out)@ + from_item_text(*item));
            }
        },
    }
}

/// Append the rendering of a FROM list.
fn render_from_list(out: &mut Vec<u8>, items: &Vec<FromItem>)
    ensures
        final(out)@ == old(out)@ + from_list_text(items@),
{
    let ni = items.len();
    let mut k: usize = 0;
    proof {
        if ni == 0 {
            assert(from_list_text(items@) =~= Seq::<u8>::empty());
        }
        assert(old(out)@ + Seq::<u8>::empty() =~= old(out)@);
    }
    while k < ni
        invariant
            0 <= k <= ni,
            ni == items@.len(),
            k == 0 ==> out@ == old(out)@,
            k > 0 ==> out@ == old(out)@ + from_list_text(items@.take(k as int)),
        decreases ni - k,
    {
        if k > 0 {
            out.push(44);
            out.push(32);
        }
        let ghost mid = out@;
        render_from_item(out, &items[k]);
        proof {
            assert(out@ == mid + from_item_text(items@[k as int]));
            assert(items@.take(k as int + 1).drop_last() =~= items@.take(k as int));
            assert(items@.take(k as int + 1).last() == items@[k as int]);
            if k == 0 {
                assert(items@.take(1).len() == 1);
                assert(from_list_text(items@.take(1)) == from_item_text(items@.take(1)[0]));
                assert(out@ =~= old(out)@ + from_list_text(items@.take(1)));
            } else {
                assert(out@ =~= old(out)@ + from_list_text(items@.take(k as int + 1)));
            }
        }
        k += 1;
    }
    proof {
        assert(items@.take(ni as int) =~= items@);
        if ni == 0 {
            assert(out@ =~= old(out)@ + from_list_text(items@));
        }
    }
}

impl ShowFieldKeysStatement {
    /// Render the statement in its canonical form.
    #[verifier::rlimit(100)]
    #[verifier::spinoff_prover]
    pub fn to_text(&self) -> (r: Vec<u8>)
        ensures
            r@ == statement_text(*self),
    {
        let ghost head_s = head_text();
        let mut out: Vec<u8> = Vec::new();
        out.push(83);
        out.push(72);
        out.push(79);
        out.push(87);
        out.push(32);
        out.push(70);
        out.push(73);
        out.push(69);
        out.push(76);
        out.push(68);
        out.push(32);
        out.push(75);
        out.push(69);
        out.push(89);
        out.push(83);
        proof {
            assert(out@ =~= head_s);
        }
        let ghost on_s = on_text(*self);
        match &self.database {
            Some(db) => {
                out.push(32);
                out.push(79);
                out.push(78);
                out.push(32);
                push_all(&mut out, db.as_slice());
                proof {
                    assert(out@ =~= head_s + on_s);
                }
            },
            None => {
                proof {
                    assert(out@ =~= head_s + on_s);
                }
            },
        }
        let ghost from_s = from_text(*self);
        match &self.from {
            Some(items) => {
                out.push(32);
                out.push(70);
                out.push(82);
                out.push(79);
                out.push(77);
                out.push(32);
                render_from_list(&mut out, items);
                proof {
                    assert(out@ =~= head_s + on_s + from_s);
                }
            },
            None => {
                proof {
                    assert(out@ =~= head_s + on_s + from_s);
                }
            },
        }
        let ghost limit_s = limit_text(*self);
        match &self.limit {
            Some(v) => {
                out.push(32);
                out.push(76);
                out.push(73);
                out.push(77);
                out.push(73);
                out.push(84);
                out.push(32);
                crate::duration::push_dec(&mut out, *v);
                proof {
                    assert(out@ =~= head_s + on_s + from_s + limit_s);
                }
            },
            None => {
                proof {
                    assert(out@ =~= head_s + on_s + from_s + limit_s);
                }
            },
        }
        let ghost offset_s = offset_text(*self);
        match &self.offset {
            Some(v) => {
                out.push(32);
                out.push(79);
                out.push(70);
                out.push(70);
                out.push(83);
                out.push(69);
                out.push(84);
                out.push(32);
                crate::duration::push_dec(&mut out, *v);
                proof {
                    assert(out@ =~= head_s + on_s + from_s + limit_s + offset_s);
                }
            },
            None => {
                proof {
                    assert(out@ =~= head_s + on_s + from_s + limit_s + offset_s);
                }
            },
        }
        proof {
            assert(statement_text(*self) == head_s + on_s + from_s + limit_s + offset_s);
        }
        out
    }
}

} // verus!

verus! {

/// Lower-case a letter byte.
fn lower(b: u8) -> (r: u8)
    ensures
        r == spec_lower(b),
{
    if 65 <= b && b <= 90 {
        b + 32
    } else {
        b
    }
}

/// Whether an identifier byte: letters, digits, underscores.
fn is_ident_byte(b: u8) -> (r: bool)
    ensures
        r == spec_is_ident(b),
{
    (48 <= b && b <= 57) || (65 <= b && b <= 90) || (97 <= b && b <= 122) || b == 95
}

/// Whether the case-insensitive keyword `w` stands at `pos`, ending at a word
/// boundary; returns the position after it.
fn keyword_at(s: &[u8], pos: usize, w: &[u8]) -> (r: Option<usize>)
    requires
        pos <= s@.len(),
    ensures
        match r {
            Some(p) => pos < p <= s@.len() && spec_keyword_at(s@, pos as int, w@) == Some(
                p as int,
            ),
            None => spec_keyword_at(s@, pos as int, w@) is None,
        },
{
    let n = s.len();
    let wn = w.len();
    if wn == 0 || n - pos < wn {
        return None;
    }
    let mut i: usize = 0;
    while i < wn
        invariant
            0 <= i <= wn,
            wn <= n - pos,
            pos + wn <= n,
            n == s@.len(),
            wn == w@.len(),
            wn > 0,
            forall|j: int|
                0 <= j < i ==> spec_lower(#[trigger] s@[pos + j]) == spec_lower(w@[j]),
        decreases wn - i,
    {
        if lower(s[pos + i]) != lower(w[i]) {
            proof {
                assert(spec_lower(s@[pos + i as int]) != spec_lower(w@[i as int]));
            }
            return None;
        }
        i += 1;
    }
    if pos + wn < n && is_ident_byte(s[pos + wn]) {
        return None;
    }
    Some(pos + wn)
}

/// Skip one or more spaces; `None` when there is none.
fn ws1(s: &[u8], pos: usize) -> (r: Option<usize>)
    requires
        pos <= s@.len(),
    ensures
        match r {
            Some(p) => pos < p <= s@.len() && spec_ws1(s@, pos as int) == Some(p as int),
            None => spec_ws1(s@, pos as int) is None,
        },
{
    let n = s.len();
    if pos >= n || s[pos] != 32 {
        return None;
    }
    let mut i = pos + 1;
    while i < n && s[i] == 32
        invariant
            pos < i <= n,
            n == s@.len(),
            spec_skip_spaces(s@, pos as int + 1) == spec_skip_spaces(s@, i as int),
        decreases n - i,
    {
        i += 1;
    }
    Some(i)
}

/// Scan an identifier run; `None` when empty.
fn ident_at(s: &[u8], pos: usize) -> (r: Option<(Vec<u8>, usize)>)
    requires
        pos <= s@.len(),
    ensures
        match r {
            Some(p) => pos < p.1 <= s@.len() && spec_ident_at(s@, pos as int) == Some(
                (p.0@, p.1 as int),
            ),
            None => spec_ident_at(s@, pos as int) is None,
        },
{
    let n = s.len();
    let mut i = pos;
    let mut out: Vec<u8> = Vec::new();
    proof {
        assert(out@ =~= s@.subrange(pos as int, pos as int));
    }
    while i < n && ((48 <= s[i] && s[i] <= 57) || (65 <= s[i] && s[i] <= 90) || (97 <= s[i]
        && s[i] <= 122) || s[i] == 95)
        invariant
            pos <= i <= n,
            n == s@.len(),
            out@ == s@.subrange(pos as int, i as int),
            spec_ident_end(s@, pos as int) == spec_ident_end(s@, i as int),
        decreases n - i,
    {
        let b = s[i];
        let ghost before = out@;
        out.push(b);
        proof {
            assert(s@.subrange(pos as int, i as int + 1) =~= before.push(s@[i as int]));
        }
        i += 1;
    }
    proof {
        assert(spec_ident_end(s@, i as int) == i as int);
    }
    if i == pos {
        return None;
    }
    Some((out, i))
}

/// Every byte of a digit run is a digit, and the run stays within bounds.
proof fn lemma_digit_end_facts(s: Seq<u8>, pos: int)
    requires
        0 <= pos <= s.len(),
    ensures
        pos <= spec_digit_end(s, pos) <= s.len(),
        forall|j: int|
            pos <= j < spec_digit_end(s, pos) ==> crate::duration::is_digit(#[trigger] s[j]),
    decreases s.len() - pos,
{
    if pos < s.len() && crate::duration::is_digit(s[pos]) {
        lemma_digit_end_facts(s, pos + 1);
    }
}

/// Scan digits into a value; `None` when empty or too large.
fn number_at(s: &[u8], pos: usize) -> (r: Option<(u64, usize)>)
    requires
        pos <= s@.len(),
    ensures
        match r {
            Some(p) => pos < p.1 <= s@.len() && spec_number_at(s@, pos as int) == Some(
                (p.0 as int, p.1 as int),
            ),
            None => spec_number_at(s@, pos as int) is None,
        },
{
    let n = s.len();
    let mut i = pos;
    let mut val: u64 = 0;
    proof {
        assert(s@.subrange(pos as int, pos as int) =~= Seq::<u8>::empty());
        lemma_digit_end_facts(s@, pos as int);
    }
    while i < n && 48 <= s[i] && s[i] <= 57
        invariant
            pos <= i <= n,
            n == s@.len(),
            val as int == crate::duration::dec_value(s@.subrange(pos as int, i as int)),
            spec_digit_end(s@, pos as int) == spec_digit_end(s@, i as int),
            forall|j: int| pos <= j < i ==> crate::duration::is_digit(#[trigger] s@[j]),
        decreases n - i,
    {
        let b = s[i];
        proof {
            assert(s@.subrange(pos as int, i as int + 1).drop_last() =~= s@.subrange(
                pos as int,
                i as int,
            ));
            assert(s@.subrange(pos as int, i as int + 1).last() == s@[i as int]);
        }
        let d = (b - 48) as u64;
        if d > u64::MAX || val > (u64::MAX - d) / 10 {
            proof {
                // The whole digit run's value exceeds the range.
                assert(val * 10 + d > u64::MAX) by (nonlinear_arith)
                    requires
                        0 <= d <= 9,
                        val >= 0,
                        val > (u64::MAX - d) / 10,
                ;
                lemma_digit_end_facts(s@, pos as int);
                let end = spec_digit_end(s@, pos as int);
                assert(end >= i + 1) by {
                    assert(spec_digit_end(s@, i as int) == spec_digit_end(s@, i as int + 1));
                    lemma_digit_end_facts(s@, i as int + 1);
                }
                assert forall|j: int| pos <= j < end implies crate::duration::is_digit(
                    #[trigger] s@[j],
                ) by {}
                crate::duration::lemma_dec_value_grows_full(s@, pos as int, i as int + 1, end);
            }
            return None;
        }
        proof {
            assert(val * 10 + d <= u64::MAX) by (nonlinear_arith)
                requires
                    0 <= d <= u64::MAX,
                    val <= (u64::MAX - d) / 10,
            ;
        }
        val = val * 10 + d;
        i += 1;
    }
    proof {
        assert(spec_digit_end(s@, i as int) == i as int);
    }
    if i == pos {
        return None;
    }
    Some((val, i))
}

/// Scan one FROM item: a regex, a quoted name, a qualified `db..name`, or a
/// bare name.
fn from_item_at(s: &[u8], pos: usize) -> (r: Option<(FromItem, usize)>)
    requires
        pos <= s@.len(),
    ensures
        match r {
            Some(p) => pos < p.1 <= s@.len() && spec_from_item_at(s@, pos as int) == Some(
                (p.0.view(), p.1 as int),
            ),
            None => spec_from_item_at(s@, pos as int) is None,
        },
{
    let n = s.len();
    if pos >= n {
        return None;
    }
    if s[pos] == 47 || s[pos] == 34 {
        // A delimited run: regex or quoted identifier.
        let delim = s[pos];
        let mut i = pos + 1;
        let mut body: Vec<u8> = Vec::new();
        proof {
            assert(body@ =~= Seq::<u8>::empty());
        }
        while i < n
            invariant
                pos < i <= n,
                n == s@.len(),
                delim == s@[pos as int],
                delim == 47 || delim == 34,
                spec_delimited_from(s@, pos as int + 1, delim, Seq::empty())
                    == spec_delimited_from(s@, i as int, delim, body@),
            decreases n - i,
        {
            if s[i] == delim {
                proof {
                    assert(spec_delimited_from(s@, pos as int + 1, delim, Seq::empty()) == Some(
                        (body@, i as int + 1),
                    ));
                }
                if delim == 47 {
                    return Some((FromItem::Regex(body), i + 1));
                }
                proof {
                    assert(s@[pos as int] == 34 && s@[pos as int] != 47);
                }
                return Some((FromItem::Quoted(body), i + 1));
            }
            body.push(s[i]);
            i += 1;
        }
        return None;
    }
    let (name, after) = match ident_at(s, pos) {
        Some(p) => p,
        None => {
            return None;
        },
    };
    // Optional `..name` qualification.
    if n - after >= 2 && s[after] == 46 && s[after + 1] == 46 {
        match ident_at(s, after + 2) {
            Some((name2, after2)) => {
                return Some((FromItem::Qualified(name, name2), after2));
            },
            None => {
                return None;
            },
        }
    }
    Some((FromItem::Name(name), after))
}

/// Scan a comma-separated FROM list from `cur`.
fn from_list_at(s: &[u8], start: usize) -> (r: Result<(Vec<FromItem>, usize), ShowError>)
    requires
        start <= s@.len(),
    ensures
        match r {
            Ok(p) => p.1 <= s@.len() && spec_from_list(s@, start as int, Seq::empty()) == Some(
                (p.0@.map_values(|it: FromItem| it.view()), p.1 as int),
            ),
            Err(e) => spec_from_list(s@, start as int, Seq::empty()) is None && e
                == ShowError::Malformed,
        },
{
    let n = s.len();
    let mut items: Vec<FromItem> = Vec::new();
    let mut cur = start;
    proof {
        assert(items@.map_values(|it: FromItem| it.view()) =~= Seq::<FromItemM>::empty());
    }
    loop
        invariant_except_break
            spec_from_list(s@, start as int, Seq::empty()) == spec_from_list(
                s@,
                cur as int,
                items@.map_values(|it: FromItem| it.view()),
            ),
        invariant
            cur <= n,
            n == s@.len(),
        ensures
            cur <= n,
            spec_from_list(s@, start as int, Seq::empty()) == Some(
                (items@.map_values(|it: FromItem| it.view()), cur as int),
            ),
        decreases n - cur,
    {
        let (item, after) = match from_item_at(s, cur) {
            Some(p) => p,
            None => {
                return Err(ShowError::Malformed);
            },
        };
        let ghost items_before = items@.map_values(|it: FromItem| it.view());
        let ghost item_model = item.view();
        items.push(item);
        proof {
            assert(items@.map_values(|it: FromItem| it.view()) =~= items_before.push(item_model));
        }
        // A comma (with optional spaces) continues the list.
        let look = skip_spaces(s, after);
        if look < n && s[look] == 44 {
            let next = skip_spaces(s, look + 1);
            if next <= cur {
                return Err(ShowError::Malformed);
            }
            cur = next;
        } else {
            cur = after;
            break ;
        }
    }
    Ok((items, cur))
}

/// Skip spaces from `i`.
fn skip_spaces(s: &[u8], i: usize) -> (r: usize)
    requires
        i <= s@.len(),
    ensures
        i <= r <= s@.len(),
        r as int == spec_skip_spaces(s@, i as int),
{
    let n = s.len();
    let mut j = i;
    while j < n && s[j] == 32
        invariant
            i <= j <= n,
            n == s@.len(),
            spec_skip_spaces(s@, i as int) == spec_skip_spaces(s@, j as int),
        decreases n - j,
    {
        j += 1;
    }
    j
}

/// Parse a `SHOW FIELD KEYS` statement, starting from the `FIELD` token,
/// exactly as [`spec_show_field_keys`] reads it: `FIELD KEYS [ON db]
/// [FROM items] [LIMIT n] [OFFSET n]`. Returns the statement and the
/// position of the unparsed remainder; `ExpectedKeys` when `KEYS` does not
/// follow `FIELD`.
pub fn show_field_keys(s: &[u8]) -> (r: Result<(ShowFieldKeysStatement, usize), ShowError>)
    ensures
        match r {
            Ok(p) => p.1 <= s@.len() && spec_show_field_keys(s@) == Ok::<
                (StatementModel, int),
                ShowError,
            >((p.0.model(), p.1 as int)),
            Err(e) => spec_show_field_keys(s@) == Err::<(StatementModel, int), ShowError>(e),
        },
{
    let mut field_kw: Vec<u8> = Vec::new();
    field_kw.push(102);
    field_kw.push(105);
    field_kw.push(101);
    field_kw.push(108);
    field_kw.push(100);
    let mut keys_kw: Vec<u8> = Vec::new();
    keys_kw.push(107);
    keys_kw.push(101);
    keys_kw.push(121);
    keys_kw.push(115);
    let mut on_kw: Vec<u8> = Vec::new();
    on_kw.push(111);
    on_kw.push(110);
    let mut from_kw: Vec<u8> = Vec::new();
    from_kw.push(102);
    from_kw.push(114);
    from_kw.push(111);
    from_kw.push(109);
    let mut limit_kw: Vec<u8> = Vec::new();
    limit_kw.push(108);
    limit_kw.push(105);
    limit_kw.push(109);
    limit_kw.push(105);
    limit_kw.push(116);
    let mut offset_kw: Vec<u8> = Vec::new();
    offset_kw.push(111);
    offset_kw.push(102);
    offset_kw.push(102);
    offset_kw.push(115);
    offset_kw.push(101);
    offset_kw.push(116);
    proof {
        assert(field_kw@ =~= kw_field());
        assert(keys_kw@ =~= kw_keys());
        assert(on_kw@ =~= kw_on());
        assert(from_kw@ =~= kw_from());
        assert(limit_kw@ =~= kw_limit());
        assert(offset_kw@ =~= kw_offset());
    }

    let pos = match keyword_at(s, 0, field_kw.as_slice()) {
        Some(p) => p,
        None => {
            return Err(ShowError::Malformed);
        },
    };
    let pos = match ws1(s, pos) {
        Some(p) => p,
        None => {
            return Err(ShowError::ExpectedKeys);
        },
    };
    let mut pos = match keyword_at(s, pos, keys_kw.as_slice()) {
        Some(p) => p,
        None => {
            return Err(ShowError::ExpectedKeys);
        },
    };
    let ghost p_keys = pos as int;

    let mut database: Option<Vec<u8>> = None;
    let mut from: Option<Vec<FromItem>> = None;
    let mut limit: Option<u64> = None;
    let mut offset: Option<u64> = None;

    // ON clause.
    match ws1(s, pos) {
        Some(p1) => match keyword_at(s, p1, on_kw.as_slice()) {
            Some(p2) => match ws1(s, p2) {
                Some(p3) => match ident_at(s, p3) {
                    Some((db, p4)) => {
                        database = Some(db);
                        pos = p4;
                    },
                    None => {
                        return Err(ShowError::Malformed);
                    },
                },
                None => {
                    return Err(ShowError::Malformed);
                },
            },
            None => {},
        },
        None => {},
    }
    let ghost on_model = match &database {
        Some(db) => Some(db@),
        None => None::<Seq<u8>>,
    };
    proof {
        assert(spec_on_clause(s@, p_keys) == Ok::<(Option<Seq<u8>>, int), ShowError>(
            (on_model, pos as int),
        ));
    }
    let ghost p_on = pos as int;

    // FROM clause.
    match ws1(s, pos) {
        Some(p1) => match keyword_at(s, p1, from_kw.as_slice()) {
            Some(p2) => match ws1(s, p2) {
                Some(p3) => match from_list_at(s, p3) {
                    Ok((items, cur)) => {
                        from = Some(items);
                        pos = cur;
                    },
                    Err(e) => {
                        return Err(e);
                    },
                },
                None => {
                    return Err(ShowError::Malformed);
                },
            },
            None => {},
        },
        None => {},
    }
    let ghost from_model = match &from {
        Some(items) => Some(items@.map_values(|it: FromItem| it.view())),
        None => None::<Seq<FromItemM>>,
    };
    proof {
        assert(spec_from_clause(s@, p_on) == Ok::<(Option<Seq<FromItemM>>, int), ShowError>(
            (from_model, pos as int),
        ));
    }
    let ghost p_from = pos as int;

    // LIMIT clause.
    match ws1(s, pos) {
        Some(p1) => match keyword_at(s, p1, limit_kw.as_slice()) {
            Some(p2) => match ws1(s, p2) {
                Some(p3) => match number_at(s, p3) {
                    Some((v, p4)) => {
                        limit = Some(v);
                        pos = p4;
                    },
                    None => {
                        return Err(ShowError::Malformed);
                    },
                },
                None => {
                    return Err(ShowError::Malformed);
                },
            },
            None => {},
        },
        None => {},
    }
    let ghost limit_model = match limit {
        Some(v) => Some(v as int),
        None => None::<int>,
    };
    proof {
        assert(spec_num_clause(s@, p_from, kw_limit()) == Ok::<(Option<int>, int), ShowError>(
            (limit_model, pos as int),
        ));
    }
    let ghost p_limit = pos as int;

    // OFFSET clause.
    match ws1(s, pos) {
        Some(p1) => match keyword_at(s, p1, offset_kw.as_slice()) {
            Some(p2) => match ws1(s, p2) {
                Some(p3) => match number_at(s, p3) {
                    Some((v, p4)) => {
                        offset = Some(v);
                        pos = p4;
                    },
                    None => {
                        return Err(ShowError::Malformed);
                    },
                },
                None => {
                    return Err(ShowError::Malformed);
                },
            },
            None => {},
        },
        None => {},
    }
    let ghost offset_model = match offset {
        Some(v) => Some(v as int),
        None => None::<int>,
    };
    proof {
        assert(spec_num_clause(s@, p_limit, kw_offset()) == Ok::<(Option<int>, int), ShowError>(
            (offset_model, pos as int),
        ));
    }

    Ok((ShowFieldKeysStatement { database, from, limit, offset }, pos))
}

} // verus!

verus! {

// ---------------------------------------------------------------------------
// The statement grammar
// ---------------------------------------------------------------------------

/// A letter byte folded to lower case.
pub open spec fn spec_lower(b: u8) -> u8 {
    if 65 <= b <= 90 {
        (b + 32) as u8
    } else {
        b
    }
}

/// Whether an identifier byte: letters, digits, underscores.
pub open spec fn spec_is_ident(b: u8) -> bool {
    (48 <= b <= 57) || (65 <= b <= 90) || (97 <= b <= 122) || b == 95
}

/// The position after the case-insensitive keyword `w` at `pos`, when it
/// stands there and ends at a word boundary.
pub open spec fn spec_keyword_at(s: Seq<u8>, pos: int, w: Seq<u8>) -> Option<int> {
    if pos < 0 || w.len() == 0 || s.len() - pos < w.len() {
        None
    } else if (forall|i: int|
        0 <= i < w.len() ==> spec_lower(#[trigger] s[pos + i]) == spec_lower(w[i])) && (pos
        + w.len() == s.len() || !spec_is_ident(s[pos + w.len()])) {
        Some(pos + w.len())
    } else {
        None
    }
}

/// The first non-space position at or after `i`.
pub open spec fn spec_skip_spaces(s: Seq<u8>, i: int) -> int
    decreases s.len() - i,
{
    if i < 0 || i >= s.len() || s[i] != 32 {
        i
    } else {
        spec_skip_spaces(s, i + 1)
    }
}

/// The position after at least one space at `pos`.
pub open spec fn spec_ws1(s: Seq<u8>, pos: int) -> Option<int> {
    if 0 <= pos < s.len() && s[pos] == 32 {
        Some(spec_skip_spaces(s, pos + 1))
    } else {
        None
    }
}

/// The end of the identifier run at `pos`.
pub open spec fn spec_ident_end(s: Seq<u8>, pos: int) -> int
    decreases s.len() - pos,
{
    if pos < 0 || pos >= s.len() || !spec_is_ident(s[pos]) {
        pos
    } else {
        spec_ident_end(s, pos + 1)
    }
}

/// The identifier at `pos`, when non-empty.
pub open spec fn spec_ident_at(s: Seq<u8>, pos: int) -> Option<(Seq<u8>, int)> {
    let end = spec_ident_end(s, pos);
    if end == pos {
        None
    } else {
        Some((s.subrange(pos, end), end))
    }
}

/// The end of the digit run at `pos`.
pub open spec fn spec_digit_end(s: Seq<u8>, pos: int) -> int
    decreases s.len() - pos,
{
    if pos < 0 || pos >= s.len() || !crate::duration::is_digit(s[pos]) {
        pos
    } else {
        spec_digit_end(s, pos + 1)
    }
}

/// The number at `pos`, when non-empty and within the unsigned 64-bit range.
pub open spec fn spec_number_at(s: Seq<u8>, pos: int) -> Option<(int, int)> {
    let end = spec_digit_end(s, pos);
    if end == pos {
        None
    } else {
        let v = crate::duration::dec_value(s.subrange(pos, end));
        if v > u64::MAX {
            None
        } else {
            Some((v, end))
        }
    }
}

/// The body and end of a delimited run (a regex or quoted name) opening at
/// `pos`, scanned from `i`.
pub open spec fn spec_delimited_from(s: Seq<u8>, i: int, delim: u8, acc: Seq<u8>) -> Option<
    (Seq<u8>, int),
>
    decreases s.len() - i,
{
    if i < 0 || i >= s.len() {
        None
    } else if s[i] == delim {
        Some((acc, i + 1))
    } else {
        spec_delimited_from(s, i + 1, delim, acc.push(s[i]))
    }
}

/// The FROM item at `pos`: a regex, a quoted name, a qualified `db..name`,
/// or a bare name.
pub open spec fn spec_from_item_at(s: Seq<u8>, pos: int) -> Option<(FromItemM, int)> {
    if pos < 0 || pos >= s.len() {
        None
    } else if s[pos] == 47 {
        match spec_delimited_from(s, pos + 1, 47, Seq::empty()) {
            Some(p) => Some((FromItemM::Regex(p.0), p.1)),
            None => None,
        }
    } else if s[pos] == 34 {
        match spec_delimited_from(s, pos + 1, 34, Seq::empty()) {
            Some(p) => Some((FromItemM::Quoted(p.0), p.1)),
            None => None,
        }
    } else {
        match spec_ident_at(s, pos) {
            None => None,
            Some(p) => {
                let name = p.0;
                let after = p.1;
                if s.len() - after >= 2 && s[after] == 46 && s[after + 1] == 46 {
                    match spec_ident_at(s, after + 2) {
                        Some(q) => Some((FromItemM::Qualified(name, q.0), q.1)),
                        None => None,
                    }
                } else {
                    Some((FromItemM::Name(name), after))
                }
            },
        }
    }
}

/// The FROM list from `cur` on: items separated by commas with optional
/// spaces; the list ends at the first item not followed by a comma.
pub open spec fn spec_from_list(s: Seq<u8>, cur: int, acc: Seq<FromItemM>) -> Option<
    (Seq<FromItemM>, int),
>
    decreases s.len() - cur,
{
    if cur < 0 {
        None
    } else {
        match spec_from_item_at(s, cur) {
            None => None,
            Some(p) => {
                let item = p.0;
                let after = p.1;
                if after <= cur || after > s.len() {
                    None
                } else {
                    let look = spec_skip_spaces(s, after);
                    if 0 <= look < s.len() && s[look] == 44 {
                        let next = spec_skip_spaces(s, look + 1);
                        if next <= cur || next > s.len() {
                            None
                        } else {
                            spec_from_list(s, next, acc.push(item))
                        }
                    } else {
                        Some((acc.push(item), after))
                    }
                }
            },
        }
    }
}

/// The keyword `field`.
pub open spec fn kw_field() -> Seq<u8> {
    seq![102u8, 105u8, 101u8, 108u8, 100u8]
}

/// The keyword `keys`.
pub open spec fn kw_keys() -> Seq<u8> {
    seq![107u8, 101u8, 121u8, 115u8]
}

/// The keyword `on`.
pub open spec fn kw_on() -> Seq<u8> {
    seq![111u8, 110u8]
}

/// The keyword `from`.
pub open spec fn kw_from() -> Seq<u8> {
    seq![102u8, 114u8, 111u8, 109u8]
}

/// The keyword `limit`.
pub open spec fn kw_limit() -> Seq<u8> {
    seq![108u8, 105u8, 109u8, 105u8, 116u8]
}

/// The keyword `offset`.
pub open spec fn kw_offset() -> Seq<u8> {
    seq![111u8, 102u8, 102u8, 115u8, 101u8, 116u8]
}

/// One optional clause: a space, the keyword, a space, and a value parsed by
/// `parse`; absent when the keyword does not follow, in which case the
/// position is unchanged.
pub open spec fn spec_on_clause(s: Seq<u8>, pos: int) -> Result<(Option<Seq<u8>>, int), ShowError> {
    match spec_ws1(s, pos) {
        None => Ok((None, pos)),
        Some(p1) => match spec_keyword_at(s, p1, kw_on()) {
            None => Ok((None, pos)),
            Some(p2) => match spec_ws1(s, p2) {
                None => Err(ShowError::Malformed),
                Some(p3) => match spec_ident_at(s, p3) {
                    None => Err(ShowError::Malformed),
                    Some(p) => Ok((Some(p.0), p.1)),
                },
            },
        },
    }
}

/// The optional FROM clause.
pub open spec fn spec_from_clause(s: Seq<u8>, pos: int) -> Result<
    (Option<Seq<FromItemM>>, int),
    ShowError,
> {
    match spec_ws1(s, pos) {
        None => Ok((None, pos)),
        Some(p1) => match spec_keyword_at(s, p1, kw_from()) {
            None => Ok((None, pos)),
            Some(p2) => match spec_ws1(s, p2) {
                None => Err(ShowError::Malformed),
                Some(p3) => match spec_from_list(s, p3, Seq::empty()) {
                    None => Err(ShowError::Malformed),
                    Some(p) => Ok((Some(p.0), p.1)),
                },
            },
        },
    }
}

/// An optional numeric clause (LIMIT or OFFSET).
pub open spec fn spec_num_clause(s: Seq<u8>, pos: int, kw: Seq<u8>) -> Result<
    (Option<int>, int),
    ShowError,
> {
    match spec_ws1(s, pos) {
        None => Ok((None, pos)),
        Some(p1) => match spec_keyword_at(s, p1, kw) {
            None => Ok((None, pos)),
            Some(p2) => match spec_ws1(s, p2) {
                None => Err(ShowError::Malformed),
                Some(p3) => match spec_number_at(s, p3) {
                    None => Err(ShowError::Malformed),
                    Some(p) => Ok((Some(p.0), p.1)),
                },
            },
        },
    }
}

/// The whole statement, from the `FIELD` token: `FIELD KEYS [ON db]
/// [FROM items] [LIMIT n] [OFFSET m]`, with `ExpectedKeys` when `KEYS` does
/// not follow `FIELD`.
pub open spec fn spec_show_field_keys(s: Seq<u8>) -> Result<(StatementModel, int), ShowError> {
    match spec_keyword_at(s, 0, kw_field()) {
        None => Err(ShowError::Malformed),
        Some(p0) => match spec_ws1(s, p0) {
            None => Err(ShowError::ExpectedKeys),
            Some(p1) => match spec_keyword_at(s, p1, kw_keys()) {
                None => Err(ShowError::ExpectedKeys),
                Some(p2) => match spec_on_clause(s, p2) {
                    Err(e) => Err(e),
                    Ok(on) => match spec_from_clause(s, on.1) {
                        Err(e) => Err(e),
                        Ok(fr) => match spec_num_clause(s, fr.1, kw_limit()) {
                            Err(e) => Err(e),
                            Ok(li) => match spec_num_clause(s, li.1, kw_offset()) {
                                Err(e) => Err(e),
                                Ok(of) => Ok(
                                    (
                                        StatementModel {
                                            database: on.0,
                                            from: fr.0,
                                            limit: li.0,
                                            offset: of.0,
                                        },
                                        of.1,
                                    ),
                                ),
                            },
                        },
                    },
                },
            },
        },
    }
}

} // verus!
