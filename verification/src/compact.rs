//! The compaction driver: merge a partition's immutable snapshots into one
//! wide batch, sort its rows by the sort key, and deduplicate rows that share
//! a primary key, keeping the latest write.
//!
//! The output is a single non-empty record batch whenever the input holds any
//! rows: compaction never emits an empty batch.

use vstd::prelude::*;
use vstd::multiset::Multiset;
use vstd::relations::{sorted_by, total_ordering};
use vstd::seq_lib::lemma_sorted_unique;

use crate::batch::{
    BatchError, BatchModel, ColModel, ColType, FieldValue, MutableBatch, RecordBatch, Val,
    clone_bytes, col_index, col_of, compatible, extended, fresh_cols, has_col,
    lemma_extended_cols, lemma_extended_wf, widened_col,
};
use crate::bytes::{bytes_eq, bytes_le, lex_le, lemma_lex_le_antisymmetric, lemma_lex_le_total, lemma_lex_le_transitive};
use crate::sortkey::batch_models;

verus! {

// ---------------------------------------------------------------------------
// Sort-key cells and the row order
// ---------------------------------------------------------------------------

/// One cell of a row restricted to the sort key: a null, a tag value, or a
/// timestamp.
pub enum KeyCell {
    /// The row has no value in this column.
    Null,
    /// A tag value.
    Tag(Vec<u8>),
    /// A timestamp.
    Time(i64),
}

/// The mathematical value of a key cell.
pub enum KeyCellM {
    /// No value.
    Null,
    /// A tag value.
    Tag(Seq<u8>),
    /// A timestamp.
    Time(int),
}

impl KeyCell {
    /// The model of this cell.
    pub open spec fn view(&self) -> KeyCellM {
        match self {
            KeyCell::Null => KeyCellM::Null,
            KeyCell::Tag(v) => KeyCellM::Tag(v@),
            KeyCell::Time(t) => KeyCellM::Time(*t as int),
        }
    }
}

/// The key cell a column's cell contributes: nulls sort first; a tag sorts by
/// its bytes; a timestamp by its value.
pub open spec fn cell_key(v: Option<Val>) -> KeyCellM {
    match v {
        None => KeyCellM::Null,
        Some(Val::Str(s)) => KeyCellM::Tag(s),
        Some(Val::I64(t)) => KeyCellM::Time(t as int),
        Some(_) => KeyCellM::Null,
    }
}

/// Order on key cells: nulls first, then tag values by bytes, then
/// timestamps by value.
pub open spec fn cell_leq(a: KeyCellM, b: KeyCellM) -> bool {
    match (a, b) {
        (KeyCellM::Null, _) => true,
        (KeyCellM::Tag(_), KeyCellM::Null) => false,
        (KeyCellM::Tag(x), KeyCellM::Tag(y)) => lex_le(x, y),
        (KeyCellM::Tag(_), KeyCellM::Time(_)) => true,
        (KeyCellM::Time(_), KeyCellM::Null) => false,
        (KeyCellM::Time(_), KeyCellM::Tag(_)) => false,
        (KeyCellM::Time(x), KeyCellM::Time(y)) => x <= y,
    }
}

/// Lexicographic order over equal-length cell tuples.
pub open spec fn cells_leq(a: Seq<KeyCellM>, b: Seq<KeyCellM>) -> bool
    decreases a.len(),
{
    if a.len() == 0 || b.len() == 0 {
        true
    } else if a[0] == b[0] {
        cells_leq(a.drop_first(), b.drop_first())
    } else {
        cell_leq(a[0], b[0]) && !cell_leq(b[0], a[0])
    }
}

/// A sorted row handle: the row's sort-key cells and its original position.
/// Rows order by their cells, ties broken by position, so the order is total
/// and the sort is stable.
pub open spec fn row_leq(a: (Seq<KeyCellM>, nat), b: (Seq<KeyCellM>, nat)) -> bool {
    if a.0 == b.0 {
        a.1 <= b.1
    } else {
        cells_leq(a.0, b.0)
    }
}

/// The row order as a relation value.
pub open spec fn row_order() -> spec_fn((Seq<KeyCellM>, nat), (Seq<KeyCellM>, nat)) -> bool {
    |a: (Seq<KeyCellM>, nat), b: (Seq<KeyCellM>, nat)| row_leq(a, b)
}

/// Cell order is total (in the weak sense), antisymmetric and transitive.
proof fn lemma_cell_leq_props()
    ensures
        forall|a: KeyCellM, b: KeyCellM| #[trigger] cell_leq(a, b) || #[trigger] cell_leq(b, a),
        forall|a: KeyCellM, b: KeyCellM|
            #[trigger] cell_leq(a, b) && #[trigger] cell_leq(b, a) ==> a == b,
        forall|a: KeyCellM, b: KeyCellM, c: KeyCellM|
            #[trigger] cell_leq(a, b) && #[trigger] cell_leq(b, c) ==> cell_leq(a, c),
{
    assert forall|a: KeyCellM, b: KeyCellM| #[trigger] cell_leq(a, b) || #[trigger] cell_leq(
        b,
        a,
    ) by {
        if let (KeyCellM::Tag(x), KeyCellM::Tag(y)) = (a, b) {
            lemma_lex_le_total(x, y);
        }
    }
    assert forall|a: KeyCellM, b: KeyCellM|
        #[trigger] cell_leq(a, b) && #[trigger] cell_leq(b, a) implies a == b by {
        if let (KeyCellM::Tag(x), KeyCellM::Tag(y)) = (a, b) {
            lemma_lex_le_antisymmetric(x, y);
        }
    }
    assert forall|a: KeyCellM, b: KeyCellM, c: KeyCellM|
        #[trigger] cell_leq(a, b) && #[trigger] cell_leq(b, c) implies cell_leq(a, c) by {
        if let (KeyCellM::Tag(x), KeyCellM::Tag(y)) = (a, b) {
            if let KeyCellM::Tag(z) = c {
                lemma_lex_le_transitive(x, y, z);
            }
        }
    }
}

/// Tuple order is total, antisymmetric and transitive.
proof fn lemma_cells_leq_total(a: Seq<KeyCellM>, b: Seq<KeyCellM>)
    ensures
        cells_leq(a, b) || cells_leq(b, a),
    decreases a.len(),
{
    lemma_cell_leq_props();
    if a.len() > 0 && b.len() > 0 && a[0] == b[0] {
        lemma_cells_leq_total(a.drop_first(), b.drop_first());
    }
}

/// Mutually ordered equal-length tuples are equal.
proof fn lemma_cells_leq_antisymmetric(a: Seq<KeyCellM>, b: Seq<KeyCellM>)
    requires
        a.len() == b.len(),
        cells_leq(a, b),
        cells_leq(b, a),
    ensures
        a =~= b,
    decreases a.len(),
{
    lemma_cell_leq_props();
    if a.len() > 0 {
        if a[0] == b[0] {
            lemma_cells_leq_antisymmetric(a.drop_first(), b.drop_first());
            assert(a =~= seq![a[0]] + a.drop_first());
            assert(b =~= seq![b[0]] + b.drop_first());
        }
    }
}

/// Tuple order is transitive over equal-length tuples.
proof fn lemma_cells_leq_transitive(a: Seq<KeyCellM>, b: Seq<KeyCellM>, c: Seq<KeyCellM>)
    requires
        a.len() == b.len(),
        b.len() == c.len(),
        cells_leq(a, b),
        cells_leq(b, c),
    ensures
        cells_leq(a, c),
    decreases a.len(),
{
    lemma_cell_leq_props();
    if a.len() > 0 {
        if a[0] == b[0] && b[0] == c[0] {
            lemma_cells_leq_transitive(a.drop_first(), b.drop_first(), c.drop_first());
        } else if a[0] == b[0] {
            // a[0] == b[0] < c[0]
        } else if b[0] == c[0] {
            // a[0] < b[0] == c[0]
        } else {
            // a[0] < b[0] < c[0]
            if a[0] == c[0] {
                assert(cell_leq(b[0], c[0]) ==> cell_leq(b[0], a[0]));
                assert(false);
            }
        }
    }
}

/// The row order is a total order over handles with equal-length cell tuples.
proof fn lemma_row_order_total(len: nat)
    ensures
        forall|x: (Seq<KeyCellM>, nat), y: (Seq<KeyCellM>, nat)|
            x.0.len() == len && y.0.len() == len ==> (#[trigger] row_leq(x, y) || #[trigger] row_leq(
                y,
                x,
            )),
        forall|x: (Seq<KeyCellM>, nat), y: (Seq<KeyCellM>, nat)|
            x.0.len() == len && y.0.len() == len && #[trigger] row_leq(x, y) && #[trigger] row_leq(
                y,
                x,
            ) ==> x == y,
        forall|x: (Seq<KeyCellM>, nat), y: (Seq<KeyCellM>, nat), z: (Seq<KeyCellM>, nat)|
            x.0.len() == len && y.0.len() == len && z.0.len() == len && #[trigger] row_leq(x, y)
                && #[trigger] row_leq(y, z) ==> row_leq(x, z),
{
    assert forall|x: (Seq<KeyCellM>, nat), y: (Seq<KeyCellM>, nat)|
        x.0.len() == len && y.0.len() == len implies (#[trigger] row_leq(x, y)
        || #[trigger] row_leq(y, x)) by {
        lemma_cells_leq_total(x.0, y.0);
    }
    assert forall|x: (Seq<KeyCellM>, nat), y: (Seq<KeyCellM>, nat)|
        x.0.len() == len && y.0.len() == len && #[trigger] row_leq(x, y) && #[trigger] row_leq(
        y,
        x,
    ) implies x == y by {
        if x.0 != y.0 {
            lemma_cells_leq_antisymmetric(x.0, y.0);
        }
    }
    assert forall|x: (Seq<KeyCellM>, nat), y: (Seq<KeyCellM>, nat), z: (Seq<KeyCellM>, nat)|
        x.0.len() == len && y.0.len() == len && z.0.len() == len && #[trigger] row_leq(x, y)
        && #[trigger] row_leq(y, z) implies row_leq(x, z) by {
        lemma_cells_leq_total(x.0, y.0);
        lemma_cells_leq_total(y.0, z.0);
        lemma_cells_leq_total(x.0, z.0);
        if x.0 != y.0 && y.0 != z.0 {
            lemma_cells_leq_transitive(x.0, y.0, z.0);
            if x.0 == z.0 {
                lemma_cells_leq_antisymmetric(x.0, y.0);
            }
        }
    }
}

// ---------------------------------------------------------------------------
// Merging the snapshots of one partition
// ---------------------------------------------------------------------------

/// The empty batch model.
pub open spec fn empty_batch() -> BatchModel {
    BatchModel { rows: 0, cols: Seq::empty() }
}

/// The schema-union concatenation of a list of batches, folded in order.
/// `None` when any pair of columns conflicts.
pub open spec fn merged_model(bs: Seq<BatchModel>) -> Option<BatchModel>
    decreases bs.len(),
{
    if bs.len() == 0 {
        Some(empty_batch())
    } else {
        match merged_model(bs.drop_last()) {
            None => None,
            Some(m) => extended(m, bs.last()),
        }
    }
}

/// The total row count of a list of batches.
pub open spec fn total_rows(bs: Seq<BatchModel>) -> nat
    decreases bs.len(),
{
    if bs.len() == 0 {
        0
    } else {
        total_rows(bs.drop_last()) + bs.last().rows
    }
}

/// A successful merge holds every input row: its row count is the total.
proof fn lemma_merged_rows(bs: Seq<BatchModel>)
    ensures
        merged_model(bs) matches Some(m) ==> m.rows == total_rows(bs),
    decreases bs.len(),
{
    if bs.len() > 0 {
        lemma_merged_rows(bs.drop_last());
    }
}

/// Merge a list of snapshots into one wide batch: the column sets union,
/// missing columns become nulls, and rows keep their order, earlier snapshots
/// first. Fails if two columns of one name carry different types.
pub fn merge_batches(batches: &Vec<RecordBatch>) -> (r: Result<MutableBatch, BatchError>)
    requires
        forall|i: int| 0 <= i < batches@.len() ==> (#[trigger] batches@[i]).wf(),
        total_rows(batch_models(batches@)) <= usize::MAX,
    ensures
        match r {
            Ok(m) => m.wf() && merged_model(batch_models(batches@)) == Some(m.model()),
            Err(_) => merged_model(batch_models(batches@)) is None,
        },
{
    let ghost ms = batch_models(batches@);
    let mut acc = MutableBatch::new();
    let nb = batches.len();
    proof {
        assert(acc.model().cols =~= Seq::<ColModel>::empty());
        assert(acc.model() == empty_batch());
        assert(merged_model(ms.take(0)) == Some(empty_batch()));
        lemma_total_rows_monotonic(ms, 0);
    }
    let mut bi: usize = 0;
    while bi < nb
        invariant
            forall|i: int| 0 <= i < batches@.len() ==> (#[trigger] batches@[i]).wf(),
            ms == batch_models(batches@),
            total_rows(ms) <= usize::MAX,
            0 <= bi <= nb,
            nb == ms.len(),
            acc.wf(),
            merged_model(ms.take(bi as int)) == Some(acc.model()),
            acc.model().rows == total_rows(ms.take(bi as int)),
        decreases nb - bi,
    {
        let b = batches[bi].data();
        proof {
            assert(ms.take(bi as int + 1).drop_last() =~= ms.take(bi as int));
            assert(ms.take(bi as int + 1).last() == ms[bi as int]);
            lemma_merged_rows(ms.take(bi as int));
            lemma_total_rows_monotonic(ms, bi as int + 1);
        }
        match acc.extend_from(b) {
            Ok(()) => {
                proof {
                    lemma_merged_rows(ms.take(bi as int + 1));
                }
            },
            Err(e) => {
                proof {
                    assert(merged_model(ms.take(bi as int + 1)) is None);
                    lemma_merged_none_persists(ms, bi as int + 1);
                }
                return Err(e);
            },
        }
        bi += 1;
    }
    proof {
        assert(ms.take(nb as int) =~= ms);
    }
    Ok(acc)
}

/// A prefix's total row count is at most the whole list's.
proof fn lemma_total_rows_monotonic(bs: Seq<BatchModel>, i: int)
    requires
        0 <= i <= bs.len(),
    ensures
        total_rows(bs.take(i)) <= total_rows(bs),
    decreases bs.len() - i,
{
    if i == bs.len() {
        assert(bs.take(i) =~= bs);
    } else {
        lemma_total_rows_monotonic(bs, i + 1);
        assert(bs.take(i + 1).drop_last() =~= bs.take(i));
        assert(bs.take(i + 1).last() == bs[i]);
    }
}

/// Once a prefix fails to merge, the whole list fails.
proof fn lemma_merged_none_persists(bs: Seq<BatchModel>, i: int)
    requires
        0 <= i <= bs.len(),
        merged_model(bs.take(i)) is None,
    ensures
        merged_model(bs) is None,
    decreases bs.len() - i,
{
    if i == bs.len() {
        assert(bs.take(i) =~= bs);
    } else {
        assert(bs.take(i + 1).drop_last() =~= bs.take(i));
        lemma_merged_none_persists(bs, i + 1);
    }
}

} // verus!

verus! {

// ---------------------------------------------------------------------------
// Extracting sort-key cells from rows
// ---------------------------------------------------------------------------

/// The sort-key cells of row `r`: one key cell per sort-key column, in key
/// order.
pub open spec fn row_cells(m: BatchModel, key: Seq<Seq<u8>>, r: int) -> Seq<KeyCellM> {
    Seq::new(key.len(), |i: int| cell_key(col_of(m.cols, key[i]).vals[r]))
}

/// The model of an exec cell tuple.
pub open spec fn cells_model(v: Seq<KeyCell>) -> Seq<KeyCellM> {
    v.map_values(|c: KeyCell| c.view())
}

/// The model of a row handle.
pub open spec fn handle_model(p: (Vec<KeyCell>, usize)) -> (Seq<KeyCellM>, nat) {
    (cells_model(p.0@), p.1 as nat)
}

/// The models of a list of row handles.
pub open spec fn handle_models(v: Seq<(Vec<KeyCell>, usize)>) -> Seq<(Seq<KeyCellM>, nat)> {
    v.map_values(|p: (Vec<KeyCell>, usize)| handle_model(p))
}

/// Extract the sort-key cells of row `r`.
fn extract_row_cells(b: &MutableBatch, key: &Vec<Vec<u8>>, r: usize) -> (out: Vec<KeyCell>)
    requires
        b.wf(),
        r < b.model().rows,
        forall|i: int| 0 <= i < key@.len() ==> has_col(b.model().cols, (#[trigger] key@[i])@),
    ensures
        cells_model(out@) == row_cells(b.model(), crate::sortkey::names_model(key@), r as int),
{
    let ghost target = row_cells(b.model(), crate::sortkey::names_model(key@), r as int);
    let nk = key.len();
    let mut out: Vec<KeyCell> = Vec::new();
    proof {
        assert(cells_model(out@) =~= target.take(0));
    }
    let mut i: usize = 0;
    while i < nk
        invariant
            b.wf(),
            r < b.model().rows,
            forall|i2: int| 0 <= i2 < key@.len() ==> has_col(b.model().cols, (#[trigger] key@[i2])@),
            target == row_cells(b.model(), crate::sortkey::names_model(key@), r as int),
            0 <= i <= nk,
            nk == key@.len(),
            cells_model(out@) == target.take(i as int),
        decreases nk - i,
    {
        let ghost before = cells_model(out@);
        let ci = match b.find_column(key[i].as_slice()) {
            Some(ci) => ci,
            None => vstd::pervasive::unreached::<usize>(),
        };
        proof {
            assert(col_of(b.model().cols, key@[i as int]@) == b.model().cols[ci as int]);
        }
        let cell = b.get_cell(ci, r);
        let kc = match cell {
            None => KeyCell::Null,
            Some(FieldValue::Str(v)) => KeyCell::Tag(v),
            Some(FieldValue::I64(t)) => KeyCell::Time(t),
            Some(_) => KeyCell::Null,
        };
        proof {
            assert(kc.view() == cell_key(col_of(b.model().cols, key@[i as int]@).vals[r as int]));
            assert(target[i as int] == kc.view());
        }
        out.push(kc);
        proof {
            assert(cells_model(out@) =~= before.push(kc.view()));
            assert(target.take(i as int + 1) =~= target.take(i as int).push(target[i as int]));
        }
        i += 1;
    }
    proof {
        assert(target.take(nk as int) =~= target);
    }
    out
}

/// Whether two key cells are equal.
fn cell_eq_exec(a: &KeyCell, b: &KeyCell) -> (r: bool)
    ensures
        r == (a.view() == b.view()),
{
    match (a, b) {
        (KeyCell::Null, KeyCell::Null) => true,
        (KeyCell::Tag(x), KeyCell::Tag(y)) => bytes_eq(x.as_slice(), y.as_slice()),
        (KeyCell::Time(x), KeyCell::Time(y)) => x == y,
        _ => false,
    }
}

/// Whether `a` precedes `b` (or equals it) in the cell order.
fn cell_le_exec(a: &KeyCell, b: &KeyCell) -> (r: bool)
    ensures
        r == cell_leq(a.view(), b.view()),
{
    match (a, b) {
        (KeyCell::Null, _) => true,
        (KeyCell::Tag(_), KeyCell::Null) => false,
        (KeyCell::Tag(x), KeyCell::Tag(y)) => bytes_le(x.as_slice(), y.as_slice()),
        (KeyCell::Tag(_), KeyCell::Time(_)) => true,
        (KeyCell::Time(_), KeyCell::Null) => false,
        (KeyCell::Time(_), KeyCell::Tag(_)) => false,
        (KeyCell::Time(x), KeyCell::Time(y)) => x <= y,
    }
}

/// Whether two equal-length cell tuples are equal.
fn cells_eq_exec(a: &Vec<KeyCell>, b: &Vec<KeyCell>) -> (r: bool)
    requires
        a@.len() == b@.len(),
    ensures
        r == (cells_model(a@) == cells_model(b@)),
{
    let n = a.len();
    let mut i: usize = 0;
    while i < n
        invariant
            0 <= i <= n,
            n == a@.len(),
            n == b@.len(),
            forall|j: int| 0 <= j < i ==> cells_model(a@)[j] == cells_model(b@)[j],
        decreases n - i,
    {
        if !cell_eq_exec(&a[i], &b[i]) {
            proof {
                assert(cells_model(a@)[i as int] != cells_model(b@)[i as int]);
            }
            return false;
        }
        proof {
            assert(cells_model(a@)[i as int] == cells_model(b@)[i as int]);
        }
        i += 1;
    }
    proof {
        assert(cells_model(a@) =~= cells_model(b@));
    }
    true
}

/// Whether `a` precedes `b` (or equals it) in the tuple order.
fn cells_le_exec(a: &Vec<KeyCell>, b: &Vec<KeyCell>) -> (r: bool)
    requires
        a@.len() == b@.len(),
    ensures
        r == cells_leq(cells_model(a@), cells_model(b@)),
{
    let n = a.len();
    let mut i: usize = 0;
    proof {
        assert(cells_model(a@).skip(0) =~= cells_model(a@));
        assert(cells_model(b@).skip(0) =~= cells_model(b@));
    }
    while i < n
        invariant
            0 <= i <= n,
            n == a@.len(),
            n == b@.len(),
            cells_leq(cells_model(a@), cells_model(b@)) == cells_leq(
                cells_model(a@).skip(i as int),
                cells_model(b@).skip(i as int),
            ),
        decreases n - i,
    {
        let ghost am = cells_model(a@);
        let ghost bm = cells_model(b@);
        proof {
            assert(am.skip(i as int)[0] == am[i as int]);
            assert(bm.skip(i as int)[0] == bm[i as int]);
            assert(am.skip(i as int).drop_first() =~= am.skip(i as int + 1));
            assert(bm.skip(i as int).drop_first() =~= bm.skip(i as int + 1));
        }
        if !cell_eq_exec(&a[i], &b[i]) {
            let le = cell_le_exec(&a[i], &b[i]);
            let ge = cell_le_exec(&b[i], &a[i]);
            proof {
                assert(cells_leq(am.skip(i as int), bm.skip(i as int)) == (cell_leq(
                    am[i as int],
                    bm[i as int],
                ) && !cell_leq(bm[i as int], am[i as int])));
            }
            return le && !ge;
        }
        i += 1;
    }
    proof {
        assert(cells_model(a@).skip(n as int).len() == 0);
    }
    true
}

/// Whether handle `a` precedes handle `b` (or equals it) in the row order.
fn row_le_exec(a: &(Vec<KeyCell>, usize), b: &(Vec<KeyCell>, usize)) -> (r: bool)
    requires
        a.0@.len() == b.0@.len(),
    ensures
        r == row_leq(handle_model(*a), handle_model(*b)),
{
    if cells_eq_exec(&a.0, &b.0) {
        a.1 <= b.1
    } else {
        cells_le_exec(&a.0, &b.0)
    }
}

} // verus!

verus! {

/// Insert one row handle into a sorted list, keeping it sorted. All handles
/// carry `len` cells.
fn row_sorted_insert(out: &mut Vec<(Vec<KeyCell>, usize)>, x: (Vec<KeyCell>, usize), Ghost(len): Ghost<nat>)
    requires
        sorted_by(handle_models(old(out)@), row_order()),
        forall|k: int| 0 <= k < old(out)@.len() ==> (#[trigger] old(out)@[k]).0@.len() == len,
        x.0@.len() == len,
    ensures
        sorted_by(handle_models(final(out)@), row_order()),
        forall|k: int| 0 <= k < final(out)@.len() ==> (#[trigger] final(out)@[k]).0@.len() == len,
        handle_models(final(out)@).to_multiset() == handle_models(old(out)@).to_multiset().insert(
            handle_model(x),
        ),
{
    proof {
        lemma_row_order_total(len);
    }
    let ghost xm = handle_model(x);
    let n = out.len();
    let mut p: usize = n;
    let mut j: usize = 0;
    while j < n
        invariant
            0 <= j <= n,
            p <= n,
            n == out@.len(),
            x.0@.len() == len,
            xm == handle_model(x),
            forall|k: int| 0 <= k < out@.len() ==> (#[trigger] out@[k]).0@.len() == len,
            p == n ==> forall|k: int|
                0 <= k < j ==> row_leq((#[trigger] handle_models(out@)[k]), xm),
            p < n ==> !row_leq(handle_models(out@)[p as int], xm) && forall|k: int|
                0 <= k < p ==> row_leq((#[trigger] handle_models(out@)[k]), xm),
        decreases n - j,
    {
        proof {
            assert(handle_models(out@)[j as int] == handle_model(out@[j as int]));
        }
        if p == n {
            if !row_le_exec(&out[j], &x) {
                p = j;
            }
        }
        j += 1;
    }
    let ghost before = handle_models(out@);
    out.insert(p, x);
    proof {
        assert(handle_models(out@) =~= before.insert(p as int, xm));
        let now = handle_models(out@);
        lemma_row_order_total(len);
        assert forall|k: int| 0 <= k < before.len() implies (#[trigger] before[k]).0.len()
            == len by {
            assert(before[k] == handle_model(old(out)@[k]));
        }
        assert forall|i: int, k: int| 0 <= i < k < now.len() implies #[trigger] row_order()(
            now[i],
            now[k],
        ) by {
            let ord = row_order();
            if k < p {
                assert(now[i] == before[i] && now[k] == before[k]);
                assert(ord(before[i], before[k]));
            } else if i > p {
                assert(now[i] == before[i - 1] && now[k] == before[k - 1]);
                assert(ord(before[i - 1], before[k - 1]));
            } else if i < p && k == p {
                assert(now[i] == before[i] && now[k] == xm);
                assert(row_leq(before[i], xm));
            } else if i == p {
                assert(now[i] == xm && now[k] == before[k - 1]);
                if p < before.len() {
                    assert(!row_leq(before[p as int], xm));
                    assert(row_leq(xm, before[p as int]));
                    if k - 1 > p {
                        assert(ord(before[p as int], before[k - 1]));
                        assert(row_leq(xm, before[k - 1]));
                    }
                }
            } else {
                assert(now[i] == before[i] && now[k] == before[k - 1]);
                assert(row_leq(before[i], xm));
                if p < before.len() {
                    assert(!row_leq(before[p as int], xm));
                    assert(row_leq(xm, before[p as int]));
                    if k - 1 > p {
                        assert(ord(before[p as int], before[k - 1]));
                    }
                    assert(row_leq(xm, before[k - 1]));
                    assert(row_leq(before[i], before[k - 1]));
                }
            }
        }
        vstd::seq_lib::to_multiset_insert(before, p as int, xm);
    }
}

/// Sort row handles by their cells, ties broken by original position.
fn sort_rows(v: Vec<(Vec<KeyCell>, usize)>, Ghost(len): Ghost<nat>) -> (r: Vec<(Vec<KeyCell>, usize)>)
    requires
        forall|k: int| 0 <= k < v@.len() ==> (#[trigger] v@[k]).0@.len() == len,
    ensures
        sorted_by(handle_models(r@), row_order()),
        forall|k: int| 0 <= k < r@.len() ==> (#[trigger] r@[k]).0@.len() == len,
        handle_models(r@).to_multiset() == handle_models(v@).to_multiset(),
{
    let mut rest = v;
    let mut out: Vec<(Vec<KeyCell>, usize)> = Vec::new();
    proof {
        broadcast use vstd::multiset::group_multiset_axioms;
        broadcast use vstd::seq_lib::group_to_multiset_ensures;

        assert(handle_models(out@) =~= Seq::<(Seq<KeyCellM>, nat)>::empty());
        assert(handle_models(out@).to_multiset().add(handle_models(rest@).to_multiset())
            =~= handle_models(v@).to_multiset());
    }
    while rest.len() > 0
        invariant
            sorted_by(handle_models(out@), row_order()),
            forall|k: int| 0 <= k < out@.len() ==> (#[trigger] out@[k]).0@.len() == len,
            forall|k: int| 0 <= k < rest@.len() ==> (#[trigger] rest@[k]).0@.len() == len,
            handle_models(out@).to_multiset().add(handle_models(rest@).to_multiset())
                == handle_models(v@).to_multiset(),
        decreases rest@.len(),
    {
        let ghost restm = handle_models(rest@);
        let x = rest.remove(0);
        proof {
            broadcast use vstd::multiset::group_multiset_axioms;

            restm.to_multiset_ensures();
            vstd::seq_lib::to_multiset_remove(restm, 0);
            assert(handle_models(rest@) =~= restm.remove(0));
            assert(restm[0] == handle_model(x));
            assert(restm.to_multiset().contains(restm[0]));
        }
        let ghost outm = handle_models(out@);
        row_sorted_insert(&mut out, x, Ghost(len));
        proof {
            broadcast use vstd::multiset::group_multiset_axioms;

            assert(handle_models(out@).to_multiset().add(handle_models(rest@).to_multiset())
                =~= outm.to_multiset().add(restm.to_multiset()));
        }
    }
    proof {
        broadcast use vstd::multiset::group_multiset_axioms;
        broadcast use vstd::seq_lib::group_to_multiset_ensures;

        assert(handle_models(rest@) =~= Seq::<(Seq<KeyCellM>, nat)>::empty());
        assert(handle_models(out@).to_multiset().add(
            Multiset::<(Seq<KeyCellM>, nat)>::empty(),
        ) =~= handle_models(out@).to_multiset());
    }
    out
}

} // verus!

verus! {

/// A strictly increasing sequence of non-negative integers grows at least as
/// fast as its index.
proof fn lemma_incr_at(s: Seq<int>, t: int)
    requires
        forall|t1: int, t2: int| 0 <= t1 < t2 < s.len() ==> s[t1] < s[t2],
        forall|t1: int| 0 <= t1 < s.len() ==> #[trigger] s[t1] >= 0,
        0 <= t < s.len(),
    ensures
        s[t] >= t,
    decreases t,
{
    if t > 0 {
        lemma_incr_at(s, t - 1);
    }
}

/// The tuple order is reflexive.
proof fn lemma_cells_leq_reflexive(a: Seq<KeyCellM>)
    ensures
        cells_leq(a, a),
    decreases a.len(),
{
    if a.len() > 0 {
        lemma_cells_leq_reflexive(a.drop_first());
    }
}

/// Whether position `p` of a sorted handle list ends a run of equal cells.
pub open spec fn ends_group(sm: Seq<(Seq<KeyCellM>, nat)>, p: int) -> bool {
    p == sm.len() - 1 || sm[p].0 != sm[p + 1].0
}

/// Every position of a sorted handle list has a group end at or after it,
/// carrying the same cells.
proof fn lemma_group_last(sm: Seq<(Seq<KeyCellM>, nat)>, p: int) -> (q: int)
    requires
        sorted_by(sm, row_order()),
        0 <= p < sm.len(),
    ensures
        p <= q < sm.len(),
        sm[q].0 == sm[p].0,
        ends_group(sm, q),
    decreases sm.len() - p,
{
    if p == sm.len() - 1 || sm[p + 1].0 != sm[p].0 {
        p
    } else {
        lemma_group_last(sm, p + 1)
    }
}

/// In a sorted handle list, equal cells are contiguous: positions beyond a
/// group end carry different cells.
proof fn lemma_group_contiguous(sm: Seq<(Seq<KeyCellM>, nat)>, q: int, p: int, len: nat)
    requires
        sorted_by(sm, row_order()),
        forall|k: int| 0 <= k < sm.len() ==> (#[trigger] sm[k]).0.len() == len,
        0 <= q < p < sm.len(),
        ends_group(sm, q),
    ensures
        sm[p].0 != sm[q].0,
{
    if sm[p].0 == sm[q].0 {
        let ord = row_order();
        assert(ord(sm[q], sm[q + 1]));
        if q + 1 < p {
            assert(ord(sm[q + 1], sm[p]));
        }
        // cells_leq holds along q .. q+1 .. p, and the ends are equal, so the
        // middle must be equal too.
        lemma_cells_leq_reflexive(sm[q].0);
        lemma_cells_leq_reflexive(sm[q + 1].0);
        assert(cells_leq(sm[q].0, sm[q + 1].0));
        assert(cells_leq(sm[q + 1].0, sm[p].0));
        lemma_cells_leq_antisymmetric(sm[q].0, sm[q + 1].0);
        assert(false);
    }
}

/// `cover` names, for every row of `m`, an output row of `o` carrying the
/// same sort-key cells: deduplication drops no key.
pub open spec fn covering_of(o: BatchModel, m: BatchModel, key: Seq<Seq<u8>>, cover: Seq<int>) -> bool {
    &&& cover.len() == m.rows
    &&& forall|r: int|
        0 <= r < m.rows ==> 0 <= #[trigger] cover[r] < o.rows && row_cells(o, key, cover[r])
            == row_cells(m, key, r)
}

/// Output row `k` equals merged row `sel[k]` cell for cell, and `sel[k]` is
/// the latest merged row carrying its sort-key cells.
pub open spec fn selection_of(
    o: BatchModel,
    m: BatchModel,
    key: Seq<Seq<u8>>,
    sel: Seq<int>,
) -> bool {
    &&& sel.len() == o.rows
    &&& forall|k: int| 0 <= k < sel.len() ==> 0 <= #[trigger] sel[k] < m.rows
    &&& forall|c: int, k: int|
        0 <= c < o.cols.len() && 0 <= k < sel.len() ==> (#[trigger] o.cols[c].vals[k])
            == m.cols[c].vals[sel[k]]
    &&& forall|k: int, r: int|
        #![trigger sel[k], row_cells(m, key, r)]
        0 <= k < sel.len() && 0 <= r < m.rows && row_cells(m, key, r) == row_cells(m, key, sel[k])
            ==> r <= sel[k]
}

/// Sort the rows of a merged batch by the sort key and drop all but the
/// latest of every run of rows sharing the same sort-key cells.
///
/// The output is globally sorted, holds no two rows with equal sort-key
/// cells, represents every input row's cells, and is non-empty whenever the
/// input is: compaction never emits an empty batch for a non-empty input.
pub fn compact_rows(merged: &MutableBatch, key: &Vec<Vec<u8>>) -> (out: RecordBatch)
    requires
        merged.wf(),
        forall|i: int|
            0 <= i < key@.len() ==> has_col(merged.model().cols, (#[trigger] key@[i])@) && (col_of(
                merged.model().cols,
                key@[i]@,
            ).typ is Tag || col_of(merged.model().cols, key@[i]@).typ is Time),
    ensures
        out.wf(),
        out.model().cols.len() == merged.model().cols.len(),
        forall|c: int|
            0 <= c < merged.model().cols.len() ==> (#[trigger] out.model().cols[c]).name
                == merged.model().cols[c].name && out.model().cols[c].typ
                == merged.model().cols[c].typ,
        merged.model().rows > 0 ==> out.model().rows > 0,
        out.model().rows <= merged.model().rows,
        exists|sel: Seq<int>|
            selection_of(
                out.model(),
                merged.model(),
                crate::sortkey::names_model(key@),
                sel,
            ),
        forall|k1: int, k2: int|
            0 <= k1 < k2 < out.model().rows ==> cells_leq(
                row_cells(out.model(), crate::sortkey::names_model(key@), k1),
                row_cells(out.model(), crate::sortkey::names_model(key@), k2),
            ),
        forall|k1: int, k2: int|
            0 <= k1 < k2 < out.model().rows ==> row_cells(
                out.model(),
                crate::sortkey::names_model(key@),
                k1,
            ) != row_cells(out.model(), crate::sortkey::names_model(key@), k2),
        exists|cover: Seq<int>|
            covering_of(
                out.model(),
                merged.model(),
                crate::sortkey::names_model(key@),
                cover,
            ),
{
    let ghost m = merged.model();
    let ghost km = crate::sortkey::names_model(key@);
    let ghost hs = Seq::new(m.rows, |r: int| (row_cells(m, km, r), r as nat));
    let rows = merged.rows();

    // One handle per row: its sort-key cells and its position.
    let mut handles: Vec<(Vec<KeyCell>, usize)> = Vec::new();
    let mut r: usize = 0;
    while r < rows
        invariant
            merged.wf(),
            m == merged.model(),
            km == crate::sortkey::names_model(key@),
            forall|i: int| 0 <= i < key@.len() ==> has_col(m.cols, (#[trigger] key@[i])@),
            hs == Seq::new(m.rows, |r2: int| (row_cells(m, km, r2), r2 as nat)),
            0 <= r <= rows,
            rows == m.rows,
            handles@.len() == r,
            forall|k: int| 0 <= k < r ==> (#[trigger] handles@[k]).0@.len() == km.len(),
            forall|k: int| 0 <= k < r ==> handle_models(handles@)[k] == hs[k],
        decreases rows - r,
    {
        let cells = extract_row_cells(merged, key, r);
        proof {
            assert(cells_model(cells@).len() == km.len());
        }
        handles.push((cells, r));
        proof {
            assert(handles@[r as int].0@.len() == km.len());
            assert(handle_model(handles@[r as int]) == hs[r as int]);
        }
        r += 1;
    }
    proof {
        assert(handle_models(handles@) =~= hs);
    }

    let sorted = sort_rows(handles, Ghost(km.len()));
    let ghost sm = handle_models(sorted@);
    let n = sorted.len();
    proof {
        broadcast use vstd::seq_lib::group_to_multiset_ensures;

        assert(sm.to_multiset() == hs.to_multiset());
        assert(sm.len() == sm.to_multiset().len());
        assert(hs.len() == hs.to_multiset().len());
        assert(n == m.rows);
        // Every sorted handle is an original handle.
        assert forall|p: int| 0 <= p < sm.len() implies (#[trigger] sm[p]).1 < m.rows && sm[p].0
            == row_cells(m, km, sm[p].1 as int) by {
            assert(sm.contains(sm[p]));
            assert(sm.to_multiset().contains(sm[p]));
            assert(hs.to_multiset().contains(sm[p]));
            assert(hs.contains(sm[p]));
            let w = choose|w: int| 0 <= w < hs.len() && hs[w] == sm[p];
            assert(hs[w] == (row_cells(m, km, w), w as nat));
        }
        // Every original handle appears somewhere in the sorted list.
        assert forall|r2: int| #![trigger row_cells(m, km, r2)] 0 <= r2 < m.rows implies exists|p: int|
            0 <= p < sm.len() && #[trigger] sm[p] == (row_cells(m, km, r2), r2 as nat) by {
            assert(hs[r2] == (row_cells(m, km, r2), r2 as nat));
            assert(hs.contains(hs[r2]));
            assert(hs.to_multiset().contains(hs[r2]));
            assert(sm.to_multiset().contains(hs[r2]));
            assert(sm.contains(hs[r2]));
            let p = choose|p: int| 0 <= p < sm.len() && sm[p] == hs[r2];
            assert(sm[p] == (row_cells(m, km, r2), r2 as nat));
        }
    }

    // Keep the last handle of every run of equal cells: the latest write.
    let mut idxs: Vec<usize> = Vec::new();
    let ghost mut picks: Seq<int> = Seq::empty();
    let mut p: usize = 0;
    while p < n
        invariant
            0 <= p <= n,
            n == sorted@.len(),
            sm == handle_models(sorted@),
            forall|k: int| 0 <= k < sorted@.len() ==> (#[trigger] sorted@[k]).0@.len() == km.len(),
            idxs@.len() == picks.len(),
            forall|t: int| 0 <= t < picks.len() ==> 0 <= #[trigger] picks[t] < p,
            forall|t1: int, t2: int| 0 <= t1 < t2 < picks.len() ==> picks[t1] < picks[t2],
            forall|t: int|
                0 <= t < picks.len() ==> (#[trigger] idxs@[t]) as nat == sm[picks[t]].1,
            forall|t: int| 0 <= t < picks.len() ==> ends_group(sm, #[trigger] picks[t]),
            forall|p2: int|
                0 <= p2 < p && ends_group(sm, p2) ==> exists|t: int|
                    0 <= t < picks.len() && #[trigger] picks[t] == p2,
        decreases n - p,
    {
        let emit = if p + 1 < n {
            !cells_eq_exec(&sorted[p].0, &sorted[p + 1].0)
        } else {
            true
        };
        proof {
            assert(cells_model(sorted@[p as int].0@) == sm[p as int].0);
            if p + 1 < n {
                assert(cells_model(sorted@[p as int + 1].0@) == sm[p as int + 1].0);
            }
            assert(emit == ends_group(sm, p as int));
        }
        let ghost opicks = picks;
        if emit {
            idxs.push(sorted[p].1);
            proof {
                picks = picks.push(p as int);
            }
        }
        proof {
            assert forall|p2: int| 0 <= p2 < p + 1 && ends_group(sm, p2) implies exists|t: int|
                0 <= t < picks.len() && #[trigger] picks[t] == p2 by {
                if p2 == p as int {
                    assert(emit);
                    assert(picks[picks.len() - 1] == p2);
                } else {
                    let t0 = choose|t0: int| 0 <= t0 < opicks.len() && #[trigger] opicks[t0] == p2;
                    assert(picks[t0] == p2);
                }
            }
        }
        p += 1;
    }

    proof {
        if picks.len() > 0 {
            lemma_incr_at(picks, picks.len() - 1);
            assert(picks.len() - 1 <= picks[picks.len() - 1] < n);
        }
    }

    proof {
        // The gathered indices are valid rows of the merged batch.
        assert forall|t: int| 0 <= t < idxs@.len() implies (#[trigger] idxs@[t]) < m.rows by {
            assert(sm[picks[t]].1 < m.rows);
        }
    }
    let gathered = merged.take_rows(&idxs);
    let out = RecordBatch::freeze(gathered);
    proof {
        let o = out.model();
        let ghost sel = Seq::new(idxs@.len() as nat, |t: int| idxs@[t] as int);

        // Row cells read back from the output equal the source row's cells.
        assert forall|k: int| 0 <= k < o.rows implies row_cells(o, km, k) == row_cells(
            m,
            km,
            sel[k],
        ) by {
            assert forall|i: int| 0 <= i < km.len() implies row_cells(o, km, k)[i] == row_cells(
                m,
                km,
                sel[k],
            )[i] by {
                assert(has_col(m.cols, km[i]));
                let j0 = crate::batch::col_index(m.cols, km[i]);
                m.lemma_unique_index(j0);
                assert(o.cols[j0].name == km[i]);
                o.lemma_unique_index(j0);
                assert(col_of(o.cols, km[i]) == o.cols[j0]);
                assert(o.cols[j0].vals[k] == m.cols[j0].vals[sel[k]]);
            }
            assert(row_cells(o, km, k) =~= row_cells(m, km, sel[k]));
        }

        // The emitted handles' cells, in emission order.
        assert forall|k: int| 0 <= k < o.rows implies row_cells(o, km, k) == sm[picks[k]].0 by {
            assert(sm[picks[k]].1 == idxs@[k] as nat);
            assert(sm[picks[k]].0 == row_cells(m, km, sel[k]));
        }

        // Selection: every output row is the latest of its cell group.
        assert forall|k: int, r2: int|
            #![trigger sel[k], row_cells(m, km, r2)]
            0 <= k < sel.len() && 0 <= r2 < m.rows && row_cells(m, km, r2) == row_cells(
            m,
            km,
            sel[k],
        ) implies r2 <= sel[k] by {
            let q = picks[k];
            let p2 = choose|p2: int|
                0 <= p2 < sm.len() && #[trigger] sm[p2] == (row_cells(m, km, r2), r2 as nat);
            if p2 > q {
                lemma_group_contiguous(sm, q, p2, km.len());
                assert(false);
            }
            if p2 < q {
                assert(row_order()(sm[p2], sm[q]));
                if sm[p2].0 != sm[q].0 {
                    assert(false);
                }
            }
            assert(sm[p2].1 <= sm[q].1);
        }
        assert(selection_of(o, m, km, sel));

        // Sorted output.
        assert forall|k1: int, k2: int| 0 <= k1 < k2 < o.rows implies cells_leq(
            row_cells(o, km, k1),
            row_cells(o, km, k2),
        ) by {
            let q1 = picks[k1];
            let q2 = picks[k2];
            assert(row_order()(sm[q1], sm[q2]));
            if sm[q1].0 == sm[q2].0 {
                lemma_cells_leq_reflexive(sm[q1].0);
            }
        }

        // No two output rows share their sort-key cells.
        assert forall|k1: int, k2: int| 0 <= k1 < k2 < o.rows implies row_cells(o, km, k1)
            != row_cells(o, km, k2) by {
            let q1 = picks[k1];
            let q2 = picks[k2];
            if sm[q1].0 == sm[q2].0 {
                lemma_group_contiguous(sm, q1, q2, km.len());
            }
        }

        // Every input row's cells survive in some output row: name a covering
        // output row for each input row.
        let ghost cover = Seq::new(
            m.rows,
            |r2: int|
                choose|t: int|
                    0 <= t < o.rows && row_cells(o, km, t) == row_cells(m, km, r2),
        );
        assert forall|r2: int| 0 <= r2 < m.rows implies 0 <= #[trigger] cover[r2] < o.rows
            && row_cells(o, km, cover[r2]) == row_cells(m, km, r2) by {
            let p2 = choose|p2: int|
                0 <= p2 < sm.len() && #[trigger] sm[p2] == (row_cells(m, km, r2), r2 as nat);
            let q = lemma_group_last(sm, p2);
            let t0 = choose|t: int| 0 <= t < picks.len() && #[trigger] picks[t] == q;
            assert(row_cells(o, km, t0) == sm[q].0);
            assert(sm[q].0 == sm[p2].0);
            assert(0 <= t0 < o.rows && row_cells(o, km, t0) == row_cells(m, km, r2));
            assert(exists|t: int| 0 <= t < o.rows && row_cells(o, km, t) == row_cells(m, km, r2));
        }
        assert(covering_of(o, m, km, cover));
        assert(covering_of(
            out.model(),
            merged.model(),
            crate::sortkey::names_model(key@),
            cover,
        ));

        // A non-empty input leaves a non-empty output.
        if m.rows > 0 {
            assert(ends_group(sm, n as int - 1));
            assert(exists|t: int| 0 <= t < picks.len() && #[trigger] picks[t] == n as int - 1);
        }
    }
    out
}

} // verus!

verus! {

// ---------------------------------------------------------------------------
// Primary key of a merged batch
// ---------------------------------------------------------------------------

/// The primary key of a batch: its tag columns in lexicographic name order,
/// then `time`. These are the columns that identify a row.
pub open spec fn primary_key(m: BatchModel) -> Seq<Seq<u8>> {
    let names = crate::sortkey::add_tag_names(Seq::empty(), m.cols);
    names.map_values(|n: Seq<u8>| (0nat, n)).sort_by(crate::sortkey::key_order()).map_values(
        |p: (nat, Seq<u8>)| p.1,
    ).push(crate::batch::time_name())
}

/// The primary key, at run time.
pub fn primary_key_of(b: &MutableBatch) -> (r: Vec<Vec<u8>>)
    requires
        b.wf(),
    ensures
        crate::sortkey::names_model(r@) == primary_key(b.model()),
{
    let ghost m = b.model();
    let ghost cols = m.cols;
    let ghost tnames = crate::sortkey::add_tag_names(Seq::empty(), cols);
    let ghost target_pairs = tnames.map_values(|n: Seq<u8>| (0nat, n));

    // Collect the tag names in schema order.
    let mut acc: Vec<Vec<u8>> = Vec::new();
    let nc = b.num_columns();
    proof {
        assert(cols.skip(0) =~= cols);
        assert(crate::sortkey::names_model(acc@) =~= Seq::<Seq<u8>>::empty());
    }
    let mut ci: usize = 0;
    while ci < nc
        invariant
            b.wf(),
            m == b.model(),
            cols == m.cols,
            tnames == crate::sortkey::add_tag_names(Seq::empty(), cols),
            0 <= ci <= nc,
            nc == cols.len(),
            crate::sortkey::add_tag_names(Seq::empty(), cols) == crate::sortkey::add_tag_names(
                crate::sortkey::names_model(acc@),
                cols.skip(ci as int),
            ),
        decreases nc - ci,
    {
        proof {
            assert(cols.skip(ci as int)[0] == cols[ci as int]);
            assert(cols.skip(ci as int).drop_first() =~= cols.skip(ci as int + 1));
        }
        if matches!(b.column_type(ci), ColType::Tag) {
            let name = b.column_name(ci);
            let mut seen = false;
            let mut k: usize = 0;
            let nk = acc.len();
            while k < nk
                invariant
                    0 <= k <= nk,
                    nk == acc@.len(),
                    name@ == cols[ci as int].name,
                    !seen ==> forall|k2: int|
                        0 <= k2 < k ==> crate::sortkey::names_model(acc@)[k2] != name@,
                    seen ==> crate::sortkey::names_model(acc@).contains(name@),
                decreases nk - k,
            {
                if !seen && bytes_eq(acc[k].as_slice(), name.as_slice()) {
                    proof {
                        assert(crate::sortkey::names_model(acc@)[k as int] == name@);
                    }
                    seen = true;
                }
                k += 1;
            }
            if !seen {
                proof {
                    assert(!crate::sortkey::names_model(acc@).contains(name@));
                }
                let ghost before = crate::sortkey::names_model(acc@);
                acc.push(clone_bytes(name));
                proof {
                    assert(crate::sortkey::names_model(acc@) =~= before.push(cols[ci as int].name));
                }
            }
        }
        ci += 1;
    }
    proof {
        assert(cols.skip(nc as int) =~= Seq::<ColModel>::empty());
        assert(crate::sortkey::names_model(acc@) == tnames);
    }

    // Sort the names (all cardinalities zero: pure name order).
    let mut pairs: Vec<(usize, Vec<u8>)> = Vec::new();
    let nn = acc.len();
    proof {
        assert(crate::sortkey::pair_models(pairs@) =~= target_pairs.take(0));
    }
    let mut i: usize = 0;
    while i < nn
        invariant
            0 <= i <= nn,
            nn == acc@.len(),
            crate::sortkey::names_model(acc@) == tnames,
            target_pairs == tnames.map_values(|n: Seq<u8>| (0nat, n)),
            crate::sortkey::pair_models(pairs@) == target_pairs.take(i as int),
        decreases nn - i,
    {
        let ghost before = crate::sortkey::pair_models(pairs@);
        pairs.push((0, clone_bytes(&acc[i])));
        proof {
            assert(crate::sortkey::names_model(acc@)[i as int] == acc@[i as int]@);
            assert(crate::sortkey::pair_models(pairs@) =~= before.push((0nat, acc@[i as int]@)));
            assert(target_pairs.take(i as int + 1) =~= target_pairs.take(i as int).push(
                target_pairs[i as int],
            ));
        }
        i += 1;
    }
    proof {
        assert(target_pairs.take(nn as int) =~= target_pairs);
    }
    let sorted = crate::sortkey::sort_pairs(pairs);
    proof {
        crate::sortkey::lemma_key_order_total();
        target_pairs.lemma_sort_by_ensures(crate::sortkey::key_order());
        lemma_sorted_unique(
            crate::sortkey::pair_models(sorted@),
            target_pairs.sort_by(crate::sortkey::key_order()),
            crate::sortkey::key_order(),
        );
        assert(crate::sortkey::pair_models(sorted@) =~= target_pairs.sort_by(
            crate::sortkey::key_order(),
        ));
    }
    let mut r: Vec<Vec<u8>> = Vec::new();
    let ns = sorted.len();
    proof {
        assert(crate::sortkey::names_model(r@) =~= crate::sortkey::pair_models(
            sorted@,
        ).map_values(|p: (nat, Seq<u8>)| p.1).take(0));
    }
    let mut i: usize = 0;
    while i < ns
        invariant
            0 <= i <= ns,
            ns == sorted@.len(),
            crate::sortkey::names_model(r@) == crate::sortkey::pair_models(sorted@).map_values(
                |p: (nat, Seq<u8>)| p.1,
            ).take(i as int),
        decreases ns - i,
    {
        let ghost before = crate::sortkey::names_model(r@);
        let ghost mapped = crate::sortkey::pair_models(sorted@).map_values(
            |p: (nat, Seq<u8>)| p.1,
        );
        r.push(clone_bytes(&sorted[i].1));
        proof {
            assert(crate::sortkey::names_model(r@) =~= before.push(sorted@[i as int].1@));
            assert(mapped[i as int] == sorted@[i as int].1@);
            assert(mapped.take(i as int + 1) =~= mapped.take(i as int).push(mapped[i as int]));
        }
        i += 1;
    }
    proof {
        let mapped = crate::sortkey::pair_models(sorted@).map_values(|p: (nat, Seq<u8>)| p.1);
        assert(mapped.take(ns as int) =~= mapped);
    }
    r.push(crate::batch::time_name_vec());
    proof {
        assert(crate::sortkey::names_model(r@) =~= primary_key(m));
    }
    r
}

} // verus!

verus! {

// ---------------------------------------------------------------------------
// Sort-key columns exist in the merged batch
// ---------------------------------------------------------------------------

/// Whether some column of `cols` is a tag column named `n`.
pub open spec fn has_tag_col(cols: Seq<ColModel>, n: Seq<u8>) -> bool {
    exists|i: int| 0 <= i < cols.len() && (#[trigger] cols[i]).name == n && cols[i].typ is Tag
}

/// Every collected tag name names a tag column (or was already in the
/// accumulator).
proof fn lemma_tag_names_from_cols(acc: Seq<Seq<u8>>, cols: Seq<ColModel>)
    ensures
        forall|n: Seq<u8>|
            crate::sortkey::add_tag_names(acc, cols).contains(n) ==> acc.contains(n)
                || has_tag_col(cols, n),
    decreases cols.len(),
{
    if cols.len() > 0 {
        let acc2 = if cols[0].typ is Tag && !acc.contains(cols[0].name) {
            acc.push(cols[0].name)
        } else {
            acc
        };
        lemma_tag_names_from_cols(acc2, cols.drop_first());
        assert forall|n: Seq<u8>|
            crate::sortkey::add_tag_names(acc, cols).contains(n) implies acc.contains(n)
            || has_tag_col(cols, n) by {
            if acc2.contains(n) {
                let w = choose|w: int| 0 <= w < acc2.len() && acc2[w] == n;
                if w < acc.len() {
                    assert(acc[w] == n);
                    assert(acc.contains(n));
                } else {
                    assert(n == cols[0].name && cols[0].typ is Tag);
                    assert(has_tag_col(cols, n));
                }
            } else {
                assert(has_tag_col(cols.drop_first(), n));
                let w = choose|w: int|
                    0 <= w < cols.drop_first().len() && (#[trigger] cols.drop_first()[w]).name == n
                        && cols.drop_first()[w].typ is Tag;
                assert(cols[w + 1].name == n && cols[w + 1].typ is Tag);
                assert(has_tag_col(cols, n));
            }
        }
    }
}

/// Every primary-key column names a tag or timestamp column of the batch,
/// provided the batch carries a `time` column.
proof fn lemma_pk_has(m: BatchModel)
    requires
        m.wf(),
        has_col(m.cols, crate::batch::time_name()),
    ensures
        forall|j: int|
            0 <= j < primary_key(m).len() ==> has_col(m.cols, #[trigger] primary_key(m)[j]) && (
            col_of(m.cols, primary_key(m)[j]).typ is Tag || col_of(
                m.cols,
                primary_key(m)[j],
            ).typ is Time),
{
    let tnames = crate::sortkey::add_tag_names(Seq::empty(), m.cols);
    let pairs = tnames.map_values(|n: Seq<u8>| (0nat, n));
    crate::sortkey::lemma_key_order_total();
    pairs.lemma_sort_by_ensures(crate::sortkey::key_order());
    let sorted = pairs.sort_by(crate::sortkey::key_order());
    lemma_tag_names_from_cols(Seq::empty(), m.cols);
    let pk = primary_key(m);
    assert forall|j: int| 0 <= j < pk.len() implies has_col(m.cols, #[trigger] pk[j]) && (col_of(
        m.cols,
        pk[j],
    ).typ is Tag || col_of(m.cols, pk[j]).typ is Time) by {
        if j == pk.len() - 1 {
            assert(pk[j] == crate::batch::time_name());
            let i = col_index(m.cols, pk[j]);
            assert(m.cols[i].name == crate::batch::time_name());
            assert(m.cols[i].typ is Time);
        } else {
            assert(pk[j] == sorted[j].1);
            assert(sorted.contains(sorted[j]));
            assert(pairs.contains(sorted[j]));
            let w = choose|w: int| 0 <= w < pairs.len() && pairs[w] == sorted[j];
            assert(pairs[w] == (0nat, tnames[w]));
            assert(tnames.contains(tnames[w]));
            assert(pk[j] == tnames[w]);
            assert(has_tag_col(m.cols, tnames[w]));
            let i = choose|i: int|
                0 <= i < m.cols.len() && (#[trigger] m.cols[i]).name == tnames[w] && m.cols[i].typ
                    is Tag;
            m.lemma_unique_index(i);
        }
    }
}

/// Every preserved column of an adjusted key is a primary-key column.
proof fn lemma_kept_in(e: Seq<Seq<u8>>, pk: Seq<Seq<u8>>)
    ensures
        forall|k: int|
            0 <= k < crate::sortkey::kept_columns(e, pk).len()
                ==> crate::sortkey::seq_contains_name(
                pk,
                #[trigger] crate::sortkey::kept_columns(e, pk)[k],
            ),
    decreases e.len(),
{
    if e.len() > 0 {
        lemma_kept_in(e.drop_last(), pk);
        let whole = crate::sortkey::kept_columns(e, pk);
        let rest = crate::sortkey::kept_columns(e.drop_last(), pk);
        assert forall|k: int| 0 <= k < whole.len() implies crate::sortkey::seq_contains_name(
            pk,
            #[trigger] whole[k],
        ) by {
            if k < rest.len() {
                assert(whole[k] == rest[k]);
            } else {
                assert(whole[k] == e.last());
            }
        }
    }
}

/// Every new column of an adjusted key is a primary-key column.
proof fn lemma_news_in(pk: Seq<Seq<u8>>, e: Seq<Seq<u8>>)
    ensures
        forall|k: int|
            0 <= k < crate::sortkey::new_columns(pk, e).len()
                ==> crate::sortkey::seq_contains_name(
                pk,
                #[trigger] crate::sortkey::new_columns(pk, e)[k],
            ),
    decreases pk.len(),
{
    if pk.len() > 0 {
        lemma_news_in(pk.drop_last(), e);
        let whole = crate::sortkey::new_columns(pk, e);
        let rest = crate::sortkey::new_columns(pk.drop_last(), e);
        assert forall|k: int| 0 <= k < whole.len() implies crate::sortkey::seq_contains_name(
            pk,
            #[trigger] whole[k],
        ) by {
            if k < rest.len() {
                assert(crate::sortkey::seq_contains_name(pk.drop_last(), rest[k]));
                let w = choose|w: int|
                    0 <= w < pk.drop_last().len() && pk.drop_last()[w] == rest[k];
                assert(pk[w] == rest[k]);
            } else {
                assert(whole[k] == pk.last());
                assert(pk[pk.len() - 1] == whole[k]);
            }
        }
    } else {
        lemma_kept_in(pk, e);
    }
}

/// A column of `b` missing from `a` appears among the fresh columns.
pub(crate) proof fn lemma_fresh_has(b: Seq<ColModel>, a: Seq<ColModel>, arows: nat, x: Seq<u8>)
    requires
        has_col(b, x),
        !has_col(a, x),
    ensures
        exists|k: int|
            0 <= k < fresh_cols(b, a, arows).len() && (#[trigger] fresh_cols(b, a, arows)[k]).name
                == x,
    decreases b.len(),
{
    let j = choose|j: int| 0 <= j < b.len() && b[j].name == x;
    let whole = fresh_cols(b, a, arows);
    let rest = fresh_cols(b.drop_last(), a, arows);
    if b.last().name == x {
        assert(whole[whole.len() - 1].name == x);
    } else {
        assert(j < b.len() - 1);
        assert(b.drop_last()[j] == b[j]);
        assert(has_col(b.drop_last(), x));
        lemma_fresh_has(b.drop_last(), a, arows, x);
        let k = choose|k: int| 0 <= k < rest.len() && (#[trigger] rest[k]).name == x;
        if has_col(a, b.last().name) {
            assert(whole[k].name == x);
        } else {
            assert(whole[k] == rest[k]);
            assert(whole[k].name == x);
        }
    }
}

/// A merge keeps every column name of its left input.
pub(crate) proof fn lemma_extended_has_left(a: BatchModel, b: BatchModel, x: Seq<u8>)
    requires
        extended(a, b) is Some,
        has_col(a.cols, x),
    ensures
        extended(a, b) matches Some(e) && has_col(e.cols, x),
{
    let e = extended(a, b).unwrap();
    let i = choose|i: int| 0 <= i < a.cols.len() && a.cols[i].name == x;
    assert(e.cols[i].name == x);
}

/// A merge gains every column name of its right input.
pub(crate) proof fn lemma_extended_has_right(a: BatchModel, b: BatchModel, x: Seq<u8>)
    requires
        extended(a, b) is Some,
        has_col(b.cols, x),
    ensures
        extended(a, b) matches Some(e) && has_col(e.cols, x),
{
    let e = extended(a, b).unwrap();
    if has_col(a.cols, x) {
        lemma_extended_has_left(a, b, x);
    } else {
        lemma_fresh_has(b.cols, a.cols, a.rows, x);
        let k = choose|k: int|
            0 <= k < fresh_cols(b.cols, a.cols, a.rows).len() && (#[trigger] fresh_cols(
                b.cols,
                a.cols,
                a.rows,
            )[k]).name == x;
        assert(e.cols[a.cols.len() + k].name == x);
    }
}

} // verus!

verus! {

// ---------------------------------------------------------------------------
// The compaction entry points
// ---------------------------------------------------------------------------

/// What compaction guarantees of its output, relative to the merged input
/// `m` and the sort key: the same schema; sorted, key-distinct rows; every
/// input key covered; provenance of every output row; and no empty output
/// for a non-empty input.
pub open spec fn compacted_output(o: BatchModel, m: BatchModel, key: Seq<Seq<u8>>) -> bool {
    &&& o.cols.len() == m.cols.len()
    &&& forall|c: int|
        0 <= c < m.cols.len() ==> (#[trigger] o.cols[c]).name == m.cols[c].name && o.cols[c].typ
            == m.cols[c].typ
    &&& (m.rows > 0 ==> o.rows > 0)
    &&& o.rows <= m.rows
    &&& forall|k1: int, k2: int|
        0 <= k1 < k2 < o.rows ==> cells_leq(row_cells(o, key, k1), row_cells(o, key, k2))
    &&& forall|k1: int, k2: int|
        0 <= k1 < k2 < o.rows ==> row_cells(o, key, k1) != row_cells(o, key, k2)
    &&& exists|sel: Seq<int>| selection_of(o, m, key, sel)
    &&& exists|cover: Seq<int>| covering_of(o, m, key, cover)
}

/// A queryable batch: the union of one or more immutable snapshots of one
/// table, merged over a common (widened) schema when compacted.
pub struct QueryableBatch {
    /// The snapshots, in write order.
    pub data: Vec<RecordBatch>,
}

/// A batch being persisted: the partition's identity and its queryable data.
/// The object-store identifier is assigned at the transition to persisting
/// and names the durable artifact.
pub struct PersistingBatch {
    /// The shard the partition belongs to.
    pub shard_id: i64,
    /// The table written.
    pub table_id: i64,
    /// The partition within the table.
    pub partition_id: i64,
    /// The identity of the durable artifact, unique per persisting batch.
    pub object_store_id: u128,
    /// The table name.
    pub table_name: Vec<u8>,
    /// The data to compact and persist.
    pub data: QueryableBatch,
}

/// The result of compacting a persisting batch.
pub struct CompactedStream {
    /// The sorted, deduplicated output.
    pub stream: RecordBatch,
    /// The sort key used for the data (and the artifact's metadata); it may
    /// be narrower than the catalog's key.
    pub data_sort_key: Vec<Vec<u8>>,
    /// The widened sort key the catalog should record, if new columns
    /// appeared.
    pub catalog_sort_key_update: Option<Vec<Vec<u8>>>,
}

/// Merge the given snapshots and compact them under the given sort key:
/// sort, then deduplicate keeping the latest row of each key.
pub fn compact(data: &Vec<RecordBatch>, sort_key: &Vec<Vec<u8>>) -> (r: Result<
    RecordBatch,
    BatchError,
>)
    requires
        forall|i: int| 0 <= i < data@.len() ==> (#[trigger] data@[i]).wf(),
        total_rows(batch_models(data@)) <= usize::MAX,
        merged_model(batch_models(data@)) matches Some(m) ==> forall|i: int|
            0 <= i < sort_key@.len() ==> has_col(m.cols, (#[trigger] sort_key@[i])@) && (col_of(
                m.cols,
                sort_key@[i]@,
            ).typ is Tag || col_of(m.cols, sort_key@[i]@).typ is Time),
    ensures
        match r {
            Ok(out) => {
                &&& out.wf()
                &&& merged_model(batch_models(data@)) matches Some(m) && compacted_output(
                    out.model(),
                    m,
                    crate::sortkey::names_model(sort_key@),
                )
            },
            Err(_) => merged_model(batch_models(data@)) is None,
        },
{
    let merged = match merge_batches(data) {
        Ok(m) => m,
        Err(e) => {
            return Err(e);
        },
    };
    let out = compact_rows(&merged, sort_key);
    proof {
        assert(compacted_output(
            out.model(),
            merged.model(),
            crate::sortkey::names_model(sort_key@),
        ));
    }
    Ok(out)
}

/// Compact a persisting batch: derive or adjust the sort key, then merge,
/// sort and deduplicate the buffered snapshots.
///
/// With a catalog sort key, the key is adjusted to the data's primary key
/// and the second result names the catalog update exactly when new columns
/// appeared. With no catalog key (or an empty one), the key is computed from
/// observed cardinality and is itself the catalog update. Callers do not
/// persist empty buffers.
pub fn compact_persisting_batch(sort_key: &Option<Vec<Vec<u8>>>, batch: &PersistingBatch) -> (r:
    Result<CompactedStream, BatchError>)
    requires
        batch.data.data@.len() > 0,
        forall|i: int| 0 <= i < batch.data.data@.len() ==> (#[trigger] batch.data.data@[i]).wf(),
        total_rows(batch_models(batch.data.data@)) <= usize::MAX,
        merged_model(batch_models(batch.data.data@)) matches Some(m) ==> has_col(
            m.cols,
            crate::batch::time_name(),
        ),
    ensures
        match r {
            Ok(cs) => {
                &&& cs.stream.wf()
                &&& merged_model(batch_models(batch.data.data@)) matches Some(m)
                    && compacted_output(
                    cs.stream.model(),
                    m,
                    crate::sortkey::names_model(cs.data_sort_key@),
                ) && {
                    match sort_key {
                        Some(sk) if sk@.len() > 0 => {
                            &&& crate::sortkey::names_model(cs.data_sort_key@)
                                == crate::sortkey::adjusted_data_key(
                                crate::sortkey::names_model(sk@),
                                primary_key(m),
                            )
                            &&& (cs.catalog_sort_key_update is Some
                                <==> crate::sortkey::new_columns(
                                primary_key(m),
                                crate::sortkey::names_model(sk@),
                            ).len() > 0)
                            &&& (cs.catalog_sort_key_update matches Some(u)
                                ==> crate::sortkey::names_model(u@)
                                == crate::sortkey::adjusted_catalog_key(
                                crate::sortkey::names_model(sk@),
                                primary_key(m),
                            ))
                        },
                        _ => {
                            &&& crate::sortkey::names_model(cs.data_sort_key@)
                                == crate::sortkey::computed_sort_key(
                                batch_models(batch.data.data@),
                            )
                            &&& cs.catalog_sort_key_update matches Some(u)
                                && crate::sortkey::names_model(u@) == crate::sortkey::names_model(
                                cs.data_sort_key@,
                            )
                        },
                    }
                }
            },
            Err(_) => merged_model(batch_models(batch.data.data@)) is None,
        },
{
    let ghost bms = batch_models(batch.data.data@);
    let merged = match merge_batches(&batch.data.data) {
        Ok(m) => m,
        Err(e) => {
            return Err(e);
        },
    };
    let ghost m = merged.model();
    let pk = primary_key_of(&merged);
    proof {
        lemma_pk_has(m);
    }

    let use_catalog = match sort_key {
        Some(sk) => sk.len() > 0,
        None => false,
    };
    let (data_sort_key, catalog_update) = if use_catalog {
        let sk = match sort_key {
            Some(sk) => sk,
            None => vstd::pervasive::unreached::<&Vec<Vec<u8>>>(),
        };
        let (dk, cu) = crate::sortkey::adjust_sort_key_columns(sk, &pk);
        proof {
            // Every adjusted-key column is a primary-key column, hence a
            // column of the merged batch.
            lemma_kept_in(crate::sortkey::names_model(sk@), primary_key(m));
            lemma_news_in(primary_key(m), crate::sortkey::names_model(sk@));
            assert forall|i: int| 0 <= i < dk@.len() implies has_col(
                m.cols,
                (#[trigger] dk@[i])@,
            ) && (col_of(m.cols, dk@[i]@).typ is Tag || col_of(m.cols, dk@[i]@).typ is Time) by {
                let dkm = crate::sortkey::names_model(dk@);
                let kept = crate::sortkey::kept_columns(
                    crate::sortkey::names_model(sk@),
                    primary_key(m),
                );
                let news = crate::sortkey::new_columns(
                    primary_key(m),
                    crate::sortkey::names_model(sk@),
                );
                assert(dkm == kept + news + seq![crate::batch::time_name()]);
                assert(dkm[i] == dk@[i]@);
                if i < kept.len() {
                    assert(dkm[i] == kept[i]);
                    assert(crate::sortkey::seq_contains_name(primary_key(m), kept[i]));
                    let w = choose|w: int|
                        0 <= w < primary_key(m).len() && primary_key(m)[w] == kept[i];
                    assert(has_col(m.cols, primary_key(m)[w]));
                } else if i < kept.len() + news.len() {
                    assert(dkm[i] == news[i - kept.len()]);
                    assert(crate::sortkey::seq_contains_name(
                        primary_key(m),
                        news[i - kept.len()],
                    ));
                    let w = choose|w: int|
                        0 <= w < primary_key(m).len() && primary_key(m)[w] == news[i - kept.len()];
                    assert(has_col(m.cols, primary_key(m)[w]));
                } else {
                    assert(dkm[i] == crate::batch::time_name());
                    let it = col_index(m.cols, crate::batch::time_name());
                    assert(m.cols[it].name == crate::batch::time_name());
                    assert(m.cols[it].typ is Time);
                }
            }
        }
        (dk, cu)
    } else {
        let ck = crate::sortkey::compute_sort_key(&batch.data.data);
        let ck2 = copy_key(&ck);
        proof {
            // Every computed-key column is a tag column of some input batch,
            // hence a column of the merged batch.
            assert forall|i: int| 0 <= i < ck@.len() implies has_col(
                m.cols,
                (#[trigger] ck@[i])@,
            ) && (col_of(m.cols, ck@[i]@).typ is Tag || col_of(m.cols, ck@[i]@).typ is Time) by {
                let ckm = crate::sortkey::names_model(ck@);
                assert(ckm[i] == ck@[i]@);
                if i < ckm.len() - 1 {
                    assert forall|b: int| 0 <= b < bms.len() implies (#[trigger] bms[b]).wf() by {
                        batch.data.data@[b].lemma_wf_model();
                    }
                    lemma_computed_key_has(bms, m, i);
                } else {
                    assert(ckm[i] == crate::batch::time_name());
                    let it = col_index(m.cols, crate::batch::time_name());
                    assert(m.cols[it].name == crate::batch::time_name());
                    assert(m.cols[it].typ is Time);
                }
            }
        }
        (ck, Some(ck2))
    };
    let out = compact_rows(&merged, &data_sort_key);
    Ok(CompactedStream { stream: out, data_sort_key, catalog_sort_key_update: catalog_update })
}

/// Copy a sort key.
fn copy_key(k: &Vec<Vec<u8>>) -> (r: Vec<Vec<u8>>)
    ensures
        crate::sortkey::names_model(r@) == crate::sortkey::names_model(k@),
{
    let mut r: Vec<Vec<u8>> = Vec::new();
    let n = k.len();
    let mut i: usize = 0;
    while i < n
        invariant
            0 <= i <= n,
            n == k@.len(),
            r@.len() == i,
            forall|j: int|
                0 <= j < i ==> crate::sortkey::names_model(r@)[j] == crate::sortkey::names_model(
                    k@,
                )[j],
        decreases n - i,
    {
        r.push(clone_bytes(&k[i]));
        i += 1;
    }
    proof {
        assert(crate::sortkey::names_model(r@) =~= crate::sortkey::names_model(k@));
    }
    r
}

/// A successful merge of well-formed batches is well formed, at every fold
/// step.
proof fn lemma_merged_wf(bs: Seq<BatchModel>)
    requires
        forall|b: int| 0 <= b < bs.len() ==> (#[trigger] bs[b]).wf(),
        merged_model(bs) is Some,
    ensures
        merged_model(bs) matches Some(m) && m.wf(),
    decreases bs.len(),
{
    if bs.len() > 0 {
        assert forall|b: int| 0 <= b < bs.drop_last().len() implies (
        #[trigger] bs.drop_last()[b]).wf() by {
            assert(bs.drop_last()[b] == bs[b]);
        }
        lemma_merged_wf(bs.drop_last());
        let pre = merged_model(bs.drop_last()).unwrap();
        lemma_extended_wf(pre, bs.last());
    }
}

/// A tag column of any input batch survives a successful merge as a tag
/// column.
proof fn lemma_merged_typ(bs: Seq<BatchModel>, j: int, x: Seq<u8>)
    requires
        forall|b: int| 0 <= b < bs.len() ==> (#[trigger] bs[b]).wf(),
        merged_model(bs) is Some,
        0 <= j < bs.len(),
        has_tag_col(bs[j].cols, x),
    ensures
        merged_model(bs) matches Some(m) && has_col(m.cols, x) && col_of(m.cols, x).typ is Tag,
    decreases bs.len(),
{
    assert forall|b: int| 0 <= b < bs.drop_last().len() implies (
    #[trigger] bs.drop_last()[b]).wf() by {
        assert(bs.drop_last()[b] == bs[b]);
    }
    lemma_merged_wf(bs.drop_last());
    let pre = merged_model(bs.drop_last()).unwrap();
    let last = bs.last();
    lemma_merged_wf(bs);
    lemma_extended_cols(pre, last);
    if j == bs.len() - 1 {
        let i = choose|i: int|
            0 <= i < last.cols.len() && (#[trigger] last.cols[i]).name == x && last.cols[i].typ
                is Tag;
        last.lemma_unique_index(i);
        if has_col(pre.cols, x) {
            // The shared column agrees on its type.
            let ip = col_index(pre.cols, x);
            pre.lemma_unique_index(ip);
            assert(compatible(pre.cols, last.cols));
            assert(pre.cols[ip].typ == last.cols[i].typ);
            assert(col_of(merged_model(bs).unwrap().cols, x) == widened_col(
                col_of(pre.cols, x),
                last,
            ));
        } else {
            assert(col_of(merged_model(bs).unwrap().cols, x) == crate::batch::pad_col(
                col_of(last.cols, x),
                pre.rows,
            ));
        }
    } else {
        assert(bs.drop_last()[j] == bs[j]);
        lemma_merged_typ(bs.drop_last(), j, x);
        assert(col_of(merged_model(bs).unwrap().cols, x) == widened_col(col_of(pre.cols, x), last));
    }
}

/// A non-final column of a computed sort key names a tag column of the
/// merged batch.
proof fn lemma_computed_key_has(bms: Seq<BatchModel>, m: BatchModel, i: int)
    requires
        forall|b: int| 0 <= b < bms.len() ==> (#[trigger] bms[b]).wf(),
        merged_model(bms) == Some(m),
        0 <= i < crate::sortkey::computed_sort_key(bms).len() - 1,
    ensures
        has_col(m.cols, crate::sortkey::computed_sort_key(bms)[i]),
        col_of(m.cols, crate::sortkey::computed_sort_key(bms)[i]).typ is Tag,
{
    let names = crate::sortkey::all_tag_names(Seq::empty(), bms);
    let pairs = names.map_values(
        |n: Seq<u8>| (crate::sortkey::distinct_count(crate::sortkey::column_values(bms, n)), n),
    );
    crate::sortkey::lemma_key_order_total();
    pairs.lemma_sort_by_ensures(crate::sortkey::key_order());
    let sorted = pairs.sort_by(crate::sortkey::key_order());
    let ck = crate::sortkey::computed_sort_key(bms);
    assert(ck[i] == sorted[i].1);
    assert(sorted.contains(sorted[i]));
    assert(pairs.contains(sorted[i]));
    let w = choose|w: int| 0 <= w < pairs.len() && pairs[w] == sorted[i];
    assert(pairs[w].1 == names[w]);
    assert(names.contains(names[w]));
    lemma_all_tag_names_from(Seq::empty(), bms, names[w]);
    let b = choose|b: int|
        0 <= b < bms.len() && has_tag_col(#[trigger] bms[b].cols, names[w]);
    lemma_merged_typ(bms, b, names[w]);
}

/// A collected tag name (over many batches) names a tag column of some batch.
proof fn lemma_all_tag_names_from(acc: Seq<Seq<u8>>, bms: Seq<BatchModel>, n: Seq<u8>)
    requires
        crate::sortkey::all_tag_names(acc, bms).contains(n),
        !acc.contains(n),
    ensures
        exists|b: int| 0 <= b < bms.len() && has_tag_col(#[trigger] bms[b].cols, n),
    decreases bms.len(),
{
    if bms.len() == 0 {
        assert(false);
    } else {
        let acc2 = crate::sortkey::add_tag_names(acc, bms[0].cols);
        if acc2.contains(n) {
            lemma_tag_names_from_cols(acc, bms[0].cols);
            assert(has_tag_col(bms[0].cols, n));
        } else {
            lemma_all_tag_names_from(acc2, bms.drop_first(), n);
            let b = choose|b: int|
                0 <= b < bms.drop_first().len() && has_tag_col(
                    #[trigger] bms.drop_first()[b].cols,
                    n,
                );
            assert(bms[b + 1] == bms.drop_first()[b]);
            assert(has_tag_col(bms[b + 1].cols, n));
        }
    }
}

} // verus!
