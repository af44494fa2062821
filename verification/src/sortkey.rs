//! The sort-key planner: derive a sort key from observed column cardinality,
//! and adjust a catalog sort key to the columns present in new data.
//!
//! A sort key is an ordered list of column names; rows are sorted and
//! deduplicated by it. The computed key orders tag columns by ascending
//! distinct-value count, ties broken by name, with `time` always last.

use vstd::prelude::*;
use vstd::multiset::Multiset;
use vstd::relations::{sorted_by, total_ordering};
use vstd::seq_lib::lemma_multiset_commutative;
use vstd::seq_lib::lemma_sorted_unique;

use crate::batch::{BatchModel, ColType, FieldValue, RecordBatch, Val, clone_bytes, col_of, has_col, time_name};
use crate::bytes::{bytes_eq, bytes_le, lex_le, lemma_lex_le_antisymmetric, lemma_lex_le_total, lemma_lex_le_transitive};

verus! {

// ---------------------------------------------------------------------------
// The ordering on (cardinality, name) pairs
// ---------------------------------------------------------------------------

/// Ascending cardinality, ties broken by lexicographic name order.
pub open spec fn key_leq(a: (nat, Seq<u8>), b: (nat, Seq<u8>)) -> bool {
    a.0 < b.0 || (a.0 == b.0 && lex_le(a.1, b.1))
}

/// The pair ordering as a relation value.
pub open spec fn key_order() -> spec_fn((nat, Seq<u8>), (nat, Seq<u8>)) -> bool {
    |a: (nat, Seq<u8>), b: (nat, Seq<u8>)| key_leq(a, b)
}

/// The pair ordering is a total order, so sorting by it has a unique result.
pub proof fn lemma_key_order_total()
    ensures
        total_ordering(key_order()),
{
    let r = key_order();
    assert forall|x: (nat, Seq<u8>)| #[trigger] r(x, x) by {
        lemma_lex_le_total(x.1, x.1);
    }
    assert forall|x: (nat, Seq<u8>), y: (nat, Seq<u8>)| #[trigger] r(x, y) && #[trigger] r(
        y,
        x,
    ) implies x == y by {
        if x.0 == y.0 {
            lemma_lex_le_antisymmetric(x.1, y.1);
        }
    }
    assert forall|x: (nat, Seq<u8>), y: (nat, Seq<u8>), z: (nat, Seq<u8>)|
        #[trigger] r(x, y) && #[trigger] r(y, z) implies r(x, z) by {
        if x.0 == y.0 && y.0 == z.0 {
            lemma_lex_le_transitive(x.1, y.1, z.1);
        }
    }
    assert forall|x: (nat, Seq<u8>), y: (nat, Seq<u8>)| #[trigger] r(x, y) || #[trigger] r(
        y,
        x,
    ) by {
        if x.0 == y.0 {
            lemma_lex_le_total(x.1, y.1);
        }
    }
}

// ---------------------------------------------------------------------------
// Cardinality estimation
// ---------------------------------------------------------------------------

/// The number of distinct cell values in a sequence (a null counts once).
pub open spec fn distinct_count(s: Seq<Option<Val>>) -> nat
    decreases s.len(),
{
    if s.len() == 0 {
        0
    } else if s.drop_last().contains(s.last()) {
        distinct_count(s.drop_last())
    } else {
        distinct_count(s.drop_last()) + 1
    }
}

/// The cells of the column named `name` across all batches, in order; a batch
/// without the column contributes nothing.
pub open spec fn column_values(batches: Seq<BatchModel>, name: Seq<u8>) -> Seq<Option<Val>>
    decreases batches.len(),
{
    if batches.len() == 0 {
        Seq::empty()
    } else {
        column_values(batches.drop_last(), name) + if has_col(batches.last().cols, name) {
            col_of(batches.last().cols, name).vals
        } else {
            Seq::empty()
        }
    }
}

/// The names of the tag columns across all batches, in first-appearance order.
pub open spec fn add_tag_names(acc: Seq<Seq<u8>>, cols: Seq<crate::batch::ColModel>) -> Seq<
    Seq<u8>,
>
    decreases cols.len(),
{
    if cols.len() == 0 {
        acc
    } else {
        let acc2 = if cols[0].typ is Tag && !acc.contains(cols[0].name) {
            acc.push(cols[0].name)
        } else {
            acc
        };
        add_tag_names(acc2, cols.drop_first())
    }
}

/// The tag names of every batch, folded in order.
pub open spec fn all_tag_names(acc: Seq<Seq<u8>>, batches: Seq<BatchModel>) -> Seq<Seq<u8>>
    decreases batches.len(),
{
    if batches.len() == 0 {
        acc
    } else {
        all_tag_names(add_tag_names(acc, batches[0].cols), batches.drop_first())
    }
}

/// The sort key derived from observed cardinality: tag columns ordered by
/// ascending distinct-value count (ties by name), then `time`.
pub open spec fn computed_sort_key(batches: Seq<BatchModel>) -> Seq<Seq<u8>> {
    let names = all_tag_names(Seq::empty(), batches);
    let pairs = names.map_values(
        |n: Seq<u8>| (distinct_count(column_values(batches, n)), n),
    );
    pairs.sort_by(key_order()).map_values(|p: (nat, Seq<u8>)| p.1).push(time_name())
}

} // verus!

verus! {

// ---------------------------------------------------------------------------
// Exec models
// ---------------------------------------------------------------------------

/// Models of a list of record batches.
pub open spec fn batch_models(bs: Seq<RecordBatch>) -> Seq<BatchModel> {
    bs.map_values(|rb: RecordBatch| rb.model())
}

/// Views of a list of byte-string names.
pub open spec fn names_model(v: Seq<Vec<u8>>) -> Seq<Seq<u8>> {
    v.map_values(|n: Vec<u8>| n@)
}

/// The model of one optional exec cell.
pub open spec fn ov(x: Option<FieldValue>) -> Option<Val> {
    match x {
        Some(v) => Some(v.view()),
        None => None,
    }
}

/// Models of a list of optional exec cells.
pub open spec fn ov_seq(v: Seq<Option<FieldValue>>) -> Seq<Option<Val>> {
    v.map_values(|x: Option<FieldValue>| ov(x))
}

/// Models of a list of (cardinality, name) pairs.
pub open spec fn pair_models(v: Seq<(usize, Vec<u8>)>) -> Seq<(nat, Seq<u8>)> {
    v.map_values(|p: (usize, Vec<u8>)| (p.0 as nat, p.1@))
}

/// Whether two optional cells hold the same value.
fn opt_cell_eq(a: &Option<FieldValue>, b: &Option<FieldValue>) -> (r: bool)
    ensures
        r == (ov(*a) == ov(*b)),
{
    match (a, b) {
        (None, None) => true,
        (Some(x), Some(y)) => match (x, y) {
            (FieldValue::F64(p), FieldValue::F64(q)) => p == q,
            (FieldValue::I64(p), FieldValue::I64(q)) => p == q,
            (FieldValue::U64(p), FieldValue::U64(q)) => p == q,
            (FieldValue::Bool(p), FieldValue::Bool(q)) => p == q,
            (FieldValue::Str(p), FieldValue::Str(q)) => bytes_eq(p.as_slice(), q.as_slice()),
            _ => false,
        },
        _ => false,
    }
}

/// Whether `a` precedes `b` (or equals it) in the (cardinality, name) order.
fn key_le_exec(a: &(usize, Vec<u8>), b: &(usize, Vec<u8>)) -> (r: bool)
    ensures
        r == key_leq((a.0 as nat, a.1@), (b.0 as nat, b.1@)),
{
    if a.0 < b.0 {
        true
    } else if a.0 == b.0 {
        bytes_le(a.1.as_slice(), b.1.as_slice())
    } else {
        false
    }
}

/// Insert one pair into a sorted list, keeping it sorted.
fn sorted_insert(out: &mut Vec<(usize, Vec<u8>)>, x: (usize, Vec<u8>))
    requires
        sorted_by(pair_models(old(out)@), key_order()),
    ensures
        sorted_by(pair_models(final(out)@), key_order()),
        pair_models(final(out)@).to_multiset() == pair_models(old(out)@).to_multiset().insert(
            (x.0 as nat, x.1@),
        ),
{
    proof {
        lemma_key_order_total();
    }
    let n = out.len();
    let mut p: usize = n;
    let mut j: usize = 0;
    while j < n
        invariant
            0 <= j <= n,
            p <= n,
            n == out@.len(),
            p == n ==> forall|k: int|
                0 <= k < j ==> key_leq((#[trigger] pair_models(out@)[k]), (x.0 as nat, x.1@)),
            p < n ==> !key_leq(pair_models(out@)[p as int], (x.0 as nat, x.1@)) && forall|k: int|
                0 <= k < p ==> key_leq((#[trigger] pair_models(out@)[k]), (x.0 as nat, x.1@)),
        decreases n - j,
    {
        if p == n {
            proof {
                assert(pair_models(out@)[j as int] == (out@[j as int].0 as nat, out@[j as int].1@));
            }
            if !key_le_exec(&out[j], &x) {
                p = j;
            }
            j += 1;
        } else {
            j = n;
        }
    }
    let ghost before = pair_models(out@);
    let ghost xm = (x.0 as nat, x.1@);
    out.insert(p, x);
    proof {
        assert(pair_models(out@) =~= before.insert(p as int, xm));
        let now = pair_models(out@);
        // Sortedness: entries before `p` precede `x`; entries from `p` follow it.
        assert forall|i: int, k: int| 0 <= i < k < now.len() implies #[trigger] key_order()(
            now[i],
            now[k],
        ) by {
            let ord = key_order();
            assert(total_ordering(ord));
            if k < p {
                assert(now[i] == before[i] && now[k] == before[k]);
                assert(ord(before[i], before[k]));
            } else if i > p {
                assert(now[i] == before[i - 1] && now[k] == before[k - 1]);
                assert(ord(before[i - 1], before[k - 1]));
            } else if i < p && k == p {
                assert(now[i] == before[i] && now[k] == xm);
                assert(key_leq(before[i], xm));
            } else if i == p {
                assert(now[i] == xm && now[k] == before[k - 1]);
                if p < before.len() {
                    assert(!ord(before[p as int], xm));
                    assert(ord(xm, before[p as int]));
                    if k - 1 > p {
                        assert(ord(before[p as int], before[k - 1]));
                    }
                }
            } else {
                // i < p < k with k > p: now[k] == before[k - 1], k - 1 >= p
                assert(now[i] == before[i] && now[k] == before[k - 1]);
                assert(key_leq(before[i], xm));
                if p < before.len() {
                    assert(!ord(before[p as int], xm));
                    assert(ord(xm, before[p as int]));
                    if k - 1 > p {
                        assert(ord(before[p as int], before[k - 1]));
                    }
                }
            }
        }
        // Multiset: an insertion adds exactly one copy of `x`.
        lemma_insert_to_multiset(before, p as int, xm);
    }
}

/// Inserting into a sequence adds one copy to its multiset.
proof fn lemma_insert_to_multiset<A>(s: Seq<A>, i: int, x: A)
    requires
        0 <= i <= s.len(),
    ensures
        s.insert(i, x).to_multiset() == s.to_multiset().insert(x),
{
    vstd::seq_lib::to_multiset_insert(s, i, x);
}

/// Sort pairs by ascending cardinality, ties by name.
pub(crate) fn sort_pairs(v: Vec<(usize, Vec<u8>)>) -> (r: Vec<(usize, Vec<u8>)>)
    ensures
        sorted_by(pair_models(r@), key_order()),
        pair_models(r@).to_multiset() == pair_models(v@).to_multiset(),
{
    broadcast use vstd::seq_lib::group_to_multiset_ensures;
    broadcast use vstd::multiset::group_multiset_axioms;

    let mut rest = v;
    let mut out: Vec<(usize, Vec<u8>)> = Vec::new();
    proof {
        assert(pair_models(out@) =~= Seq::<(nat, Seq<u8>)>::empty());
        assert(pair_models(out@).to_multiset().add(pair_models(rest@).to_multiset())
            =~= pair_models(v@).to_multiset());
    }
    while rest.len() > 0
        invariant
            sorted_by(pair_models(out@), key_order()),
            pair_models(out@).to_multiset().add(pair_models(rest@).to_multiset()) == pair_models(
                v@,
            ).to_multiset(),
        decreases rest@.len(),
    {
        let ghost restm = pair_models(rest@);
        let x = rest.remove(0);
        proof {
            broadcast use vstd::multiset::group_multiset_axioms;

            restm.to_multiset_ensures();
            vstd::seq_lib::to_multiset_remove(restm, 0);
            assert(pair_models(rest@) =~= restm.remove(0));
            assert(restm[0] == (x.0 as nat, x.1@));
            assert(restm.to_multiset().contains(restm[0]));
        }
        let ghost outm = pair_models(out@);
        sorted_insert(&mut out, x);
        proof {
            assert(pair_models(out@).to_multiset().add(pair_models(rest@).to_multiset())
                =~= outm.to_multiset().add(restm.to_multiset()));
        }
    }
    proof {
        assert(pair_models(rest@) =~= Seq::<(nat, Seq<u8>)>::empty());
        assert(pair_models(out@).to_multiset().add(Multiset::<(nat, Seq<u8>)>::empty())
            =~= pair_models(out@).to_multiset());
    }
    out
}

} // verus!

verus! {

/// Collect the tag-column names of every batch, in first-appearance order.
fn collect_tag_names(batches: &Vec<RecordBatch>) -> (r: Vec<Vec<u8>>)
    requires
        forall|i: int| 0 <= i < batches@.len() ==> (#[trigger] batches@[i]).wf(),
    ensures
        names_model(r@) == all_tag_names(Seq::empty(), batch_models(batches@)),
{
    let ghost ms = batch_models(batches@);
    let mut acc: Vec<Vec<u8>> = Vec::new();
    let nb = batches.len();
    proof {
        assert(ms.skip(0) =~= ms);
        assert(names_model(acc@) =~= Seq::<Seq<u8>>::empty());
    }
    let mut bi: usize = 0;
    while bi < nb
        invariant
            forall|i: int| 0 <= i < batches@.len() ==> (#[trigger] batches@[i]).wf(),
            ms == batch_models(batches@),
            0 <= bi <= nb,
            nb == ms.len(),
            all_tag_names(Seq::empty(), ms) == all_tag_names(names_model(acc@), ms.skip(bi as int)),
        decreases nb - bi,
    {
        let ghost cols = ms[bi as int].cols;
        let b = batches[bi].data();
        let nc = b.num_columns();
        proof {
            assert(ms.skip(bi as int)[0] == ms[bi as int]);
            assert(ms.skip(bi as int).drop_first() =~= ms.skip(bi as int + 1));
            assert(cols.skip(0) =~= cols);
        }
        let mut ci: usize = 0;
        let ghost acc0 = names_model(acc@);
        while ci < nc
            invariant
                forall|i: int| 0 <= i < batches@.len() ==> (#[trigger] batches@[i]).wf(),
                ms == batch_models(batches@),
                bi < nb,
                nb == ms.len(),
                0 <= ci <= nc,
                b.model() == ms[bi as int],
                b.wf(),
                cols == ms[bi as int].cols,
                nc == cols.len(),
                add_tag_names(acc0, cols) == add_tag_names(names_model(acc@), cols.skip(ci as int)),
            decreases nc - ci,
        {
            proof {
                assert(cols.skip(ci as int)[0] == cols[ci as int]);
                assert(cols.skip(ci as int).drop_first() =~= cols.skip(ci as int + 1));
            }
            if matches!(b.column_type(ci), ColType::Tag) {
                let name = b.column_name(ci);
                // Is the name already collected?
                let mut seen = false;
                let mut k: usize = 0;
                let nk = acc.len();
                while k < nk
                    invariant
                        0 <= k <= nk,
                        nk == acc@.len(),
                        name@ == cols[ci as int].name,
                        !seen ==> forall|k2: int| 0 <= k2 < k ==> names_model(acc@)[k2] != name@,
                        seen ==> names_model(acc@).contains(name@),
                    decreases nk - k,
                {
                    if !seen && bytes_eq(acc[k].as_slice(), name.as_slice()) {
                        proof {
                            assert(names_model(acc@)[k as int] == name@);
                        }
                        seen = true;
                    }
                    k += 1;
                }
                if !seen {
                    proof {
                        assert(!names_model(acc@).contains(name@));
                    }
                    let ghost before = names_model(acc@);
                    acc.push(clone_bytes(name));
                    proof {
                        assert(names_model(acc@) =~= before.push(cols[ci as int].name));
                    }
                }
            }
            ci += 1;
        }
        proof {
            assert(cols.skip(nc as int) =~= Seq::<crate::batch::ColModel>::empty());
        }
        bi += 1;
    }
    proof {
        assert(ms.skip(nb as int) =~= Seq::<BatchModel>::empty());
    }
    acc
}

/// The number of distinct values the named column takes across the batches.
fn column_cardinality(batches: &Vec<RecordBatch>, name: &Vec<u8>) -> (r: usize)
    requires
        forall|i: int| 0 <= i < batches@.len() ==> (#[trigger] batches@[i]).wf(),
    ensures
        r == distinct_count(column_values(batch_models(batches@), name@)),
{
    let ghost ms = batch_models(batches@);
    // Gather the column's cells across all batches.
    let mut vals: Vec<Option<FieldValue>> = Vec::new();
    let nb = batches.len();
    proof {
        assert(ov_seq(vals@) =~= Seq::<Option<Val>>::empty());
        assert(column_values(ms.take(0), name@) =~= Seq::<Option<Val>>::empty());
    }
    let mut bi: usize = 0;
    while bi < nb
        invariant
            forall|i: int| 0 <= i < batches@.len() ==> (#[trigger] batches@[i]).wf(),
            ms == batch_models(batches@),
            0 <= bi <= nb,
            nb == ms.len(),
            ov_seq(vals@) == column_values(ms.take(bi as int), name@),
        decreases nb - bi,
    {
        let b = batches[bi].data();
        proof {
            assert(ms.take(bi as int + 1).drop_last() =~= ms.take(bi as int));
            assert(ms.take(bi as int + 1).last() == ms[bi as int]);
        }
        match b.find_column(name.as_slice()) {
            Some(ci) => {
                let ghost colvals = col_of(ms[bi as int].cols, name@).vals;
                let rows = b.rows();
                proof {
                    assert(col_of(ms[bi as int].cols, name@) == ms[bi as int].cols[ci as int]);
                    assert(colvals.len() == rows);
                    assert(colvals.take(0) =~= Seq::<Option<Val>>::empty());
                    assert(ov_seq(vals@) + colvals.take(0) =~= ov_seq(vals@));
                }
                let mut ri: usize = 0;
                while ri < rows
                    invariant
                        forall|i: int| 0 <= i < batches@.len() ==> (#[trigger] batches@[i]).wf(),
                        ms == batch_models(batches@),
                        bi < nb,
                        nb == ms.len(),
                        0 <= ri <= rows,
                        b.model() == ms[bi as int],
                        b.wf(),
                        ci < ms[bi as int].cols.len(),
                        colvals == ms[bi as int].cols[ci as int].vals,
                        rows == ms[bi as int].rows,
                        colvals.len() == rows,
                        ov_seq(vals@) == column_values(ms.take(bi as int), name@) + colvals.take(
                            ri as int,
                        ),
                    decreases rows - ri,
                {
                    let ghost before = ov_seq(vals@);
                    let cell = b.get_cell(ci, ri);
                    proof {
                        assert(ov(cell) == colvals[ri as int]);
                    }
                    vals.push(cell);
                    proof {
                        assert(ov_seq(vals@) =~= before.push(colvals[ri as int]));
                        assert(colvals.take(ri as int + 1) =~= colvals.take(ri as int).push(
                            colvals[ri as int],
                        ));
                        assert(ov_seq(vals@) =~= column_values(ms.take(bi as int), name@)
                            + colvals.take(ri as int + 1));
                    }
                    ri += 1;
                }
                proof {
                    assert(colvals.take(rows as int) =~= colvals);
                    assert(has_col(ms[bi as int].cols, name@));
                    assert(column_values(ms.take(bi as int + 1), name@) == column_values(
                        ms.take(bi as int),
                        name@,
                    ) + colvals);
                }
            },
            None => {
                proof {
                    assert(column_values(ms.take(bi as int + 1), name@) =~= column_values(
                        ms.take(bi as int),
                        name@,
                    ) + Seq::<Option<Val>>::empty());
                    assert(column_values(ms.take(bi as int), name@) + Seq::<Option<Val>>::empty()
                        =~= column_values(ms.take(bi as int), name@));
                }
            },
        }
        bi += 1;
    }
    proof {
        assert(ms.take(nb as int) =~= ms);
    }

    // Count the distinct cells.
    let n = vals.len();
    let mut count: usize = 0;
    let mut i: usize = 0;
    proof {
        assert(ov_seq(vals@).take(0) =~= Seq::<Option<Val>>::empty());
    }
    while i < n
        invariant
            0 <= i <= n,
            n == vals@.len(),
            count <= i,
            ov_seq(vals@) == column_values(ms, name@),
            ms == batch_models(batches@),
            count == distinct_count(ov_seq(vals@).take(i as int)),
        decreases n - i,
    {
        let mut seen = false;
        let mut j: usize = 0;
        while j < i
            invariant
                0 <= j <= i < n,
                n == vals@.len(),
                !seen ==> forall|k: int| 0 <= k < j ==> ov_seq(vals@)[k] != ov_seq(vals@)[i as int],
                seen ==> ov_seq(vals@).take(i as int).contains(ov_seq(vals@)[i as int]),
            decreases i - j,
        {
            if !seen && opt_cell_eq(&vals[j], &vals[i]) {
                proof {
                    assert(ov_seq(vals@).take(i as int)[j as int] == ov_seq(vals@)[i as int]);
                }
                seen = true;
            }
            j += 1;
        }
        proof {
            let pre = ov_seq(vals@).take(i as int);
            assert(ov_seq(vals@).take(i as int + 1).drop_last() =~= pre);
            assert(ov_seq(vals@).take(i as int + 1).last() == ov_seq(vals@)[i as int]);
            if !seen {
                assert forall|k: int| 0 <= k < pre.len() implies pre[k] != ov_seq(vals@)[i as int] by {
                    assert(pre[k] == ov_seq(vals@)[k]);
                }
                assert(!pre.contains(ov_seq(vals@)[i as int]));
            }
        }
        if !seen {
            count += 1;
        }
        i += 1;
    }
    proof {
        assert(ov_seq(vals@).take(n as int) =~= ov_seq(vals@));
    }
    count
}

/// Derive a sort key from observed column cardinality: tag columns by
/// ascending distinct-value count (ties broken by name, so the result is
/// deterministic), with `time` always last.
pub fn compute_sort_key(batches: &Vec<RecordBatch>) -> (r: Vec<Vec<u8>>)
    requires
        forall|i: int| 0 <= i < batches@.len() ==> (#[trigger] batches@[i]).wf(),
    ensures
        names_model(r@) == computed_sort_key(batch_models(batches@)),
{
    let ghost ms = batch_models(batches@);
    let ghost target_pairs = all_tag_names(Seq::empty(), ms).map_values(
        |n: Seq<u8>| (distinct_count(column_values(ms, n)), n),
    );
    let names = collect_tag_names(batches);
    let mut pairs: Vec<(usize, Vec<u8>)> = Vec::new();
    let nn = names.len();
    proof {
        assert(pair_models(pairs@) =~= target_pairs.take(0));
    }
    let mut i: usize = 0;
    while i < nn
        invariant
            forall|k: int| 0 <= k < batches@.len() ==> (#[trigger] batches@[k]).wf(),
            ms == batch_models(batches@),
            0 <= i <= nn,
            nn == names@.len(),
            names_model(names@) == all_tag_names(Seq::empty(), ms),
            target_pairs == all_tag_names(Seq::empty(), ms).map_values(
                |n: Seq<u8>| (distinct_count(column_values(ms, n)), n),
            ),
            pair_models(pairs@) == target_pairs.take(i as int),
        decreases nn - i,
    {
        let card = column_cardinality(batches, &names[i]);
        let ghost before = pair_models(pairs@);
        pairs.push((card, clone_bytes(&names[i])));
        proof {
            assert(names_model(names@)[i as int] == names@[i as int]@);
            assert(pair_models(pairs@) =~= before.push(
                (distinct_count(column_values(ms, names@[i as int]@)), names@[i as int]@),
            ));
            assert(target_pairs.take(i as int + 1) =~= target_pairs.take(i as int).push(
                target_pairs[i as int],
            ));
        }
        i += 1;
    }
    proof {
        assert(target_pairs.take(nn as int) =~= target_pairs);
    }
    let sorted = sort_pairs(pairs);
    proof {
        lemma_key_order_total();
        target_pairs.lemma_sort_by_ensures(key_order());
        lemma_sorted_unique(pair_models(sorted@), target_pairs.sort_by(key_order()), key_order());
        assert(pair_models(sorted@) =~= target_pairs.sort_by(key_order()));
    }
    let mut r: Vec<Vec<u8>> = Vec::new();
    let nsorted = sorted.len();
    proof {
        assert(names_model(r@) =~= pair_models(sorted@).map_values(
            |p: (nat, Seq<u8>)| p.1,
        ).take(0));
    }
    let mut i: usize = 0;
    while i < nsorted
        invariant
            0 <= i <= nsorted,
            nsorted == sorted@.len(),
            names_model(r@) == pair_models(sorted@).map_values(|p: (nat, Seq<u8>)| p.1).take(
                i as int,
            ),
        decreases nsorted - i,
    {
        let ghost before = names_model(r@);
        let ghost mapped = pair_models(sorted@).map_values(|p: (nat, Seq<u8>)| p.1);
        r.push(clone_bytes(&sorted[i].1));
        proof {
            assert(names_model(r@) =~= before.push(sorted@[i as int].1@));
            assert(mapped[i as int] == sorted@[i as int].1@);
            assert(mapped.take(i as int + 1) =~= mapped.take(i as int).push(mapped[i as int]));
        }
        i += 1;
    }
    proof {
        let mapped = pair_models(sorted@).map_values(|p: (nat, Seq<u8>)| p.1);
        assert(mapped.take(nsorted as int) =~= mapped);
    }
    r.push(crate::batch::time_name_vec());
    proof {
        assert(names_model(r@) =~= computed_sort_key(ms));
    }
    r
}

/// The computed sort key is a function of the batch contents alone: computing
/// it twice over equal inputs gives identical keys, across runs and processes.
pub proof fn lemma_sort_key_deterministic(a: Seq<BatchModel>, b: Seq<BatchModel>)
    requires
        a == b,
    ensures
        computed_sort_key(a) == computed_sort_key(b),
{
}

} // verus!

verus! {

// ---------------------------------------------------------------------------
// Adjusting a catalog sort key to the data at hand
// ---------------------------------------------------------------------------

/// Whether the name list contains `n`.
pub open spec fn seq_contains_name(key: Seq<Seq<u8>>, n: Seq<u8>) -> bool {
    exists|i: int| 0 <= i < key.len() && key[i] == n
}

/// The columns of `existing` (other than `time`) present in `pk`, in order.
pub open spec fn kept_columns(existing: Seq<Seq<u8>>, pk: Seq<Seq<u8>>) -> Seq<Seq<u8>>
    decreases existing.len(),
{
    if existing.len() == 0 {
        Seq::empty()
    } else {
        let rest = kept_columns(existing.drop_last(), pk);
        let c = existing.last();
        if c != time_name() && seq_contains_name(pk, c) {
            rest.push(c)
        } else {
            rest
        }
    }
}

/// The columns of `existing` other than `time`, in order.
pub open spec fn without_time(existing: Seq<Seq<u8>>) -> Seq<Seq<u8>>
    decreases existing.len(),
{
    if existing.len() == 0 {
        Seq::empty()
    } else {
        let rest = without_time(existing.drop_last());
        if existing.last() != time_name() {
            rest.push(existing.last())
        } else {
            rest
        }
    }
}

/// The columns of `pk` (other than `time`) absent from `existing`, in order.
pub open spec fn new_columns(pk: Seq<Seq<u8>>, existing: Seq<Seq<u8>>) -> Seq<Seq<u8>>
    decreases pk.len(),
{
    if pk.len() == 0 {
        Seq::empty()
    } else {
        let rest = new_columns(pk.drop_last(), existing);
        let c = pk.last();
        if c != time_name() && !seq_contains_name(existing, c) {
            rest.push(c)
        } else {
            rest
        }
    }
}

/// The sort key used for the data: preserved columns, then new primary-key
/// columns, then `time`.
pub open spec fn adjusted_data_key(existing: Seq<Seq<u8>>, pk: Seq<Seq<u8>>) -> Seq<Seq<u8>> {
    kept_columns(existing, pk) + new_columns(pk, existing) + seq![time_name()]
}

/// The sort key the catalog should record: the full existing key (nothing is
/// narrowed), the new columns appended just before `time`.
pub open spec fn adjusted_catalog_key(existing: Seq<Seq<u8>>, pk: Seq<Seq<u8>>) -> Seq<Seq<u8>> {
    without_time(existing) + new_columns(pk, existing) + seq![time_name()]
}

/// Whether the name list contains `n`, at run time.
fn contains_name(key: &Vec<Vec<u8>>, n: &[u8]) -> (r: bool)
    ensures
        r == seq_contains_name(names_model(key@), n@),
{
    let m = key.len();
    let mut i: usize = 0;
    while i < m
        invariant
            0 <= i <= m,
            m == key@.len(),
            forall|j: int| 0 <= j < i ==> names_model(key@)[j] != n@,
        decreases m - i,
    {
        if bytes_eq(key[i].as_slice(), n) {
            proof {
                assert(names_model(key@)[i as int] == n@);
            }
            return true;
        }
        proof {
            assert(names_model(key@)[i as int] != n@);
        }
        i += 1;
    }
    false
}

/// Is this name the reserved `time` column?
fn is_time_name(n: &[u8]) -> (r: bool)
    ensures
        r == (n@ == time_name()),
{
    let t = crate::batch::time_name_vec();
    bytes_eq(n, t.as_slice())
}

/// Adjust a catalog sort key to the primary key of data about to be
/// compacted.
///
/// The data sort key keeps the existing order for columns present in the
/// data, inserts primary-key columns the catalog has not seen just before
/// `time`, and drops (from the data key only) existing columns absent from
/// the data. The second component is the catalog update: `Some` exactly when
/// new columns appeared, carrying the full widened key — existing columns are
/// never narrowed away from the catalog.
pub fn adjust_sort_key_columns(existing: &Vec<Vec<u8>>, pk: &Vec<Vec<u8>>) -> (r: (
    Vec<Vec<u8>>,
    Option<Vec<Vec<u8>>>,
))
    ensures
        names_model(r.0@) == adjusted_data_key(names_model(existing@), names_model(pk@)),
        r.1 is Some <==> new_columns(names_model(pk@), names_model(existing@)).len() > 0,
        r.1 matches Some(u) ==> names_model(u@) == adjusted_catalog_key(
            names_model(existing@),
            names_model(pk@),
        ),
{
    let ghost em = names_model(existing@);
    let ghost pm = names_model(pk@);

    // Preserved columns and (for the catalog) all non-time existing columns.
    let mut kept: Vec<Vec<u8>> = Vec::new();
    let mut full: Vec<Vec<u8>> = Vec::new();
    let ne = existing.len();
    proof {
        assert(names_model(kept@) =~= kept_columns(em.take(0), pm));
        assert(names_model(full@) =~= without_time(em.take(0)));
    }
    let mut i: usize = 0;
    while i < ne
        invariant
            0 <= i <= ne,
            ne == existing@.len(),
            em == names_model(existing@),
            pm == names_model(pk@),
            names_model(kept@) == kept_columns(em.take(i as int), pm),
            names_model(full@) == without_time(em.take(i as int)),
        decreases ne - i,
    {
        proof {
            assert(em.take(i as int + 1).drop_last() =~= em.take(i as int));
            assert(em.take(i as int + 1).last() == em[i as int]);
            assert(em[i as int] == existing@[i as int]@);
        }
        let c = &existing[i];
        if !is_time_name(c.as_slice()) {
            let ghost beforef = names_model(full@);
            full.push(clone_bytes(c));
            proof {
                assert(names_model(full@) =~= beforef.push(em[i as int]));
            }
            if contains_name(pk, c.as_slice()) {
                let ghost beforek = names_model(kept@);
                kept.push(clone_bytes(c));
                proof {
                    assert(names_model(kept@) =~= beforek.push(em[i as int]));
                }
            }
        }
        i += 1;
    }
    proof {
        assert(em.take(ne as int) =~= em);
    }

    // New primary-key columns, in primary-key order.
    let mut news: Vec<Vec<u8>> = Vec::new();
    let np = pk.len();
    proof {
        assert(names_model(news@) =~= new_columns(pm.take(0), em));
    }
    let mut i: usize = 0;
    while i < np
        invariant
            0 <= i <= np,
            np == pk@.len(),
            em == names_model(existing@),
            pm == names_model(pk@),
            names_model(news@) == new_columns(pm.take(i as int), em),
        decreases np - i,
    {
        proof {
            assert(pm.take(i as int + 1).drop_last() =~= pm.take(i as int));
            assert(pm.take(i as int + 1).last() == pm[i as int]);
            assert(pm[i as int] == pk@[i as int]@);
        }
        let c = &pk[i];
        if !is_time_name(c.as_slice()) && !contains_name(existing, c.as_slice()) {
            let ghost before = names_model(news@);
            news.push(clone_bytes(c));
            proof {
                assert(names_model(news@) =~= before.push(pm[i as int]));
            }
        }
        i += 1;
    }
    proof {
        assert(pm.take(np as int) =~= pm);
    }

    let has_news = news.len() > 0;

    // Assemble the data key: kept ++ news ++ time.
    let mut data_key = kept;
    let nn = news.len();
    let mut i: usize = 0;
    while i < nn
        invariant
            0 <= i <= nn,
            nn == news@.len(),
            names_model(data_key@) == kept_columns(em, pm) + names_model(news@).take(i as int),
            em == names_model(existing@),
            pm == names_model(pk@),
            names_model(news@) == new_columns(pm, em),
        decreases nn - i,
    {
        let ghost before = names_model(data_key@);
        data_key.push(clone_bytes(&news[i]));
        proof {
            assert(names_model(data_key@) =~= before.push(names_model(news@)[i as int]));
            assert(kept_columns(em, pm) + names_model(news@).take(i as int + 1) =~= before.push(
                names_model(news@)[i as int],
            ));
        }
        i += 1;
    }
    data_key.push(crate::batch::time_name_vec());
    proof {
        assert(names_model(news@).take(nn as int) =~= names_model(news@));
        assert(names_model(data_key@) =~= adjusted_data_key(em, pm));
    }

    if !has_news {
        return (data_key, None);
    }

    // Assemble the catalog update: full ++ news ++ time.
    let mut catalog_key = full;
    let mut i: usize = 0;
    while i < nn
        invariant
            0 <= i <= nn,
            nn == news@.len(),
            names_model(catalog_key@) == without_time(em) + names_model(news@).take(i as int),
            em == names_model(existing@),
            pm == names_model(pk@),
            names_model(news@) == new_columns(pm, em),
        decreases nn - i,
    {
        let ghost before = names_model(catalog_key@);
        catalog_key.push(clone_bytes(&news[i]));
        proof {
            assert(names_model(catalog_key@) =~= before.push(names_model(news@)[i as int]));
            assert(without_time(em) + names_model(news@).take(i as int + 1) =~= before.push(
                names_model(news@)[i as int],
            ));
        }
        i += 1;
    }
    catalog_key.push(crate::batch::time_name_vec());
    proof {
        assert(names_model(news@).take(nn as int) =~= names_model(news@));
        assert(names_model(catalog_key@) =~= adjusted_catalog_key(em, pm));
    }
    (data_key, Some(catalog_key))
}

} // verus!
